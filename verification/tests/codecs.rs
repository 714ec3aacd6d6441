use fastfield_codecs::bitpacked::BitpackedFastFieldCodec;
use fastfield_codecs::dynamic::{open_column, serialize_column};
use fastfield_codecs::linearinterpol::LinearInterpolCodec;
use fastfield_codecs::multilinearinterpol::MultiLinearInterpolFastFieldCodec;
use fastfield_codecs::stats::FastFieldStats;
use fastfield_codecs::FastFieldCodecReader;
use fastfield_codecs::FastFieldError;
use ownedbytes::OwnedBytes;

fn stats_from_vec(data: &[u64]) -> FastFieldStats {
    let min_value = data.iter().cloned().min().unwrap_or(0);
    let max_value = data.iter().cloned().max().unwrap_or(0);
    FastFieldStats {
        min_value,
        max_value,
        num_vals: data.len() as u64,
    }
}

fn ratio(ppm: u64) -> f32 {
    ppm as f32 / 1_000_000.0
}

fn get_codec_test_data_sets() -> Vec<(Vec<u64>, &'static str)> {
    let mut data_and_names = vec![];

    let data = (10..=20_u64).collect::<Vec<_>>();
    data_and_names.push((data, "simple monotonically increasing"));

    data_and_names.push((
        vec![5, 6, 7, 8, 9, 10, 99, 100],
        "offset in linear interpol",
    ));
    data_and_names.push((vec![5, 50, 3, 13, 1, 1000, 35], "rand small"));
    data_and_names.push((vec![10], "single value"));

    data_and_names
}

enum Codec {
    Bitpacked,
    Linear,
    Multi,
}

fn create_and_validate(codec: &Codec, data: &[u64], name: &str) -> (f32, f32) {
    let stats = stats_from_vec(data);
    let applicable = match codec {
        Codec::Bitpacked => BitpackedFastFieldCodec::is_applicable(data, stats),
        Codec::Linear => LinearInterpolCodec::is_applicable(data, stats),
        Codec::Multi => MultiLinearInterpolFastFieldCodec::is_applicable(data, stats),
    };
    if !applicable {
        return (f32::MAX, 0.0);
    }
    let estimation = match codec {
        Codec::Bitpacked => ratio(BitpackedFastFieldCodec::estimate(data, stats)),
        Codec::Linear => ratio(LinearInterpolCodec::estimate(data, stats)),
        Codec::Multi => ratio(MultiLinearInterpolFastFieldCodec::estimate(data, stats)),
    };
    let mut out: Vec<u8> = Vec::new();
    match codec {
        Codec::Bitpacked => BitpackedFastFieldCodec::serialize(&mut out, data, stats),
        Codec::Linear => LinearInterpolCodec::serialize(&mut out, data, stats),
        Codec::Multi => MultiLinearInterpolFastFieldCodec::serialize(&mut out, data, stats),
    }

    let actual_compression = out.len() as f32 / (data.len() as f32 * 8.0);

    match codec {
        Codec::Bitpacked => {
            let reader = BitpackedFastFieldCodec::open_from_bytes(OwnedBytes::new(out)).unwrap();
            for (doc, orig_val) in data.iter().enumerate() {
                let val = reader.get_u64(doc as u64);
                if val != *orig_val {
                    panic!(
                        "val {:?} does not match orig_val {:?}, in data set {}, data {:?}",
                        val, orig_val, name, data
                    );
                }
            }
        }
        Codec::Linear => {
            let reader = LinearInterpolCodec::open_from_bytes(OwnedBytes::new(out)).unwrap();
            for (doc, orig_val) in data.iter().enumerate() {
                let val = reader.get_u64(doc as u64);
                if val != *orig_val {
                    panic!(
                        "val {:?} does not match orig_val {:?}, in data set {}, data {:?}",
                        val, orig_val, name, data
                    );
                }
            }
        }
        Codec::Multi => {
            let reader =
                MultiLinearInterpolFastFieldCodec::open_from_bytes(OwnedBytes::new(out)).unwrap();
            for (doc, orig_val) in data.iter().enumerate() {
                let val = reader.get_u64(doc as u64);
                if val != *orig_val {
                    panic!(
                        "val {:?} does not match orig_val {:?}, in data set {}, data {:?}",
                        val, orig_val, name, data
                    );
                }
            }
        }
    }
    (estimation, actual_compression)
}

fn test_codec(codec: &Codec, codec_name: &str) {
    for (data, data_set_name) in get_codec_test_data_sets() {
        let (estimate, actual) = create_and_validate(codec, &data, data_set_name);
        let result = if estimate == f32::MAX {
            "Disabled".to_string()
        } else {
            format!("Estimate {:?} Actual {:?} ", estimate, actual)
        };
        println!("Codec {}, DataSet {}, {}", codec_name, data_set_name, result);
    }
}

#[test]
fn test_codec_bitpacking() {
    test_codec(&Codec::Bitpacked, "Bitpacked");
}

#[test]
fn test_codec_interpolation() {
    test_codec(&Codec::Linear, "LinearInterpol");
}

#[test]
fn test_codec_multi_interpolation() {
    test_codec(&Codec::Multi, "MultiLinearInterpol");
}

#[test]
fn estimation_good_interpolation_case() {
    let data = (10..=20000_u64).collect::<Vec<_>>();

    let linear_interpol_estimation = ratio(LinearInterpolCodec::estimate(
        &data,
        stats_from_vec(&data),
    ));
    assert!(linear_interpol_estimation <= 0.01);

    let multi_linear_interpol_estimation = ratio(MultiLinearInterpolFastFieldCodec::estimate(
        &data[..],
        stats_from_vec(&data),
    ));
    assert!(multi_linear_interpol_estimation <= 0.2);
    assert!(linear_interpol_estimation <= multi_linear_interpol_estimation);

    let bitpacked_estimation = ratio(BitpackedFastFieldCodec::estimate(
        &data,
        stats_from_vec(&data),
    ));
    assert!(linear_interpol_estimation <= bitpacked_estimation);
}

#[test]
fn estimation_test_bad_interpolation_case() {
    let data = vec![200, 10, 10, 10, 10, 1000, 20];

    let linear_interpol_estimation = ratio(LinearInterpolCodec::estimate(
        &data,
        stats_from_vec(&data),
    ));
    assert!(linear_interpol_estimation <= 0.32);

    let bitpacked_estimation = ratio(BitpackedFastFieldCodec::estimate(
        &data,
        stats_from_vec(&data),
    ));
    assert!(bitpacked_estimation <= linear_interpol_estimation);
}

#[test]
fn estimation_test_bad_interpolation_case_monotonically_increasing() {
    let mut data = (200..=20000_u64).collect::<Vec<_>>();
    data.push(1_000_000);

    // in this case the linear interpolation can't in fact be worse than
    // bitpacking, but the estimator adds a threshold, which leads to
    // estimated worse behavior
    let linear_interpol_estimation = ratio(LinearInterpolCodec::estimate(
        &data,
        stats_from_vec(&data),
    ));
    assert!(linear_interpol_estimation <= 0.35);

    let bitpacked_estimation = ratio(BitpackedFastFieldCodec::estimate(
        &data,
        stats_from_vec(&data),
    ));
    assert!(bitpacked_estimation <= 0.32);
    assert!(bitpacked_estimation <= linear_interpol_estimation);
}

fn roundtrip_column(data: &[u64]) -> (Vec<u8>, u8) {
    let mut out: Vec<u8> = Vec::new();
    serialize_column(data, &mut out);
    let codec_id = out[out.len() - 1];
    let reader = open_column(OwnedBytes::new(out.clone())).unwrap();
    assert_eq!(reader.num_vals(), data.len() as u64);
    for (doc, orig_val) in data.iter().enumerate() {
        assert_eq!(reader.get_u64(doc as u64), *orig_val);
    }
    if !data.is_empty() {
        assert_eq!(reader.min_value(), *data.iter().min().unwrap());
        assert_eq!(reader.max_value(), *data.iter().max().unwrap());
    }
    (out, codec_id)
}

#[test]
fn column_simple_increasing_picks_linear() {
    let data = (10..=20_u64).collect::<Vec<_>>();
    let (out, codec_id) = roundtrip_column(&data);
    assert_eq!(codec_id, 2);
    let reader = open_column(OwnedBytes::new(out.clone())).unwrap();
    assert_eq!(reader.get_u64(5), 15);
    // codec body only: the 25-byte footer is not part of it
    assert!(out.len() - 25 <= 32);
}

#[test]
fn column_offset_case_picks_bitpacked() {
    let data = vec![5, 6, 7, 8, 9, 10, 99, 100];
    let (_out, codec_id) = roundtrip_column(&data);
    assert_eq!(codec_id, 1);
}

#[test]
fn column_random_small_picks_bitpacked() {
    let data = vec![5, 50, 3, 13, 1, 1000, 35];
    let (out, codec_id) = roundtrip_column(&data);
    assert_eq!(codec_id, 1);
    let reader = open_column(OwnedBytes::new(out)).unwrap();
    assert_eq!(reader.get_u64(5), 1000);
}

#[test]
fn column_single_value_picks_bitpacked() {
    let data = vec![10_u64];
    let (out, codec_id) = roundtrip_column(&data);
    assert_eq!(codec_id, 1);
    // body is the single-value header only: min (8 bytes) + bit width
    assert_eq!(out.len() - 25, 9);
    assert_eq!(out[8], 0, "bit width must be zero for a constant column");
}

#[test]
fn column_outlier_picks_bitpacked() {
    let mut data = (200..=20000_u64).collect::<Vec<_>>();
    data.push(1_000_000);
    let (_out, codec_id) = roundtrip_column(&data);
    assert_eq!(codec_id, 1);
}

#[test]
fn column_empty() {
    let data: Vec<u64> = vec![];
    let (out, codec_id) = roundtrip_column(&data);
    assert_eq!(codec_id, 1);
    let reader = open_column(OwnedBytes::new(out)).unwrap();
    assert_eq!(reader.num_vals(), 0);
}

#[test]
fn column_constant_values() {
    let data = vec![7_u64, 7, 7, 7, 7, 7];
    let (_out, _codec_id) = roundtrip_column(&data);
}

#[test]
fn column_extreme_values() {
    let data = vec![u64::MAX, 0, u64::MAX, 1, u64::MAX - 1];
    roundtrip_column(&data);
}

#[test]
fn multi_linear_roundtrip_across_chunks() {
    // several chunks, last one shorter, with some noise
    let data: Vec<u64> = (0..1500_u64).map(|i| 100 + 13 * i + (i * i) % 31).collect();
    let stats = stats_from_vec(&data);
    let mut out: Vec<u8> = Vec::new();
    MultiLinearInterpolFastFieldCodec::serialize(&mut out, &data, stats);
    let reader = MultiLinearInterpolFastFieldCodec::open_from_bytes(OwnedBytes::new(out)).unwrap();
    for (doc, orig_val) in data.iter().enumerate() {
        assert_eq!(reader.get_u64(doc as u64), *orig_val);
    }
}

#[test]
fn multi_linear_roundtrip_single_value_tail_chunk() {
    // length is one past a chunk boundary, so the last chunk holds one value
    let data: Vec<u64> = (0..1025_u64).map(|i| 7 * i + i % 5).collect();
    let stats = stats_from_vec(&data);
    let mut out: Vec<u8> = Vec::new();
    MultiLinearInterpolFastFieldCodec::serialize(&mut out, &data, stats);
    let reader = MultiLinearInterpolFastFieldCodec::open_from_bytes(OwnedBytes::new(out)).unwrap();
    for (doc, orig_val) in data.iter().enumerate() {
        assert_eq!(reader.get_u64(doc as u64), *orig_val);
    }
}

#[test]
fn selector_agreement_estimate_close_to_actual() {
    // On columns long enough for the fixed headers to amortize, the
    // winning codec's estimate is close to the measured body size.
    let mut outlier = (200..=20000_u64).collect::<Vec<_>>();
    outlier.push(1_000_000);
    let columns: Vec<(Vec<u64>, &str)> = vec![
        ((10..=20000_u64).collect(), "long increasing"),
        (outlier, "increasing with outlier"),
        ((0..5000_u64).map(|i| 40 + (i * 17) % 390).collect(), "noisy"),
    ];
    for (data, name) in columns {
        let stats = stats_from_vec(&data);
        let mut out: Vec<u8> = Vec::new();
        serialize_column(&data, &mut out);
        let codec_id = out[out.len() - 1];
        let est = match codec_id {
            1 => ratio(BitpackedFastFieldCodec::estimate(&data, stats)),
            2 => ratio(LinearInterpolCodec::estimate(&data, stats)),
            3 => ratio(MultiLinearInterpolFastFieldCodec::estimate(&data, stats)),
            _ => panic!("unknown codec id {} for {}", codec_id, name),
        };
        let actual = (out.len() - 25) as f32 / (data.len() as f32 * 8.0);
        let tolerance = if est * 0.25 > 0.05 { est * 0.25 } else { 0.05_f32 };
        assert!(
            (actual - est).abs() <= tolerance,
            "estimate {} too far from actual {} on {}",
            est,
            actual,
            name
        );
    }
}

#[test]
fn open_column_unknown_codec_id() {
    let mut bytes = vec![0_u8; 24];
    bytes.push(9); // unknown codec id
    let r = open_column(OwnedBytes::new(bytes));
    assert!(matches!(r, Err(FastFieldError::CorruptFormat)));
}

#[test]
fn open_column_truncated() {
    let bytes = vec![1_u8, 2, 3];
    let r = open_column(OwnedBytes::new(bytes));
    assert!(matches!(r, Err(FastFieldError::CorruptFormat)));
}

#[test]
fn open_bitpacked_bad_bit_width() {
    // header claims 65 bits per value
    let mut body = vec![0_u8; 8];
    body.push(65);
    let r = BitpackedFastFieldCodec::open_from_bytes(OwnedBytes::new(body));
    assert!(matches!(r, Err(FastFieldError::CorruptFormat)));
}

#[test]
fn stats_compute_and_record() {
    let data = vec![5_u64, 50, 3, 13, 1, 1000, 35];
    let stats = FastFieldStats::compute(&data);
    assert_eq!(stats.min_value, 1);
    assert_eq!(stats.max_value, 1000);
    assert_eq!(stats.num_vals, 7);
    let mut more = stats;
    more.record(2000);
    assert_eq!(more.max_value, 2000);
    assert_eq!(more.min_value, 1);
    assert_eq!(more.num_vals, 8);
}

#[test]
fn column_gcd_picks_gcd_wrapped_bitpacking() {
    let data = vec![6_u64, 12, 18, 24];
    let mut out: Vec<u8> = Vec::new();
    fastfield_codecs::dynamic::serialize_column_with_gcd(&data, &mut out);
    // footer id: gcd-wrapped
    assert_eq!(out[out.len() - 1], 4);
    // wrapper header: divisor 6, inner codec is bit-packing
    let g = u64::from_le_bytes(out[0..8].try_into().unwrap());
    assert_eq!(g, 6);
    assert_eq!(out[16], 1);
    // the inner bit-packed body starts with the reduced minimum: 6 / 6 == 1
    let inner_min = u64::from_le_bytes(out[17..25].try_into().unwrap());
    assert_eq!(inner_min, 1);
    // reduced column is [1, 2, 3, 4]: amplitude 3, two bits per value
    assert_eq!(out[25], 2);
    let reader = open_column(OwnedBytes::new(out)).unwrap();
    assert_eq!(reader.num_vals(), 4);
    for (doc, orig_val) in data.iter().enumerate() {
        assert_eq!(reader.get_u64(doc as u64), *orig_val);
    }
    assert_eq!(reader.min_value(), 6);
    assert_eq!(reader.max_value(), 24);
}

#[test]
fn column_gcd_falls_back_without_common_divisor() {
    let data = vec![5_u64, 50, 3, 13, 1, 1000, 35];
    let mut out: Vec<u8> = Vec::new();
    fastfield_codecs::dynamic::serialize_column_with_gcd(&data, &mut out);
    assert_eq!(out[out.len() - 1], 1);
    let reader = open_column(OwnedBytes::new(out)).unwrap();
    for (doc, orig_val) in data.iter().enumerate() {
        assert_eq!(reader.get_u64(doc as u64), *orig_val);
    }
}

#[test]
fn column_gcd_large_multiples_roundtrip() {
    let data: Vec<u64> = (1..800_u64).map(|i| i * 1000).collect();
    let mut out: Vec<u8> = Vec::new();
    fastfield_codecs::dynamic::serialize_column_with_gcd(&data, &mut out);
    assert_eq!(out[out.len() - 1], 4);
    let reader = open_column(OwnedBytes::new(out)).unwrap();
    for (doc, orig_val) in data.iter().enumerate() {
        assert_eq!(reader.get_u64(doc as u64), *orig_val);
    }
}

#[test]
fn gcd_of_column_values() {
    assert_eq!(fastfield_codecs::gcd::gcd_u64(12, 18), 6);
    assert_eq!(fastfield_codecs::gcd::gcd_u64(0, 7), 7);
    assert_eq!(fastfield_codecs::gcd::column_gcd(&[6, 12, 18, 24]), 6);
    assert_eq!(fastfield_codecs::gcd::column_gcd(&[5, 50, 3]), 1);
    assert_eq!(fastfield_codecs::gcd::column_gcd(&[]), 0);
}
