//! Codecs for dense columns of `u64` values ("fast fields").
//!
//! A column is serialized once into a contiguous byte buffer
//! (`<codec body> <stats footer> <codec id>`), and read back through a
//! reader that answers `get_u64(ord)` in constant time.  A selector picks,
//! per column, the codec with the smallest estimated body size among the
//! applicable ones: plain bit-packing, linear interpolation, or
//! chunk-wise (multi) linear interpolation, optionally wrapped by a
//! common-divisor transform.

use vstd::prelude::*;

pub mod bits;
pub mod line;
pub mod buffer;
pub mod stats;
pub mod bitpacked;
pub mod linearinterpol;
pub mod multilinearinterpol;
pub mod gcd;
pub mod dynamic;

verus! {

/// Errors surfaced when a serialized column cannot be decoded.
#[derive(Clone, Copy, Debug, PartialEq, Eq, Structural)]
pub enum FastFieldError {
    /// Unknown codec id, truncated buffer, or a header field that breaks
    /// an internal invariant (for example a bit width above 64).
    CorruptFormat,
}

/// Random access into one decoded column.
///
/// `get_u64` is total: for ordinals whose encoded bits do not fit in the
/// backing buffer the returned value is unspecified, but the call never
/// panics.
pub trait FastFieldCodecReader: Sized {
    /// Well-formedness of the reader; established by the codec's `open`.
    spec fn wf(&self) -> bool;

    /// The value that the serialized form holds for `doc`.
    spec fn spec_get(&self, doc: u64) -> u64;

    /// Whether the encoded bits for `doc` lie inside the backing buffer.
    spec fn spec_in_range(&self, doc: u64) -> bool;

    /// Lower bound reported by the reader.
    spec fn spec_min_value(&self) -> u64;

    /// Upper bound reported by the reader.
    spec fn spec_max_value(&self) -> u64;

    fn get_u64(&self, doc: u64) -> (r: u64)
        requires
            self.wf(),
        ensures
            self.spec_in_range(doc) ==> r == self.spec_get(doc),
    ;

    fn min_value(&self) -> (r: u64)
        requires
            self.wf(),
        ensures
            r == self.spec_min_value(),
    ;

    fn max_value(&self) -> (r: u64)
        requires
            self.wf(),
        ensures
            r == self.spec_max_value(),
    ;
}

} // verus!
