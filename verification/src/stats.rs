//! Column statistics: minimum, maximum and count over a value slice.

use vstd::prelude::*;

verus! {

/// Smallest value of a non-empty sequence.
pub open spec fn seq_min_u64(s: Seq<u64>) -> u64
    recommends
        s.len() > 0,
    decreases s.len(),
{
    if s.len() <= 1 {
        s[0]
    } else if s.last() < seq_min_u64(s.drop_last()) {
        s.last()
    } else {
        seq_min_u64(s.drop_last())
    }
}

/// Largest value of a non-empty sequence.
pub open spec fn seq_max_u64(s: Seq<u64>) -> u64
    recommends
        s.len() > 0,
    decreases s.len(),
{
    if s.len() <= 1 {
        s[0]
    } else if s.last() > seq_max_u64(s.drop_last()) {
        s.last()
    } else {
        seq_max_u64(s.drop_last())
    }
}

/// Statistics used for codec selection and stored in the column footer.
#[derive(Clone, Copy, Debug, PartialEq, Eq, Structural)]
pub struct FastFieldStats {
    pub min_value: u64,
    pub max_value: u64,
    pub num_vals: u64,
}

impl FastFieldStats {
    /// The statistics of a value sequence: the zero tuple when it is
    /// empty, its minimum, maximum and length otherwise.
    pub open spec fn spec_compute(s: Seq<u64>) -> FastFieldStats {
        if s.len() == 0 {
            FastFieldStats { min_value: 0, max_value: 0, num_vals: 0 }
        } else {
            FastFieldStats {
                min_value: seq_min_u64(s),
                max_value: seq_max_u64(s),
                num_vals: s.len() as u64,
            }
        }
    }

    /// True when these statistics describe `s`.
    pub open spec fn is_stats_of(self, s: Seq<u64>) -> bool {
        self == Self::spec_compute(s)
    }

    pub fn compute(vals: &[u64]) -> (r: Self)
        requires
            vals@.len() <= u64::MAX,
        ensures
            r == Self::spec_compute(vals@),
    {
        if vals.len() == 0 {
            return FastFieldStats { min_value: 0, max_value: 0, num_vals: 0 };
        }
        let first_val = vals[0];
        let mut fast_field_stats = FastFieldStats {
            min_value: first_val,
            max_value: first_val,
            num_vals: 1,
        };
        let mut i: usize = 1;
        assert(vals@.take(1) =~= seq![vals@[0]]);
        while i < vals.len()
            invariant
                1 <= i <= vals@.len(),
                vals@.len() <= u64::MAX,
                fast_field_stats == Self::spec_compute(vals@.take(i as int)),
            decreases vals@.len() - i,
        {
            assert(vals@.take(i + 1).drop_last() =~= vals@.take(i as int));
            fast_field_stats.record(vals[i]);
            i += 1;
        }
        assert(vals@.take(vals@.len() as int) =~= vals@);
        fast_field_stats
    }

    /// Extends the statistics by one more value.
    pub fn record(&mut self, val: u64)
        requires
            old(self).num_vals < u64::MAX,
        ensures
            final(self).num_vals == old(self).num_vals + 1,
            final(self).min_value == if val < old(self).min_value {
                val
            } else {
                old(self).min_value
            },
            final(self).max_value == if val > old(self).max_value {
                val
            } else {
                old(self).max_value
            },
    {
        self.num_vals = self.num_vals + 1;
        if val < self.min_value {
            self.min_value = val;
        }
        if val > self.max_value {
            self.max_value = val;
        }
    }
}

/// The minimum of a non-empty sequence bounds every element from below.
pub proof fn lemma_seq_min_le(s: Seq<u64>, i: int)
    requires
        0 <= i < s.len(),
    ensures
        seq_min_u64(s) <= s[i],
    decreases s.len(),
{
    if s.len() > 1 && i < s.len() - 1 {
        lemma_seq_min_le(s.drop_last(), i);
    }
}

/// The maximum of a non-empty sequence bounds every element from above.
pub proof fn lemma_seq_max_ge(s: Seq<u64>, i: int)
    requires
        0 <= i < s.len(),
    ensures
        s[i] <= seq_max_u64(s),
    decreases s.len(),
{
    if s.len() > 1 && i < s.len() - 1 {
        lemma_seq_max_ge(s.drop_last(), i);
    }
}

/// A lower bound on all elements bounds the minimum.
pub proof fn lemma_seq_min_ge(s: Seq<u64>, lo: u64)
    requires
        s.len() > 0,
        forall|i: int| 0 <= i < s.len() ==> lo <= #[trigger] s[i],
    ensures
        lo <= seq_min_u64(s),
    decreases s.len(),
{
    if s.len() > 1 {
        lemma_seq_min_ge(s.drop_last(), lo);
    }
}

/// An upper bound on all elements bounds the maximum.
pub proof fn lemma_seq_max_le(s: Seq<u64>, hi: u64)
    requires
        s.len() > 0,
        forall|i: int| 0 <= i < s.len() ==> #[trigger] s[i] <= hi,
    ensures
        seq_max_u64(s) <= hi,
    decreases s.len(),
{
    if s.len() > 1 {
        lemma_seq_max_le(s.drop_last(), hi);
    }
}

} // verus!
