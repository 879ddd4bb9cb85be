//! Enumeration of length compositions: ordered tuples of word lengths drawn
//! from `[min_word_len, max_word_len]` that sum to the target phrase length.
//!
//! A width-`k` [`Generator`] walks a `k`-digit odometer over the length range
//! and yields every tuple whose sum hits the target.  The
//! [`CombinationGenerator`] round-robins one generator per admissible width
//! and suppresses tuples whose sorted (canonical) form was already emitted,
//! so that each admissible multiset of lengths appears exactly once.

use crate::support::{lemma_usize_leq_total, sort_usize_vec, usize_leq};
use std::collections::VecDeque;
use vstd::prelude::*;
use vstd::relations::sorted_by;
use vstd::seq_lib::lemma_sorted_unique;

verus! {

/// The sum of a sequence of word lengths.
pub open spec fn seq_sum(s: Seq<usize>) -> int
    decreases s.len(),
{
    if s.len() == 0 {
        0
    } else {
        s[0] + seq_sum(s.drop_first())
    }
}

/// Every element of `s` lies in `[lo, hi]`.
pub open spec fn tuple_in_range(s: Seq<usize>, lo: usize, hi: usize) -> bool {
    forall|i: int| 0 <= i < s.len() ==> lo <= #[trigger] s[i] <= hi
}

/// `s` is a legal length tuple: elements within bounds, summing to `target`.
pub open spec fn tuple_fits(s: Seq<usize>, lo: usize, hi: usize, target: usize) -> bool {
    tuple_in_range(s, lo, hi) && seq_sum(s) == target
}

/// The tuple of width `k` holding `lo` at every position: the odometer's
/// starting point.
pub open spec fn lowest_tuple(k: nat, lo: usize) -> Seq<usize> {
    Seq::new(k, |i: int| lo)
}

/// Position of the odometer within its cycle, read as a little-endian number
/// in base `base` whose digits are `s[i] - 1`.
pub open spec fn odo_value(s: Seq<usize>, base: usize) -> int
    decreases s.len(),
{
    if s.len() == 0 {
        0
    } else {
        (s[0] - 1) + base * odo_value(s.drop_first(), base)
    }
}

/// Number of increments the odometer can still perform before wrapping.
pub open spec fn odo_remaining(s: Seq<usize>, base: usize) -> int
    decreases s.len(),
{
    if s.len() == 0 {
        0
    } else {
        (base - s[0]) + base * odo_remaining(s.drop_first(), base)
    }
}

proof fn lemma_odo_value_nonneg(s: Seq<usize>, base: usize)
    requires
        tuple_in_range(s, 1, base),
    ensures
        odo_value(s, base) >= 0,
    decreases s.len(),
{
    if s.len() > 0 {
        assert(tuple_in_range(s.drop_first(), 1, base)) by {
            assert(forall|i: int|
                0 <= i < s.drop_first().len() ==> s.drop_first()[i] == s[i + 1]);
        }
        lemma_odo_value_nonneg(s.drop_first(), base);
        assert(base * odo_value(s.drop_first(), base) >= 0) by (nonlinear_arith)
            requires
                base >= 0,
                odo_value(s.drop_first(), base) >= 0,
        ;
    }
}

proof fn lemma_odo_remaining_nonneg(s: Seq<usize>, base: usize)
    requires
        tuple_in_range(s, 1, base),
    ensures
        odo_remaining(s, base) >= 0,
    decreases s.len(),
{
    if s.len() > 0 {
        assert(tuple_in_range(s.drop_first(), 1, base)) by {
            assert(forall|i: int|
                0 <= i < s.drop_first().len() ==> s.drop_first()[i] == s[i + 1]);
        }
        lemma_odo_remaining_nonneg(s.drop_first(), base);
        assert(base * odo_remaining(s.drop_first(), base) >= 0) by (nonlinear_arith)
            requires
                base >= 0,
                odo_remaining(s.drop_first(), base) >= 0,
        ;
    }
}

/// Value and remaining count always add to the same total for a given width,
/// so stepping the value down ticks the remaining count up and conversely.
proof fn lemma_odo_value_remaining_const(s: Seq<usize>, t: Seq<usize>, base: usize)
    requires
        s.len() == t.len(),
    ensures
        odo_value(s, base) + odo_remaining(s, base) == odo_value(t, base) + odo_remaining(t, base),
    decreases s.len(),
{
    if s.len() > 0 {
        lemma_odo_value_remaining_const(s.drop_first(), t.drop_first(), base);
        assert(base * odo_value(s.drop_first(), base) + base * odo_remaining(s.drop_first(), base)
            == base * odo_value(t.drop_first(), base) + base * odo_remaining(
            t.drop_first(),
            base,
        )) by (nonlinear_arith)
            requires
                odo_value(s.drop_first(), base) + odo_remaining(s.drop_first(), base) == odo_value(
                    t.drop_first(),
                    base,
                ) + odo_remaining(t.drop_first(), base),
        ;
    }
}

/// A successful carry (positions below `i` reset from `base` to 1, position
/// `i` incremented, the rest untouched) raises the odometer value by exactly
/// one.
proof fn lemma_odo_carry(s: Seq<usize>, t: Seq<usize>, i: int, base: usize)
    requires
        s.len() == t.len(),
        0 <= i < s.len(),
        forall|j: int| 0 <= j < i ==> #[trigger] s[j] == base,
        forall|j: int| 0 <= j < i ==> #[trigger] t[j] == 1,
        s[i] < base,
        t[i] == s[i] + 1,
        forall|j: int| i < j < s.len() ==> #[trigger] t[j] == s[j],
    ensures
        odo_value(t, base) == odo_value(s, base) + 1,
    decreases i,
{
    if i == 0 {
        assert(t.drop_first() =~= s.drop_first());
    } else {
        let sd = s.drop_first();
        let td = t.drop_first();
        assert forall|j: int| 0 <= j < i - 1 implies #[trigger] sd[j] == base by {
            assert(sd[j] == s[j + 1]);
            assert(s[j + 1] == base);
        }
        assert forall|j: int| 0 <= j < i - 1 implies #[trigger] td[j] == 1 by {
            assert(td[j] == t[j + 1]);
            assert(t[j + 1] == 1);
        }
        assert(sd[i - 1] == s[i as int] && td[i - 1] == t[i as int]);
        assert forall|j: int| i - 1 < j < sd.len() implies #[trigger] td[j] == sd[j] by {
            assert(td[j] == t[j + 1] && sd[j] == s[j + 1]);
        }
        lemma_odo_carry(sd, td, i - 1, base);
        assert(s[0] == base && t[0] == 1);
        assert(base * odo_value(td, base) == base * odo_value(sd, base) + base)
            by (nonlinear_arith)
            requires
                odo_value(td, base) == odo_value(sd, base) + 1,
        ;
    }
}

/// Two in-range odometer states of the same width with the same value are the
/// same state.
proof fn lemma_odo_value_injective(s: Seq<usize>, t: Seq<usize>, base: usize)
    requires
        s.len() == t.len(),
        tuple_in_range(s, 1, base),
        tuple_in_range(t, 1, base),
        odo_value(s, base) == odo_value(t, base),
    ensures
        s =~= t,
    decreases s.len(),
{
    if s.len() > 0 {
        let sd = s.drop_first();
        let td = t.drop_first();
        assert forall|j: int| 0 <= j < sd.len() implies 1 <= #[trigger] sd[j] <= base by {
            assert(sd[j] == s[j + 1]);
        }
        assert forall|j: int| 0 <= j < td.len() implies 1 <= #[trigger] td[j] <= base by {
            assert(td[j] == t[j + 1]);
        }
        lemma_odo_value_nonneg(sd, base);
        lemma_odo_value_nonneg(td, base);
        assert(odo_value(sd, base) == odo_value(td, base) && s[0] == t[0]) by (nonlinear_arith)
            requires
                (s[0] - 1) + base * odo_value(sd, base) == (t[0] - 1) + base * odo_value(td, base),
                1 <= s[0] <= base,
                1 <= t[0] <= base,
                odo_value(sd, base) >= 0,
                odo_value(td, base) >= 0,
        ;
        lemma_odo_value_injective(sd, td, base);
        assert forall|j: int| 0 <= j < s.len() implies #[trigger] s[j] == t[j] by {
            if j > 0 {
                assert(s[j] == sd[j - 1] && t[j] == td[j - 1]);
            }
        }
        assert(s =~= t);
    } else {
        assert(s =~= t);
    }
}

/// Raising digits pointwise never lowers the value, and raising any digit
/// strictly raises it.
proof fn lemma_odo_value_monotone(s: Seq<usize>, t: Seq<usize>, base: usize)
    requires
        s.len() == t.len(),
        tuple_in_range(s, 1, base),
        tuple_in_range(t, 1, base),
        forall|i: int| 0 <= i < s.len() ==> #[trigger] s[i] <= t[i],
    ensures
        odo_value(s, base) <= odo_value(t, base),
        s != t ==> odo_value(s, base) < odo_value(t, base),
    decreases s.len(),
{
    if s.len() > 0 {
        let sd = s.drop_first();
        let td = t.drop_first();
        assert forall|j: int| 0 <= j < sd.len() implies 1 <= #[trigger] sd[j] <= base by {
            assert(sd[j] == s[j + 1]);
        }
        assert forall|j: int| 0 <= j < td.len() implies 1 <= #[trigger] td[j] <= base by {
            assert(td[j] == t[j + 1]);
        }
        assert forall|j: int| 0 <= j < sd.len() implies #[trigger] sd[j] <= td[j] by {
            assert(sd[j] == s[j + 1] && td[j] == t[j + 1]);
            assert(s[j + 1] <= t[j + 1]);
        }
        lemma_odo_value_monotone(sd, td, base);
        assert(base * odo_value(sd, base) <= base * odo_value(td, base)) by (nonlinear_arith)
            requires
                odo_value(sd, base) <= odo_value(td, base),
                base >= 0,
        ;
        assert(s[0] <= t[0]);
        if sd != td {
            assert(odo_value(sd, base) < odo_value(td, base));
            assert(base * odo_value(sd, base) + base <= base * odo_value(td, base))
                by (nonlinear_arith)
                requires
                    odo_value(sd, base) < odo_value(td, base),
                    base >= 1,
            ;
        } else if s[0] == t[0] {
            assert forall|j: int| 0 <= j < s.len() implies #[trigger] s[j] == t[j] by {
                if j > 0 {
                    assert(s[j] == sd[j - 1] && t[j] == td[j - 1]);
                }
            }
            assert(s =~= t);
        } else {
            assert(s[0] < t[0]);
        }
    } else {
        assert(s =~= t);
    }
}

/// When every digit sits at `base`, no in-range state of the same width has a
/// larger value.
proof fn lemma_odo_value_top(s: Seq<usize>, t: Seq<usize>, base: usize)
    requires
        s.len() == t.len(),
        tuple_in_range(s, 1, base),
        tuple_in_range(t, 1, base),
        forall|j: int| 0 <= j < s.len() ==> #[trigger] s[j] == base,
    ensures
        odo_value(t, base) <= odo_value(s, base),
{
    lemma_odo_value_monotone(t, s, base);
}

/// The sum of an in-range tuple is at most `width * hi`.
proof fn lemma_seq_sum_upper(s: Seq<usize>, lo: usize, hi: usize)
    requires
        tuple_in_range(s, lo, hi),
    ensures
        seq_sum(s) <= s.len() * hi,
    decreases s.len(),
{
    if s.len() > 0 {
        let sd = s.drop_first();
        assert(forall|j: int| 0 <= j < sd.len() ==> #[trigger] sd[j] == s[j + 1]);
        lemma_seq_sum_upper(sd, lo, hi);
        assert(s[0] + sd.len() * hi <= s.len() * hi) by (nonlinear_arith)
            requires
                s[0] <= hi,
                sd.len() == s.len() - 1,
        ;
    }
}

/// A width-`k` odometer over word lengths: holds the configuration and the
/// current state vector, and yields each state whose sum is the target.
pub struct Generator {
    target_len: usize,
    min_word_len: usize,
    max_word_len: usize,
    state: Vec<usize>,
}

impl Generator {
    /// The target sum this generator filters for.
    pub closed spec fn spec_target(self) -> usize {
        self.target_len
    }

    /// The smallest admissible word length.
    pub closed spec fn spec_min(self) -> usize {
        self.min_word_len
    }

    /// The largest admissible word length; the odometer's base.
    pub closed spec fn spec_max(self) -> usize {
        self.max_word_len
    }

    /// The current odometer state.
    pub closed spec fn spec_state(self) -> Seq<usize> {
        self.state@
    }

    /// Structural invariant: sane bounds, state digits within the odometer
    /// range, and a width small enough that sums cannot overflow.
    pub closed spec fn wf(self) -> bool {
        &&& 1 <= self.min_word_len <= self.max_word_len
        &&& tuple_in_range(self.state@, 1, self.max_word_len)
        &&& self.state@.len() * self.max_word_len <= usize::MAX
    }

    pub fn new(target_len: usize, min_word_len: usize, max_word_len: usize, max_words: usize) -> (g:
        Generator)
        requires
            1 <= min_word_len <= max_word_len,
            max_words * max_word_len <= usize::MAX,
        ensures
            g.wf(),
            g.spec_target() == target_len,
            g.spec_min() == min_word_len,
            g.spec_max() == max_word_len,
            g.spec_state() =~= lowest_tuple(max_words as nat, min_word_len),
    {
        let state = vec![min_word_len; max_words];
        Generator { target_len, min_word_len, max_word_len, state }
    }

    /// Whether the current state is a legal length tuple for the target.
    fn is_valid(&self) -> (r: bool)
        requires
            self.wf(),
        ensures
            r == tuple_fits(self.spec_state(), self.spec_min(), self.spec_max(), self.spec_target()),
    {
        let mut sum: usize = 0;
        let mut i: usize = 0;
        let ghost s = self.state@;
        while i < self.state.len()
            invariant
                0 <= i <= s.len(),
                self.wf(),
                s == self.state@,
                sum == seq_sum(s.take(i as int)),
                sum <= i * self.max_word_len,
            decreases s.len() - i,
        {
            proof {
                assert(s.take(i + 1).drop_last() =~= s.take(i as int));
                lemma_seq_sum_snoc(s.take(i + 1));
                assert((i + 1) * self.max_word_len == i * self.max_word_len + self.max_word_len)
                    by (nonlinear_arith);
                assert(s.len() * self.max_word_len <= usize::MAX);
                assert(i < s.len());
                assert((i + 1) * self.max_word_len <= s.len() * self.max_word_len)
                    by (nonlinear_arith)
                    requires
                        i + 1 <= s.len(),
                        self.max_word_len >= 0,
                ;
            }
            sum = sum + self.state[i];
            i = i + 1;
        }
        proof {
            assert(s.take(s.len() as int) =~= s);
        }
        if sum != self.target_len {
            return false;
        }
        let mut j: usize = 0;
        let mut in_range: bool = true;
        while j < self.state.len()
            invariant
                0 <= j <= s.len(),
                self.wf(),
                s == self.state@,
                in_range == tuple_in_range(s.take(j as int), self.min_word_len, self.max_word_len),
            decreases s.len() - j,
        {
            let v = self.state[j];
            if v > self.max_word_len || v < self.min_word_len {
                in_range = false;
            }
            proof {
                let tj = s.take(j + 1);
                assert(forall|p: int| 0 <= p < j ==> tj[p] == #[trigger] s.take(j as int)[p]);
                assert(tj[j as int] == v);
            }
            j = j + 1;
        }
        proof {
            assert(s.take(s.len() as int) =~= s);
        }
        in_range
    }

    /// Advance the odometer by one position; `Err` means the cycle is
    /// complete and the state has been cleared.
    fn increment(&mut self) -> (r: Result<(), ()>)
        requires
            old(self).wf(),
        ensures
            final(self).wf(),
            final(self).spec_target() == old(self).spec_target(),
            final(self).spec_min() == old(self).spec_min(),
            final(self).spec_max() == old(self).spec_max(),
            match r {
                Ok(()) => {
                    &&& final(self).spec_state().len() == old(self).spec_state().len()
                    &&& odo_value(final(self).spec_state(), final(self).spec_max()) == odo_value(
                        old(self).spec_state(),
                        old(self).spec_max(),
                    ) + 1
                },
                Err(()) => {
                    &&& final(self).spec_state().len() == 0
                    &&& forall|t: Seq<usize>|
                        t.len() == old(self).spec_state().len() && tuple_in_range(
                            t,
                            1,
                            old(self).spec_max(),
                        ) ==> odo_value(t, old(self).spec_max()) <= odo_value(
                            old(self).spec_state(),
                            old(self).spec_max(),
                        )
                },
            },
    {
        let ghost s0 = self.state@;
        let base = self.max_word_len;
        let mut i: usize = 0;
        while i < self.state.len()
            invariant
                0 <= i <= s0.len(),
                s0 == old(self).spec_state(),
                self.state@.len() == s0.len(),
                self.min_word_len == old(self).spec_min(),
                self.max_word_len == old(self).spec_max(),
                self.target_len == old(self).spec_target(),
                base == self.max_word_len,
                1 <= self.min_word_len <= self.max_word_len,
                s0.len() * self.max_word_len <= usize::MAX,
                tuple_in_range(s0, 1, base),
                forall|j: int| 0 <= j < i ==> #[trigger] s0[j] == base,
                forall|j: int| 0 <= j < i ==> #[trigger] self.state@[j] == 1,
                forall|j: int| i <= j < s0.len() ==> #[trigger] self.state@[j] == s0[j],
            decreases s0.len() - i,
        {
            if self.state[i] < base {
                let ghost pre = self.state@;
                self.state[i] = self.state[i] + 1;
                proof {
                    let snew = self.state@;
                    assert forall|j: int| 0 <= j < i implies #[trigger] snew[j] == 1 by {
                        assert(pre[j] == 1);
                    }
                    assert forall|j: int| i < j < s0.len() implies #[trigger] snew[j] == s0[j] by {
                        assert(pre[j] == s0[j]);
                    }
                    assert(pre[i as int] == s0[i as int]);
                    assert(snew[i as int] == s0[i as int] + 1);
                    lemma_odo_carry(s0, snew, i as int, base);
                    assert forall|j: int| 0 <= j < snew.len() implies 1 <= #[trigger] snew[j]
                        <= base by {
                        if j < i {
                            assert(snew[j] == 1);
                        } else if j == i {
                            assert(snew[j] == s0[i as int] + 1);
                            assert(1 <= s0[i as int] < base);
                        } else {
                            assert(snew[j] == s0[j]);
                            assert(1 <= s0[j] <= base);
                        }
                    }
                }
                return Ok(());
            } else {
                self.state[i] = 1;
            }
            i = i + 1;
        }
        proof {
            assert forall|t: Seq<usize>|
                t.len() == s0.len() && tuple_in_range(t, 1, base) implies odo_value(t, base)
                <= odo_value(s0, base) by {
                lemma_odo_value_top(s0, t, base);
            }
        }
        self.state = Vec::new();
        proof {
            assert(self.state@ =~= Seq::<usize>::empty());
            assert(self.state@.len() * self.max_word_len == 0) by (nonlinear_arith)
                requires
                    self.state@.len() == 0,
            ;
            assert(self.wf());
        }
        Err(())
    }

    /// Yield the next legal length tuple, or `None` when the odometer has
    /// wrapped.  Every in-range state strictly between the old and the new
    /// value is not a legal tuple, so each legal tuple past the starting
    /// state is yielded exactly once over the generator's life.
    pub fn next(&mut self) -> (r: Option<Vec<usize>>)
        requires
            old(self).wf(),
        ensures
            final(self).wf(),
            final(self).spec_target() == old(self).spec_target(),
            final(self).spec_min() == old(self).spec_min(),
            final(self).spec_max() == old(self).spec_max(),
            match r {
                Some(v) => {
                    &&& v@ == final(self).spec_state()
                    &&& v@.len() == old(self).spec_state().len()
                    &&& tuple_fits(v@, old(self).spec_min(), old(self).spec_max(), old(self).spec_target())
                    &&& odo_value(v@, old(self).spec_max()) > odo_value(
                        old(self).spec_state(),
                        old(self).spec_max(),
                    )
                    &&& odo_remaining(final(self).spec_state(), final(self).spec_max())
                        < odo_remaining(old(self).spec_state(), old(self).spec_max())
                    &&& forall|t: Seq<usize>|
                        t.len() == old(self).spec_state().len() && tuple_in_range(
                            t,
                            1,
                            old(self).spec_max(),
                        ) && odo_value(old(self).spec_state(), old(self).spec_max()) < odo_value(
                            t,
                            old(self).spec_max(),
                        ) < odo_value(v@, old(self).spec_max()) ==> !tuple_fits(
                            t,
                            old(self).spec_min(),
                            old(self).spec_max(),
                            old(self).spec_target(),
                        )
                },
                None => {
                    &&& final(self).spec_state().len() == 0
                    &&& forall|t: Seq<usize>|
                        t.len() == old(self).spec_state().len() && tuple_in_range(
                            t,
                            1,
                            old(self).spec_max(),
                        ) && odo_value(t, old(self).spec_max()) > odo_value(
                            old(self).spec_state(),
                            old(self).spec_max(),
                        ) ==> !tuple_fits(
                            t,
                            old(self).spec_min(),
                            old(self).spec_max(),
                            old(self).spec_target(),
                        )
                },
            },
    {
        let ghost s0 = old(self).spec_state();
        let ghost base = old(self).spec_max();
        loop
            invariant
                self.wf(),
                s0 == old(self).spec_state(),
                base == old(self).spec_max(),
                self.spec_target() == old(self).spec_target(),
                self.spec_min() == old(self).spec_min(),
                self.spec_max() == old(self).spec_max(),
                self.spec_state().len() == s0.len(),
                odo_value(self.spec_state(), base) >= odo_value(s0, base),
                odo_remaining(self.spec_state(), base) <= odo_remaining(s0, base),
                base == self.spec_max(),
                forall|t: Seq<usize>|
                    t.len() == s0.len() && tuple_in_range(t, 1, base) && odo_value(s0, base)
                        < odo_value(t, base) <= odo_value(self.spec_state(), base) ==> !tuple_fits(
                        t,
                        self.spec_min(),
                        self.spec_max(),
                        self.spec_target(),
                    ),
            decreases odo_remaining(self.spec_state(), base),
        {
            let ghost before = self.spec_state();
            proof {
                lemma_odo_remaining_nonneg(before, self.spec_max());
            }
            let stepped = self.increment();
            if stepped.is_err() {
                proof {
                    assert forall|t: Seq<usize>|
                        t.len() == s0.len() && tuple_in_range(t, 1, base) && odo_value(t, base)
                            > odo_value(s0, base) implies !tuple_fits(
                        t,
                        self.spec_min(),
                        self.spec_max(),
                        self.spec_target(),
                    ) by {
                        assert(odo_value(t, base) <= odo_value(before, base));
                    }
                }
                return None;
            }
            proof {
                lemma_odo_value_remaining_const(self.spec_state(), before, base);
                lemma_odo_remaining_nonneg(self.spec_state(), base);
            }
            if self.is_valid() {
                let out = self.clone_state();
                proof {
                    assert forall|t: Seq<usize>|
                        t.len() == s0.len() && tuple_in_range(t, 1, base) && odo_value(s0, base)
                            < odo_value(t, base) < odo_value(self.spec_state(), base)
                        implies !tuple_fits(
                        t,
                        self.spec_min(),
                        self.spec_max(),
                        self.spec_target(),
                    ) by {
                        if odo_value(t, base) == odo_value(before, base) {
                            lemma_odo_value_injective(t, before, base);
                        }
                    }
                }
                return Some(out);
            }
            proof {
                assert forall|t: Seq<usize>|
                    t.len() == s0.len() && tuple_in_range(t, 1, base) && odo_value(s0, base)
                        < odo_value(t, base) <= odo_value(self.spec_state(), base)
                    implies !tuple_fits(t, self.spec_min(), self.spec_max(), self.spec_target()) by {
                    if odo_value(t, base) == odo_value(self.spec_state(), base) {
                        lemma_odo_value_injective(t, self.spec_state(), base);
                    }
                }
            }
        }
    }

    /// A copy of the current state vector.
    fn clone_state(&self) -> (r: Vec<usize>)
        ensures
            r@ == self.spec_state(),
    {
        let mut r: Vec<usize> = Vec::new();
        let mut i: usize = 0;
        while i < self.state.len()
            invariant
                0 <= i <= self.state@.len(),
                r@ =~= self.state@.take(i as int),
            decreases self.state@.len() - i,
        {
            r.push(self.state[i]);
            i = i + 1;
        }
        proof {
            assert(self.state@.take(self.state@.len() as int) =~= self.state@);
        }
        r
    }
}

/// `seq_sum` measured from the back: splitting off the last element.
pub proof fn lemma_seq_sum_snoc(s: Seq<usize>)
    requires
        s.len() > 0,
    ensures
        seq_sum(s) == seq_sum(s.drop_last()) + s.last(),
    decreases s.len(),
{
    if s.len() == 1 {
        assert(s.drop_first() =~= Seq::<usize>::empty());
        assert(s.drop_last() =~= Seq::<usize>::empty());
        assert(seq_sum(s) == s[0] + seq_sum(s.drop_first()));
    } else {
        assert(s.drop_first().drop_last() =~= s.drop_last().drop_first());
        lemma_seq_sum_snoc(s.drop_first());
        assert(seq_sum(s) == s[0] + seq_sum(s.drop_first()));
        assert(seq_sum(s.drop_last()) == s.drop_last()[0] + seq_sum(s.drop_last().drop_first()));
        assert(s.drop_last()[0] == s[0]);
        assert(s.drop_first().last() == s.last());
    }
}


/// The configuration a composer was built with, kept alongside the executable
/// state for specification purposes.
pub struct SearchBounds {
    pub min_word_len: usize,
    pub max_word_len: usize,
    pub target_len: usize,
    pub max_words: usize,
}

/// The configuration invariant: word lengths are positive and ordered, at
/// least one word is allowed, and sums over tuples cannot overflow.
pub open spec fn bounds_ok(b: SearchBounds) -> bool {
    &&& 1 <= b.min_word_len <= b.max_word_len
    &&& 1 <= b.max_words
    &&& b.max_words * b.max_word_len <= usize::MAX
}

/// The canonical (sorted) form of a length tuple.
pub open spec fn canon_of(w: Seq<usize>) -> Seq<usize> {
    w.sort_by(usize_leq())
}

/// `s` is a canonical length tuple for the configuration `b`: sorted, of an
/// admissible width, within the length bounds, and summing to the target.
pub open spec fn canonical_tuple(s: Seq<usize>, b: SearchBounds) -> bool {
    &&& sorted_by(s, usize_leq())
    &&& 1 <= s.len() <= b.max_words
    &&& tuple_fits(s, b.min_word_len, b.max_word_len, b.target_len)
}

/// A sorted sequence with the same multiset as `w` is `w`'s canonical form.
proof fn lemma_canon_unique(a: Seq<usize>, w: Seq<usize>)
    requires
        sorted_by(a, usize_leq()),
        a.to_multiset() == w.to_multiset(),
    ensures
        a =~= canon_of(w),
{
    w.lemma_sort_by_ensures(usize_leq());
    lemma_usize_leq_total();
    lemma_sorted_unique(a, canon_of(w), usize_leq());
}

/// Removing one element takes its value out of the sum.
proof fn lemma_seq_sum_remove(s: Seq<usize>, j: int)
    requires
        0 <= j < s.len(),
    ensures
        seq_sum(s) == s[j] + seq_sum(s.remove(j)),
    decreases j,
{
    if j == 0 {
        assert(s.remove(0) =~= s.drop_first());
    } else {
        let sd = s.drop_first();
        lemma_seq_sum_remove(sd, j - 1);
        assert(s.remove(j).drop_first() =~= sd.remove(j - 1));
        assert(seq_sum(s.remove(j)) == s.remove(j)[0] + seq_sum(s.remove(j).drop_first()));
        assert(s.remove(j)[0] == s[0]);
        assert(sd[j - 1] == s[j]);
    }
}

/// Sequences holding the same multiset of lengths have the same sum.
proof fn lemma_seq_sum_multiset(a: Seq<usize>, b: Seq<usize>)
    requires
        a.to_multiset() == b.to_multiset(),
    ensures
        seq_sum(a) == seq_sum(b),
    decreases a.len(),
{
    broadcast use vstd::seq_lib::group_to_multiset_ensures;

    a.to_multiset_ensures();
    b.to_multiset_ensures();
    if a.len() == 0 {
        assert(b.len() == 0);
    } else {
        let x = a[0];
        assert(a.contains(x));
        assert(a.to_multiset().count(x) > 0);
        assert(b.contains(x));
        let j = choose|j: int| 0 <= j < b.len() && b[j] == x;
        lemma_seq_sum_remove(b, j);
        assert(a.drop_first() =~= a.remove(0));
        assert(a.remove(0).to_multiset() =~= a.to_multiset().remove(x));
        assert(b.remove(j).to_multiset() =~= b.to_multiset().remove(x));
        lemma_seq_sum_multiset(a.drop_first(), b.remove(j));
    }
}

/// Range membership carries across equal multisets.
proof fn lemma_in_range_multiset(a: Seq<usize>, b: Seq<usize>, lo: usize, hi: usize)
    requires
        a.to_multiset() == b.to_multiset(),
        tuple_in_range(a, lo, hi),
    ensures
        tuple_in_range(b, lo, hi),
{
    broadcast use vstd::seq_lib::group_to_multiset_ensures;

    assert forall|i: int| 0 <= i < b.len() implies lo <= #[trigger] b[i] <= hi by {
        assert(b.contains(b[i]));
        assert(b.to_multiset().count(b[i]) > 0);
        assert(a.contains(b[i]));
        let j = choose|j: int| 0 <= j < a.len() && a[j] == b[i];
        assert(lo <= a[j] <= hi);
    }
}

/// A legal tuple remains legal in canonical form, and its width is kept.
proof fn lemma_canon_fits(w: Seq<usize>, b: SearchBounds)
    requires
        tuple_fits(w, b.min_word_len, b.max_word_len, b.target_len),
        1 <= w.len() <= b.max_words,
    ensures
        canonical_tuple(canon_of(w), b),
        canon_of(w).len() == w.len(),
{
    w.lemma_sort_by_ensures(usize_leq());
    broadcast use vstd::seq_lib::group_to_multiset_ensures;

    w.to_multiset_ensures();
    canon_of(w).to_multiset_ensures();
    assert(canon_of(w).len() == w.len());
    lemma_in_range_multiset(w, canon_of(w), b.min_word_len, b.max_word_len);
    lemma_seq_sum_multiset(w, canon_of(w));
}

/// `w` still lies ahead of a live generator of its width.
spec fn pending_in(gens: Seq<Generator>, w: Seq<usize>, b: SearchBounds) -> bool {
    exists|gi: int|
        0 <= gi < gens.len() && (#[trigger] gens[gi]).spec_state().len() == w.len() && odo_value(
            w,
            b.max_word_len,
        ) > odo_value(gens[gi].spec_state(), b.max_word_len)
}

/// A generator that belongs to the composer built over `b`.
spec fn gen_ok(g: Generator, b: SearchBounds) -> bool {
    &&& g.wf()
    &&& g.spec_min() == b.min_word_len
    &&& g.spec_max() == b.max_word_len
    &&& g.spec_target() == b.target_len
    &&& 1 <= g.spec_state().len() <= b.max_words
}

/// Total number of steps the queued generators can still take; the composer's
/// termination measure.
spec fn deque_measure(gens: Seq<Generator>, base: usize) -> int
    decreases gens.len(),
{
    if gens.len() == 0 {
        0
    } else {
        odo_remaining(gens[0].spec_state(), base) + 1 + deque_measure(gens.drop_first(), base)
    }
}

proof fn lemma_deque_measure_push(gens: Seq<Generator>, g: Generator, base: usize)
    ensures
        deque_measure(gens.push(g), base) == deque_measure(gens, base) + odo_remaining(
            g.spec_state(),
            base,
        ) + 1,
    decreases gens.len(),
{
    let p = gens.push(g);
    if gens.len() == 0 {
        assert(p[0] == g);
        assert(p.drop_first() =~= Seq::<Generator>::empty());
        assert(deque_measure(p, base) == odo_remaining(p[0].spec_state(), base) + 1
            + deque_measure(p.drop_first(), base));
        assert(deque_measure(Seq::<Generator>::empty(), base) == 0);
        assert(deque_measure(gens, base) == 0);
    } else {
        assert(p.drop_first() =~= gens.drop_first().push(g));
        assert(p[0] == gens[0]);
        lemma_deque_measure_push(gens.drop_first(), g, base);
        assert(deque_measure(p, base) == odo_remaining(p[0].spec_state(), base) + 1
            + deque_measure(p.drop_first(), base));
        assert(deque_measure(gens, base) == odo_remaining(gens[0].spec_state(), base) + 1
            + deque_measure(gens.drop_first(), base));
    }
}

proof fn lemma_deque_measure_nonneg(gens: Seq<Generator>, base: usize)
    requires
        forall|gi: int|
            0 <= gi < gens.len() ==> tuple_in_range((#[trigger] gens[gi]).spec_state(), 1, base),
    ensures
        deque_measure(gens, base) >= 0,
    decreases gens.len(),
{
    if gens.len() > 0 {
        lemma_odo_remaining_nonneg(gens[0].spec_state(), base);
        assert forall|gi: int|
            0 <= gi < gens.drop_first().len() implies tuple_in_range(
            (#[trigger] gens.drop_first()[gi]).spec_state(),
            1,
            base,
        ) by {
            assert(gens.drop_first()[gi] == gens[gi + 1]);
        }
        lemma_deque_measure_nonneg(gens.drop_first(), base);
    }
}

/// Element-wise equality of two length tuples.
fn tuple_eq(a: &Vec<usize>, b: &Vec<usize>) -> (r: bool)
    ensures
        r == (a@ == b@),
{
    if a.len() != b.len() {
        assert(a@.len() != b@.len());
        return false;
    }
    let mut i: usize = 0;
    while i < a.len()
        invariant
            0 <= i <= a@.len(),
            a@.len() == b@.len(),
            forall|j: int| 0 <= j < i ==> a@[j] == #[trigger] b@[j],
        decreases a@.len() - i,
    {
        if a[i] != b[i] {
            return false;
        }
        i = i + 1;
    }
    proof {
        assert(a@ =~= b@);
    }
    true
}

/// Whether `c` already occurs among the emitted canonical tuples.
fn tuple_list_contains(list: &Vec<Vec<usize>>, c: &Vec<usize>) -> (r: bool)
    ensures
        r == exists|i: int| 0 <= i < list@.len() && (#[trigger] list@[i])@ == c@,
{
    let mut i: usize = 0;
    while i < list.len()
        invariant
            0 <= i <= list@.len(),
            forall|j: int| 0 <= j < i ==> (#[trigger] list@[j])@ != c@,
        decreases list@.len() - i,
    {
        if tuple_eq(&list[i], c) {
            return true;
        }
        i = i + 1;
    }
    false
}

/// A copy of a length tuple.
fn tuple_clone(v: &Vec<usize>) -> (r: Vec<usize>)
    ensures
        r@ == v@,
{
    let mut r: Vec<usize> = Vec::new();
    let mut i: usize = 0;
    while i < v.len()
        invariant
            0 <= i <= v@.len(),
            r@ =~= v@.take(i as int),
        decreases v@.len() - i,
    {
        r.push(v[i]);
        i = i + 1;
    }
    proof {
        assert(v@.take(v@.len() as int) =~= v@);
    }
    r
}

/// The length composer: one odometer per admissible width, round-robined,
/// with canonical-form deduplication.
pub struct CombinationGenerator {
    generators: VecDeque<Generator>,
    seen_combinations: Vec<Vec<usize>>,
    bounds: Ghost<SearchBounds>,
}

impl CombinationGenerator {
    /// The configuration this composer searches under.
    pub closed spec fn spec_bounds(self) -> SearchBounds {
        self.bounds@
    }

    /// The canonical tuples emitted so far, in emission order.
    pub closed spec fn emitted(self) -> Seq<Seq<usize>> {
        self.seen_combinations@.map_values(|v: Vec<usize>| v@)
    }

    /// Steps the queued generators can still take; strictly decreases with
    /// each emission, so pulling the composer to exhaustion terminates.
    pub closed spec fn measure(self) -> int {
        deque_measure(self.generators@, self.bounds@.max_word_len)
    }

    /// The composer's invariant.  Beyond structural well-formedness it says:
    /// everything emitted is a canonical tuple, no tuple is emitted twice,
    /// and every legal tuple other than the all-minimum one is either still
    /// ahead of a live generator or already covered by an emitted canonical
    /// form.
    pub closed spec fn wf(self) -> bool {
        let b = self.bounds@;
        &&& bounds_ok(b)
        &&& forall|gi: int|
            0 <= gi < self.generators@.len() ==> gen_ok(#[trigger] self.generators@[gi], b)
        &&& forall|gi: int, gj: int|
            0 <= gi < gj < self.generators@.len() ==> (#[trigger] self.generators@[gi]).spec_state().len()
                != (#[trigger] self.generators@[gj]).spec_state().len()
        &&& forall|i: int|
            0 <= i < self.emitted().len() ==> canonical_tuple(#[trigger] self.emitted()[i], b)
        &&& self.emitted().no_duplicates()
        &&& forall|w: Seq<usize>|
            #![trigger canon_of(w)]
            tuple_fits(w, b.min_word_len, b.max_word_len, b.target_len) && 1 <= w.len()
                <= b.max_words && w != lowest_tuple(w.len(), b.min_word_len) && !pending_in(
                self.generators@,
                w,
                b,
            ) ==> self.emitted().contains(canon_of(w))
    }

    pub fn new(target_len: usize, min_word_len: usize, max_word_len: usize, max_words: usize) -> (g:
        CombinationGenerator)
        requires
            1 <= min_word_len <= max_word_len,
            1 <= max_words,
            max_words * max_word_len <= usize::MAX,
        ensures
            g.wf(),
            g.spec_bounds() == (SearchBounds { min_word_len, max_word_len, target_len, max_words }),
            g.emitted() =~= Seq::<Seq<usize>>::empty(),
            g.measure() >= 0,
    {
        let ghost b = SearchBounds { min_word_len, max_word_len, target_len, max_words };
        let mut generators: VecDeque<Generator> = VecDeque::new();
        let mut kprev: usize = 0;
        while kprev < max_words
            invariant
                0 <= kprev <= max_words,
                1 <= min_word_len <= max_word_len,
                max_words * max_word_len <= usize::MAX,
                b == (SearchBounds { min_word_len, max_word_len, target_len, max_words }),
                forall|gi: int|
                    0 <= gi < generators@.len() ==> gen_ok(#[trigger] generators@[gi], b),
                forall|gi: int|
                    0 <= gi < generators@.len() ==> (#[trigger] generators@[gi]).spec_state()
                        =~= lowest_tuple(generators@[gi].spec_state().len(), min_word_len),
                forall|gi: int|
                    0 <= gi < generators@.len() ==> 1 <= (#[trigger] generators@[gi]).spec_state().len()
                        <= kprev,
                forall|gi: int, gj: int|
                    0 <= gi < gj < generators@.len() ==> (#[trigger] generators@[gi]).spec_state().len()
                        != (#[trigger] generators@[gj]).spec_state().len(),
                forall|w: int|
                    #![trigger w * max_word_len]
                    1 <= w <= kprev && w * max_word_len >= target_len ==> exists|gi: int|
                        0 <= gi < generators@.len() && (#[trigger] generators@[gi]).spec_state().len()
                            == w,
            decreases max_words - kprev,
        {
            let k = kprev + 1;
            proof {
                assert(k * max_word_len <= max_words * max_word_len) by (nonlinear_arith)
                    requires
                        k <= max_words,
                        max_word_len >= 0,
                ;
            }
            if k * max_word_len >= target_len {
                let gen = Generator::new(target_len, min_word_len, max_word_len, k);
                let ghost before = generators@;
                generators.push_back(gen);
                proof {
                    assert(generators@ =~= before.push(gen));
                    assert(gen.spec_state() =~= lowest_tuple(k as nat, min_word_len));
                    assert(gen.spec_state().len() == k);
                    assert forall|gi: int|
                        0 <= gi < generators@.len() implies gen_ok(#[trigger] generators@[gi], b)
                        && generators@[gi].spec_state() =~= lowest_tuple(
                        generators@[gi].spec_state().len(),
                        min_word_len,
                    ) && 1 <= generators@[gi].spec_state().len() <= k by {
                        if gi < before.len() {
                            assert(generators@[gi] == before[gi]);
                        } else {
                            assert(generators@[gi] == gen);
                        }
                    }
                    assert forall|w: int|
                        #![trigger w * max_word_len]
                        1 <= w <= k && w * max_word_len >= target_len implies exists|gi: int|
                            0 <= gi < generators@.len() && (#[trigger] generators@[gi]).spec_state().len()
                                == w by {
                        if w <= kprev {
                            let gi = choose|gi: int|
                                0 <= gi < before.len() && (#[trigger] before[gi]).spec_state().len()
                                    == w;
                            assert(generators@[gi] == before[gi]);
                        } else {
                            assert(generators@[before.len() as int] == gen);
                        }
                    }
                }
            } else {
                proof {
                    assert forall|w: int|
                        #![trigger w * max_word_len]
                        1 <= w <= k && w * max_word_len >= target_len implies exists|gi: int|
                            0 <= gi < generators@.len() && (#[trigger] generators@[gi]).spec_state().len()
                                == w by {
                        assert(w <= kprev);
                    }
                }
            }
            kprev = k;
        }
        let result = CombinationGenerator {
            generators,
            seen_combinations: Vec::new(),
            bounds: Ghost(b),
        };
        proof {
            assert(result.emitted() =~= Seq::<Seq<usize>>::empty());
            assert forall|gi: int|
                0 <= gi < result.generators@.len() implies tuple_in_range(
                (#[trigger] result.generators@[gi]).spec_state(),
                1,
                b.max_word_len,
            ) by {
                assert(gen_ok(result.generators@[gi], b));
            }
            lemma_deque_measure_nonneg(result.generators@, b.max_word_len);
            assert forall|w: Seq<usize>|
                tuple_fits(w, b.min_word_len, b.max_word_len, b.target_len) && 1 <= w.len()
                    <= b.max_words && w != lowest_tuple(w.len(), b.min_word_len) && !pending_in(
                result.generators@,
                w,
                b,
            ) implies result.emitted().contains(#[trigger] canon_of(w)) by {
                lemma_seq_sum_upper(w, b.min_word_len, b.max_word_len);
                assert(w.len() * b.max_word_len >= b.target_len) by (nonlinear_arith)
                    requires
                        seq_sum(w) <= w.len() * b.max_word_len,
                        seq_sum(w) == b.target_len,
                ;
                let gi = choose|gi: int|
                    0 <= gi < result.generators@.len() && (#[trigger] result.generators@[gi]).spec_state().len()
                        == w.len();
                let g = result.generators@[gi];
                assert(g.spec_state() =~= lowest_tuple(w.len(), b.min_word_len));
                assert forall|j: int| 0 <= j < w.len() implies 1 <= #[trigger] w[j]
                    <= b.max_word_len by {}
                assert forall|j: int|
                    0 <= j < g.spec_state().len() implies #[trigger] g.spec_state()[j] <= w[j] by {
                    assert(g.spec_state()[j] == b.min_word_len);
                }
                lemma_odo_value_monotone(g.spec_state(), w, b.max_word_len);
                assert(g.spec_state() != w);
                assert(pending_in(result.generators@, w, b));
            }
        }
        result
    }

    /// Yield the next canonical length tuple, or `None` once every admissible
    /// tuple (except the all-minimum composition, which the odometer starts
    /// past) has been emitted.  Emitted tuples are canonical, pairwise
    /// distinct, and on exhaustion cover every admissible multiset of
    /// lengths: together these give the composer's soundness and
    /// completeness.
    pub fn next(&mut self) -> (r: Option<Vec<usize>>)
        requires
            old(self).wf(),
        ensures
            final(self).wf(),
            final(self).spec_bounds() == old(self).spec_bounds(),
            forall|i: int|
                0 <= i < final(self).emitted().len() ==> canonical_tuple(
                    #[trigger] final(self).emitted()[i],
                    old(self).spec_bounds(),
                ),
            final(self).emitted().no_duplicates(),
            match r {
                Some(c) => {
                    &&& canonical_tuple(c@, old(self).spec_bounds())
                    &&& !old(self).emitted().contains(c@)
                    &&& final(self).emitted() =~= old(self).emitted().push(c@)
                    &&& final(self).measure() < old(self).measure()
                    &&& final(self).measure() >= 0
                },
                None => {
                    &&& final(self).emitted() == old(self).emitted()
                    &&& forall|s: Seq<usize>|
                        canonical_tuple(s, old(self).spec_bounds()) && s != lowest_tuple(
                            s.len(),
                            old(self).spec_bounds().min_word_len,
                        ) ==> final(self).emitted().contains(s)
                },
            },
    {
        let ghost b = old(self).spec_bounds();
        loop
            invariant
                self.wf(),
                b == old(self).spec_bounds(),
                self.bounds@ == b,
                self.emitted() == old(self).emitted(),
                self.measure() <= old(self).measure(),
            decreases self.measure(),
        {
            proof {
                assert forall|gi: int|
                    0 <= gi < self.generators@.len() implies tuple_in_range(
                    (#[trigger] self.generators@[gi]).spec_state(),
                    1,
                    b.max_word_len,
                ) by {
                    assert(gen_ok(self.generators@[gi], b));
                }
                lemma_deque_measure_nonneg(self.generators@, b.max_word_len);
            }
            let ghost gens0 = self.generators@;
            let popped = self.generators.pop_front();
            match popped {
                None => {
                    proof {
                        assert forall|s: Seq<usize>|
                            canonical_tuple(s, b) && s != lowest_tuple(
                                s.len(),
                                b.min_word_len,
                            ) implies self.emitted().contains(s) by {
                            assert(!pending_in(self.generators@, s, b));
                            assert(self.emitted().contains(canon_of(s)));
                            lemma_canon_unique(s, s);
                        }
                    }
                    return None;
                },
                Some(mut g) => {
                    proof {
                        assert(gen_ok(g, b));
                    }
                    let ghost gstate0 = g.spec_state();
                    let ghost k = gstate0.len();
                    let stepped = g.next();
                    match stepped {
                        None => {
                            // `g` is exhausted: every tuple of its width that
                            // lay ahead of it is illegal, so dropping it
                            // keeps the coverage invariant.
                            proof {
                                assert forall|w: Seq<usize>|
                                    tuple_fits(w, b.min_word_len, b.max_word_len, b.target_len)
                                        && 1 <= w.len() <= b.max_words && w != lowest_tuple(
                                        w.len(),
                                        b.min_word_len,
                                    ) && !pending_in(self.generators@, w, b) implies self.emitted().contains(
                                    #[trigger] canon_of(w),
                                ) by {
                                    if pending_in(gens0, w, b) {
                                        let gi = choose|gi: int|
                                            0 <= gi < gens0.len() && (#[trigger] gens0[gi]).spec_state().len()
                                                == w.len() && odo_value(w, b.max_word_len)
                                                > odo_value(gens0[gi].spec_state(), b.max_word_len);
                                        if gi == 0 {
                                            assert(gens0[0].spec_state() == gstate0);
                                            assert(w.len() == k);
                                            assert(tuple_in_range(w, 1, b.max_word_len));
                                            assert(odo_value(w, b.max_word_len) > odo_value(
                                                gstate0,
                                                b.max_word_len,
                                            ));
                                            assert(!tuple_fits(
                                                w,
                                                b.min_word_len,
                                                b.max_word_len,
                                                b.target_len,
                                            ));
                                        } else {
                                            assert(self.generators@[gi - 1] == gens0[gi]);
                                            assert(pending_in(self.generators@, w, b));
                                        }
                                    }
                                }
                                assert(gens0.drop_first() =~= self.generators@);
                                assert(deque_measure(gens0, b.max_word_len) == odo_remaining(
                                    gstate0,
                                    b.max_word_len,
                                ) + 1 + deque_measure(self.generators@, b.max_word_len));
                                lemma_odo_remaining_nonneg(gstate0, b.max_word_len);
                                assert forall|gi: int|
                                    0 <= gi < self.generators@.len() implies tuple_in_range(
                                    (#[trigger] self.generators@[gi]).spec_state(),
                                    1,
                                    b.max_word_len,
                                ) by {
                                    assert(gen_ok(self.generators@[gi], b));
                                }
                                lemma_deque_measure_nonneg(self.generators@, b.max_word_len);
                            }
                        },
                        Some(v) => {
                            let ghost vseq = v@;
                            let mut c = v;
                            sort_usize_vec(&mut c);
                            let ghost csq = c@;
                            proof {
                                lemma_canon_unique(csq, vseq);
                                lemma_canon_fits(vseq, b);
                            }
                            if tuple_list_contains(&self.seen_combinations, &c) {
                                proof {
                                    let i = choose|i: int|
                                        0 <= i < self.seen_combinations@.len() && (
                                        #[trigger] self.seen_combinations@[i])@ == csq;
                                    assert(self.emitted()[i] == csq);
                                    assert(self.emitted().contains(csq));
                                }
                                let ghost rest = self.generators@;
                                self.generators.push_front(g);
                                proof {
                                    assert(self.generators@ =~= seq![g] + rest);
                                    assert(self.generators@[0] == g);
                                    assert forall|gi: int|
                                        1 <= gi < self.generators@.len() implies #[trigger] self.generators@[gi]
                                        == rest[gi - 1] by {}
                                    assert forall|gi: int|
                                        1 <= gi < self.generators@.len() implies #[trigger] self.generators@[gi]
                                        == gens0[gi] by {}
                                    assert(self.generators@.drop_first() =~= rest);
                                    assert(gens0.drop_first() =~= rest);
                                    assert(self.measure() == odo_remaining(g.spec_state(), b.max_word_len)
                                        + 1 + deque_measure(rest, b.max_word_len));
                                    assert(deque_measure(gens0, b.max_word_len) == odo_remaining(
                                        gstate0,
                                        b.max_word_len,
                                    ) + 1 + deque_measure(rest, b.max_word_len));
                                    assert forall|w: Seq<usize>|
                                        tuple_fits(w, b.min_word_len, b.max_word_len, b.target_len)
                                            && 1 <= w.len() <= b.max_words && w != lowest_tuple(
                                            w.len(),
                                            b.min_word_len,
                                        ) && !pending_in(self.generators@, w, b) implies self.emitted().contains(
                                        #[trigger] canon_of(w),
                                    ) by {
                                        if pending_in(gens0, w, b) {
                                            let gi = choose|gi: int|
                                                0 <= gi < gens0.len() && (#[trigger] gens0[gi]).spec_state().len()
                                                    == w.len() && odo_value(w, b.max_word_len)
                                                    > odo_value(gens0[gi].spec_state(), b.max_word_len);
                                            if gi == 0 {
                                                assert(gens0[0].spec_state() == gstate0);
                                                assert(w.len() == k);
                                                assert(self.generators@[0].spec_state().len() == k);
                                                assert(tuple_in_range(w, 1, b.max_word_len));
                                                assert(odo_value(w, b.max_word_len) <= odo_value(
                                                    vseq,
                                                    b.max_word_len,
                                                ));
                                                if odo_value(w, b.max_word_len) == odo_value(
                                                    vseq,
                                                    b.max_word_len,
                                                ) {
                                                    assert(tuple_in_range(w, 1, b.max_word_len));
                                                    assert(tuple_in_range(vseq, 1, b.max_word_len));
                                                    lemma_odo_value_injective(w, vseq, b.max_word_len);
                                                    assert(canon_of(w) == csq);
                                                } else {
                                                    assert(tuple_in_range(w, 1, b.max_word_len));
                                                    assert(odo_value(w, b.max_word_len) > odo_value(
                                                        gstate0,
                                                        b.max_word_len,
                                                    ));
                                                    assert(odo_value(w, b.max_word_len) < odo_value(
                                                        vseq,
                                                        b.max_word_len,
                                                    ));
                                                    assert(!tuple_fits(
                                                        w,
                                                        b.min_word_len,
                                                        b.max_word_len,
                                                        b.target_len,
                                                    ));
                                                }
                                            } else {
                                                assert(self.generators@[gi] == gens0[gi]);
                                                assert(pending_in(self.generators@, w, b));
                                            }
                                        }
                                    }
                                assert forall|gi: int|
                                    0 <= gi < self.generators@.len() implies tuple_in_range(
                                    (#[trigger] self.generators@[gi]).spec_state(),
                                    1,
                                    b.max_word_len,
                                ) by {
                                    assert(gen_ok(self.generators@[gi], b));
                                }
                                lemma_deque_measure_nonneg(self.generators@, b.max_word_len);
                                }
                            } else {
                                let out = tuple_clone(&c);
                                let ghost emitted0 = self.emitted();
                                let ghost rest = self.generators@;
                                self.seen_combinations.push(c);
                                self.generators.push_back(g);
                                proof {
                                    assert(self.generators@ =~= rest.push(g));
                                    assert(self.emitted() =~= emitted0.push(csq));
                                    assert(!emitted0.contains(csq)) by {
                                        if emitted0.contains(csq) {
                                            let i = choose|i: int|
                                                0 <= i < emitted0.len() && emitted0[i] == csq;
                                            assert((self.seen_combinations@[i])@ == csq);
                                        }
                                    }
                                    assert(self.emitted().no_duplicates()) by {
                                        assert forall|i: int, j: int|
                                            0 <= i < j < self.emitted().len() implies self.emitted()[i]
                                            != self.emitted()[j] by {
                                            if j < emitted0.len() {
                                                assert(emitted0.no_duplicates());
                                            } else {
                                                assert(self.emitted()[j] == csq);
                                                assert(self.emitted()[i] == emitted0[i]);
                                                if emitted0[i] == csq {
                                                    assert(emitted0.contains(csq));
                                                }
                                            }
                                        }
                                    }
                                    assert forall|i: int|
                                        0 <= i < self.emitted().len() implies canonical_tuple(
                                        #[trigger] self.emitted()[i],
                                        b,
                                    ) by {
                                        if i < emitted0.len() {
                                            assert(self.emitted()[i] == emitted0[i]);
                                        } else {
                                            assert(self.emitted()[i] == csq);
                                        }
                                    }
                                    assert forall|gi: int|
                                        0 <= gi < self.generators@.len() implies gen_ok(
                                        #[trigger] self.generators@[gi],
                                        b,
                                    ) && (gi < rest.len() ==> self.generators@[gi] == gens0[gi + 1])
                                        by {
                                        if gi < rest.len() {
                                            assert(self.generators@[gi] == rest[gi]);
                                            assert(rest[gi] == gens0[gi + 1]);
                                        } else {
                                            assert(self.generators@[gi] == g);
                                        }
                                    }
                                    assert forall|gi: int, gj: int|
                                        0 <= gi < gj < self.generators@.len() implies (
                                    #[trigger] self.generators@[gi]).spec_state().len() != (
                                    #[trigger] self.generators@[gj]).spec_state().len() by {
                                        if gj < rest.len() {
                                            assert(self.generators@[gi] == gens0[gi + 1]);
                                            assert(self.generators@[gj] == gens0[gj + 1]);
                                        } else {
                                            assert(self.generators@[gj] == g);
                                            assert(g.spec_state().len() == k);
                                            assert(self.generators@[gi] == gens0[gi + 1]);
                                            assert(gens0[0].spec_state().len() == k);
                                        }
                                    }
                                    assert forall|w: Seq<usize>|
                                        tuple_fits(w, b.min_word_len, b.max_word_len, b.target_len)
                                            && 1 <= w.len() <= b.max_words && w != lowest_tuple(
                                            w.len(),
                                            b.min_word_len,
                                        ) && !pending_in(self.generators@, w, b) implies self.emitted().contains(
                                        #[trigger] canon_of(w),
                                    ) by {
                                        if pending_in(gens0, w, b) {
                                            let gi = choose|gi: int|
                                                0 <= gi < gens0.len() && (#[trigger] gens0[gi]).spec_state().len()
                                                    == w.len() && odo_value(w, b.max_word_len)
                                                    > odo_value(gens0[gi].spec_state(), b.max_word_len);
                                            if gi == 0 {
                                                assert(w.len() == k);
                                                assert(self.generators@[rest.len() as int] == g);
                                                assert(odo_value(w, b.max_word_len) <= odo_value(
                                                    vseq,
                                                    b.max_word_len,
                                                ));
                                                if odo_value(w, b.max_word_len) == odo_value(
                                                    vseq,
                                                    b.max_word_len,
                                                ) {
                                                    assert(tuple_in_range(w, 1, b.max_word_len));
                                                    assert(tuple_in_range(vseq, 1, b.max_word_len));
                                                    lemma_odo_value_injective(w, vseq, b.max_word_len);
                                                    assert(canon_of(w) == csq);
                                                    assert(self.emitted()[emitted0.len() as int] == csq);
                                                    assert(self.emitted().contains(csq));
                                                } else {
                                                    assert(tuple_in_range(w, 1, b.max_word_len));
                                                    assert(odo_value(w, b.max_word_len) > odo_value(
                                                        gstate0,
                                                        b.max_word_len,
                                                    ));
                                                    assert(odo_value(w, b.max_word_len) < odo_value(
                                                        vseq,
                                                        b.max_word_len,
                                                    ));
                                                    assert(!tuple_fits(
                                                        w,
                                                        b.min_word_len,
                                                        b.max_word_len,
                                                        b.target_len,
                                                    ));
                                                }
                                            } else {
                                                assert(self.generators@[gi - 1] == gens0[gi]);
                                                assert(pending_in(self.generators@, w, b));
                                            }
                                        } else {
                                            assert(emitted0.contains(canon_of(w)));
                                            let i = choose|i: int|
                                                0 <= i < emitted0.len() && emitted0[i] == canon_of(w);
                                            assert(self.emitted()[i] == canon_of(w));
                                            assert(self.emitted().contains(canon_of(w)));
                                        }
                                    }
                                    lemma_deque_measure_push(rest, g, b.max_word_len);
                                    assert(gens0.drop_first() =~= rest);
                                    assert(deque_measure(gens0, b.max_word_len) == odo_remaining(
                                        gstate0,
                                        b.max_word_len,
                                    ) + 1 + deque_measure(rest, b.max_word_len));
                                    assert forall|gi: int|
                                        0 <= gi < self.generators@.len() implies tuple_in_range(
                                        (#[trigger] self.generators@[gi]).spec_state(),
                                        1,
                                        b.max_word_len,
                                    ) by {
                                        assert(gen_ok(self.generators@[gi], b));
                                    }
                                    lemma_deque_measure_nonneg(self.generators@, b.max_word_len);
                                }
                                return Some(out);
                            }
                        },
                    }
                }
            }
        }
    }
}

} // verus!
