//! Enumeration of word tuples for a fixed shape: the Cartesian product of the
//! word buckets is walked by a mixed-radix odometer ([`DictionaryIterator`]),
//! each index vector is materialized into words ([`SimpleFinder`]), and the
//! [`CombinationFinder`] keeps exactly the tuples whose letters form the
//! comparator multiset.

use crate::support::{char_leq, lemma_char_leq_total, sort_char_vec};
use crate::State;
use vstd::prelude::*;
use vstd::relations::sorted_by;
use vstd::seq_lib::lemma_sorted_unique;

verus! {

/// Position of the mixed-radix odometer within its cycle: digit `i` runs over
/// `[0, m[i]]`, the last digit is least significant.
pub open spec fn mr_value(s: Seq<isize>, m: Seq<isize>) -> int
    decreases s.len(),
{
    if s.len() == 0 {
        0
    } else {
        s.last() + (m.last() + 1) * mr_value(s.drop_last(), m.drop_last())
    }
}

/// Number of index vectors the odometer cycles through: the product of the
/// bucket sizes `m[i] + 1`.
pub open spec fn mr_count(m: Seq<isize>) -> int
    decreases m.len(),
{
    if m.len() == 0 {
        1
    } else {
        (m.last() + 1) * mr_count(m.drop_last())
    }
}

/// Digits within their radices.
pub open spec fn mr_in_range(s: Seq<isize>, m: Seq<isize>) -> bool {
    s.len() == m.len() && forall|i: int| 0 <= i < s.len() ==> 0 <= #[trigger] s[i] <= m[i]
}

proof fn lemma_mr_value_nonneg(s: Seq<isize>, m: Seq<isize>)
    requires
        mr_in_range(s, m),
    ensures
        mr_value(s, m) >= 0,
    decreases s.len(),
{
    if s.len() > 0 {
        assert forall|i: int| 0 <= i < s.drop_last().len() implies 0 <= #[trigger] s.drop_last()[i]
            <= m.drop_last()[i] by {
            assert(s.drop_last()[i] == s[i]);
            assert(m.drop_last()[i] == m[i]);
        }
        lemma_mr_value_nonneg(s.drop_last(), m.drop_last());
        assert(0 <= s[s.len() - 1] <= m[s.len() - 1]);
        assert(m.last() >= 0);
        assert((m.last() + 1) * mr_value(s.drop_last(), m.drop_last()) >= 0) by (nonlinear_arith)
            requires
                m.last() + 1 >= 1,
                mr_value(s.drop_last(), m.drop_last()) >= 0,
        ;
    }
}

/// The all-maximum state sits at the last value of the cycle.
proof fn lemma_mr_value_all_max(s: Seq<isize>, m: Seq<isize>)
    requires
        s.len() == m.len(),
        forall|i: int| 0 <= i < s.len() ==> #[trigger] s[i] == m[i],
        forall|i: int| 0 <= i < m.len() ==> #[trigger] m[i] >= 0,
    ensures
        mr_value(s, m) == mr_count(m) - 1,
    decreases s.len(),
{
    if s.len() > 0 {
        assert forall|i: int| 0 <= i < s.drop_last().len() implies #[trigger] s.drop_last()[i]
            == m.drop_last()[i] by {
            assert(s.drop_last()[i] == s[i]);
            assert(m.drop_last()[i] == m[i]);
        }
        assert forall|i: int| 0 <= i < m.drop_last().len() implies #[trigger] m.drop_last()[i]
            >= 0 by {
            assert(m.drop_last()[i] == m[i]);
        }
        lemma_mr_value_all_max(s.drop_last(), m.drop_last());
        assert(s.last() == m.last());
        assert(mr_count(m) == (m.last() + 1) * mr_count(m.drop_last()));
        assert((m.last() + 1) * (mr_count(m.drop_last()) - 1) == (m.last() + 1) * mr_count(
            m.drop_last(),
        ) - (m.last() + 1)) by (nonlinear_arith);
    }
}

/// No in-range state sits above the all-maximum one.
proof fn lemma_mr_value_upper(s: Seq<isize>, m: Seq<isize>)
    requires
        mr_in_range(s, m),
    ensures
        mr_value(s, m) <= mr_count(m) - 1,
    decreases s.len(),
{
    if s.len() == 0 {
    } else {
        assert forall|i: int| 0 <= i < s.drop_last().len() implies 0 <= #[trigger] s.drop_last()[i]
            <= m.drop_last()[i] by {
            assert(s.drop_last()[i] == s[i]);
            assert(m.drop_last()[i] == m[i]);
        }
        lemma_mr_value_upper(s.drop_last(), m.drop_last());
        lemma_mr_value_nonneg(s.drop_last(), m.drop_last());
        assert(0 <= s[s.len() - 1] <= m[s.len() - 1]);
        assert(s.last() <= m.last());
        assert((m.last() + 1) * mr_value(s.drop_last(), m.drop_last()) <= (m.last() + 1) * (
        mr_count(m.drop_last()) - 1)) by (nonlinear_arith)
            requires
                m.last() + 1 >= 1,
                mr_value(s.drop_last(), m.drop_last()) <= mr_count(m.drop_last()) - 1,
        ;
        assert(mr_count(m) == (m.last() + 1) * mr_count(m.drop_last()));
        assert((m.last() + 1) * (mr_count(m.drop_last()) - 1) == mr_count(m) - (m.last() + 1))
            by (nonlinear_arith)
            requires
                mr_count(m) == (m.last() + 1) * mr_count(m.drop_last()),
        ;
    }
}

/// Two in-range states with the same value are the same state.
proof fn lemma_mr_value_injective(s: Seq<isize>, t: Seq<isize>, m: Seq<isize>)
    requires
        mr_in_range(s, m),
        mr_in_range(t, m),
        mr_value(s, m) == mr_value(t, m),
    ensures
        s =~= t,
    decreases s.len(),
{
    if s.len() > 0 {
        let sd = s.drop_last();
        let td = t.drop_last();
        let md = m.drop_last();
        assert forall|i: int| 0 <= i < sd.len() implies 0 <= #[trigger] sd[i] <= md[i] by {
            assert(sd[i] == s[i]);
            assert(md[i] == m[i]);
        }
        assert forall|i: int| 0 <= i < td.len() implies 0 <= #[trigger] td[i] <= md[i] by {
            assert(td[i] == t[i]);
            assert(md[i] == m[i]);
        }
        lemma_mr_value_nonneg(sd, md);
        lemma_mr_value_nonneg(td, md);
        assert(0 <= s[s.len() - 1] <= m[s.len() - 1]);
        assert(0 <= t[t.len() - 1] <= m[t.len() - 1]);
        assert(mr_value(sd, md) == mr_value(td, md) && s.last() == t.last()) by (nonlinear_arith)
            requires
                s.last() + (m.last() + 1) * mr_value(sd, md) == t.last() + (m.last() + 1)
                    * mr_value(td, md),
                0 <= s.last() <= m.last(),
                0 <= t.last() <= m.last(),
                mr_value(sd, md) >= 0,
                mr_value(td, md) >= 0,
        ;
        lemma_mr_value_injective(sd, td, md);
        assert forall|i: int| 0 <= i < s.len() implies #[trigger] s[i] == t[i] by {
            if i < s.len() - 1 {
                assert(s[i] == sd[i] && t[i] == td[i]);
            }
        }
        assert(s =~= t);
    } else {
        assert(s =~= t);
    }
}

/// A successful carry (positions right of `i` reset from their maximum to 0,
/// position `i` incremented, the rest untouched) raises the value by one.
proof fn lemma_mr_carry(s: Seq<isize>, t: Seq<isize>, i: int, m: Seq<isize>)
    requires
        s.len() == t.len() == m.len(),
        0 <= i < s.len(),
        forall|j: int| i < j < s.len() ==> #[trigger] s[j] == m[j],
        forall|j: int| i < j < s.len() ==> #[trigger] t[j] == 0,
        s[i] < m[i],
        t[i] == s[i] + 1,
        forall|j: int| 0 <= j < i ==> #[trigger] t[j] == s[j],
    ensures
        mr_value(t, m) == mr_value(s, m) + 1,
    decreases s.len() - i,
{
    if i == s.len() - 1 {
        assert(t.drop_last() =~= s.drop_last());
    } else {
        let sd = s.drop_last();
        let td = t.drop_last();
        let md = m.drop_last();
        assert forall|j: int| i < j < sd.len() implies #[trigger] sd[j] == md[j] by {
            assert(sd[j] == s[j] && md[j] == m[j]);
        }
        assert forall|j: int| i < j < sd.len() implies #[trigger] td[j] == 0 by {
            assert(td[j] == t[j]);
        }
        assert forall|j: int| 0 <= j < i implies #[trigger] td[j] == sd[j] by {
            assert(td[j] == t[j] && sd[j] == s[j]);
        }
        assert(sd[i] == s[i] && td[i] == t[i] && md[i] == m[i]);
        lemma_mr_carry(sd, td, i, md);
        assert(s.last() == m.last() && t.last() == 0);
        assert((m.last() + 1) * mr_value(td, md) == (m.last() + 1) * mr_value(sd, md) + m.last()
            + 1) by (nonlinear_arith)
            requires
                mr_value(td, md) == mr_value(sd, md) + 1,
        ;
    }
}

/// The mixed-radix odometer over the word buckets of one length tuple: digit
/// `i` indexes bucket `i`.  The final digit starts at -1, so the first
/// advance lands on the all-zero index vector.
pub struct DictionaryIterator {
    max_values: Vec<isize>,
    state: Vec<isize>,
}

impl DictionaryIterator {
    /// The per-position maxima (bucket sizes minus one).
    pub closed spec fn spec_max_values(self) -> Seq<isize> {
        self.max_values@
    }

    /// The current index vector.
    pub closed spec fn spec_state(self) -> Seq<isize> {
        self.state@
    }

    /// Structural invariant: one digit per bucket, radices non-negative,
    /// digits in range with the final digit allowed to rest at -1.
    pub closed spec fn wf(self) -> bool {
        &&& self.state@.len() == self.max_values@.len()
        &&& forall|i: int| 0 <= i < self.max_values@.len() ==> #[trigger] self.max_values@[i] >= 0
        &&& forall|i: int|
            0 <= i < self.state@.len() ==> 0 <= #[trigger] self.state@[i] <= self.max_values@[i]
                || (i == self.state@.len() - 1 && self.state@[i] == -1)
    }

    pub fn new(dictionary: &Vec<Vec<String>>) -> (it: DictionaryIterator)
        requires
            forall|i: int|
                0 <= i < dictionary@.len() ==> 1 <= (#[trigger] dictionary@[i])@.len()
                    <= isize::MAX,
        ensures
            it.wf(),
            it.spec_max_values().len() == dictionary@.len(),
            forall|i: int|
                0 <= i < dictionary@.len() ==> #[trigger] it.spec_max_values()[i] == (
                #[trigger] dictionary@[i])@.len() - 1,
            dictionary@.len() > 0 ==> mr_value(it.spec_state(), it.spec_max_values()) == -1,
            dictionary@.len() == 0 ==> mr_value(it.spec_state(), it.spec_max_values()) == 0,
    {
        let mut max_values: Vec<isize> = Vec::new();
        let mut i: usize = 0;
        while i < dictionary.len()
            invariant
                0 <= i <= dictionary@.len(),
                forall|k: int|
                    0 <= k < dictionary@.len() ==> 1 <= (#[trigger] dictionary@[k])@.len()
                        <= isize::MAX,
                max_values@.len() == i,
                forall|k: int|
                    0 <= k < i ==> #[trigger] max_values@[k] == (#[trigger] dictionary@[k])@.len()
                        - 1,
            decreases dictionary@.len() - i,
        {
            let n = dictionary[i].len();
            max_values.push((n - 1) as isize);
            i = i + 1;
        }
        let mut state: Vec<isize> = Vec::new();
        let mut j: usize = 0;
        while j < dictionary.len()
            invariant
                0 <= j <= dictionary@.len(),
                state@.len() == j,
                forall|k: int| 0 <= k < j && k < dictionary@.len() - 1 ==> #[trigger] state@[k] == 0,
                forall|k: int|
                    0 <= k < j && k == dictionary@.len() - 1 ==> #[trigger] state@[k] == -1,
            decreases dictionary@.len() - j,
        {
            if j < dictionary.len() - 1 {
                state.push(0);
            } else {
                state.push(-1);
            }
            j = j + 1;
        }
        let it = DictionaryIterator { max_values, state };
        proof {
            assert forall|k: int| 0 <= k < it.max_values@.len() implies #[trigger] it.max_values@[k]
                >= 0 by {
                assert(it.max_values@[k] == dictionary@[k]@.len() - 1);
                assert(dictionary@[k]@.len() >= 1);
            }
            if dictionary@.len() > 0 {
                lemma_mr_value_last_low(it.state@, it.max_values@);
            }
        }
        it
    }

    /// Advance to the next index vector.  Each advance raises the value by
    /// exactly one; `None` is returned exactly when the state was the
    /// all-maximum vector (value `mr_count - 1`), after which the state has
    /// wrapped to all zeroes.  So each of the `mr_count` index vectors is
    /// yielded exactly once per cycle.
    pub fn next(&mut self) -> (r: Option<Vec<isize>>)
        requires
            old(self).wf(),
        ensures
            final(self).wf(),
            final(self).spec_max_values() == old(self).spec_max_values(),
            match r {
                Some(v) => {
                    &&& v@ == final(self).spec_state()
                    &&& mr_in_range(v@, old(self).spec_max_values())
                    &&& mr_value(v@, old(self).spec_max_values()) == mr_value(
                        old(self).spec_state(),
                        old(self).spec_max_values(),
                    ) + 1
                },
                None => {
                    &&& old(self).spec_state().len() == 0 || mr_value(
                        old(self).spec_state(),
                        old(self).spec_max_values(),
                    ) == mr_count(old(self).spec_max_values()) - 1
                },
            },
    {
        let ghost s0 = self.state@;
        let ghost m = self.max_values@;
        let n = self.max_values.len();
        let mut i: usize = n;
        while i > 0
            invariant
                0 <= i <= n,
                n == m.len(),
                s0 == old(self).spec_state(),
                m == old(self).spec_max_values(),
                s0.len() == m.len(),
                self.max_values@ == m,
                self.state@.len() == s0.len(),
                forall|k: int| 0 <= k < m.len() ==> #[trigger] m[k] >= 0,
                forall|k: int|
                    0 <= k < s0.len() ==> 0 <= #[trigger] s0[k] <= m[k] || (k == s0.len() - 1
                        && s0[k] == -1),
                forall|k: int| 0 <= k < i ==> #[trigger] self.state@[k] == s0[k],
                forall|k: int| i <= k < s0.len() ==> #[trigger] s0[k] == m[k],
                forall|k: int| i <= k < s0.len() ==> #[trigger] self.state@[k] == 0,
            decreases i,
        {
            let idx = i - 1;
            if self.state[idx] < self.max_values[idx] {
                let ghost pre = self.state@;
                self.state[idx] = self.state[idx] + 1;
                proof {
                    let snew = self.state@;
                    assert forall|k: int| idx < k < s0.len() implies #[trigger] snew[k] == 0 by {
                        assert(pre[k] == 0);
                    }
                    assert forall|k: int| 0 <= k < idx implies #[trigger] snew[k] == s0[k] by {
                        assert(pre[k] == s0[k]);
                    }
                    assert(pre[idx as int] == s0[idx as int]);
                    assert(snew[idx as int] == s0[idx as int] + 1);
                    lemma_mr_carry(s0, snew, idx as int, m);
                    assert forall|k: int| 0 <= k < snew.len() implies 0 <= #[trigger] snew[k]
                        <= m[k] by {
                        if k < idx {
                            assert(snew[k] == s0[k]);
                            if s0[k] == -1 {
                                assert(k == s0.len() - 1);
                                assert(k < idx < s0.len());
                            }
                        } else if k == idx {
                            assert(snew[k] == s0[idx as int] + 1);
                            assert(-1 <= s0[idx as int] < m[idx as int]);
                        } else {
                            assert(snew[k] == 0);
                            assert(m[k] >= 0);
                        }
                    }
                }
                return Some(self.clone_state());
            } else {
                self.state[idx] = 0;
            }
            i = idx;
        }
        proof {
            if s0.len() > 0 {
                assert forall|k: int| 0 <= k < s0.len() implies #[trigger] s0[k] == m[k] by {}
                lemma_mr_value_all_max(s0, m);
            }
        }
        None
    }

    /// A copy of the current index vector.
    fn clone_state(&self) -> (r: Vec<isize>)
        ensures
            r@ == self.spec_state(),
    {
        let mut r: Vec<isize> = Vec::new();
        let mut i: usize = 0;
        while i < self.state.len()
            invariant
                0 <= i <= self.state@.len(),
                r@ =~= self.state@.take(i as int),
            decreases self.state@.len() - i,
        {
            r.push(self.state[i]);
            i = i + 1;
        }
        proof {
            assert(self.state@.take(self.state@.len() as int) =~= self.state@);
        }
        r
    }
}

/// A state holding 0 everywhere and -1 in the last position has value -1.
proof fn lemma_mr_value_last_low(s: Seq<isize>, m: Seq<isize>)
    requires
        s.len() == m.len(),
        s.len() > 0,
        forall|k: int| 0 <= k < s.len() - 1 ==> #[trigger] s[k] == 0,
        s.last() == -1,
        forall|k: int| 0 <= k < m.len() ==> #[trigger] m[k] >= 0,
    ensures
        mr_value(s, m) == -1,
{
    lemma_mr_value_all_zero(s.drop_last(), m.drop_last());
    assert(forall|k: int| 0 <= k < s.drop_last().len() ==> #[trigger] s.drop_last()[k] == s[k]);
    assert((m.last() + 1) * 0 == 0) by (nonlinear_arith);
}

proof fn lemma_mr_value_all_zero(s: Seq<isize>, m: Seq<isize>)
    requires
        s.len() == m.len(),
        forall|k: int| 0 <= k < s.len() ==> #[trigger] s[k] == 0,
    ensures
        mr_value(s, m) == 0,
    decreases s.len(),
{
    if s.len() > 0 {
        assert forall|k: int| 0 <= k < s.drop_last().len() implies #[trigger] s.drop_last()[k]
            == 0 by {
            assert(s.drop_last()[k] == s[k]);
        }
        lemma_mr_value_all_zero(s.drop_last(), m.drop_last());
        assert(s.last() == 0);
        assert((m.last() + 1) * 0 == 0) by (nonlinear_arith);
    }
}


/// The words selected from each bucket by an index vector.
pub open spec fn materialize(idx: Seq<isize>, dict: Seq<Seq<Seq<char>>>) -> Seq<Seq<char>> {
    Seq::new(idx.len(), |i: int| dict[i][idx[i] as int])
}

/// `idx` picks one word from each bucket.
pub open spec fn idx_in_range(idx: Seq<isize>, dict: Seq<Seq<Seq<char>>>) -> bool {
    idx.len() == dict.len() && forall|i: int|
        0 <= i < idx.len() ==> 0 <= #[trigger] idx[i] < dict[i].len()
}

/// The letters of a word tuple, concatenated without separators.
pub open spec fn phrase_chars(ws: Seq<Seq<char>>) -> Seq<char>
    decreases ws.len(),
{
    if ws.len() == 0 {
        Seq::empty()
    } else {
        phrase_chars(ws.drop_last()) + ws.last()
    }
}

/// The multiset check a word tuple must pass: its letters form exactly the
/// comparator multiset.
pub open spec fn multiset_matches(ws: Seq<Seq<char>>, comparator: Seq<char>) -> bool {
    phrase_chars(ws).to_multiset() == comparator.to_multiset()
}

/// A sorted character sequence with the same multiset as `w` is `w` sorted.
proof fn lemma_char_canon_unique(a: Seq<char>, w: Seq<char>)
    requires
        sorted_by(a, char_leq()),
        a.to_multiset() == w.to_multiset(),
    ensures
        a =~= w.sort_by(char_leq()),
{
    w.lemma_sort_by_ensures(char_leq());
    lemma_char_leq_total();
    lemma_sorted_unique(a, w.sort_by(char_leq()), char_leq());
}

/// Materializes an index vector into its word tuple by indexing each bucket.
pub struct SimpleFinder {}

impl SimpleFinder {
    pub fn find(&self, combination: Vec<isize>, dictionary: &Vec<Vec<String>>) -> (words: Vec<
        String,
    >)
        requires
            idx_in_range(combination@, dictionary.deep_view()),
        ensures
            words.deep_view() =~= materialize(combination@, dictionary.deep_view()),
    {
        let ghost dv = dictionary.deep_view();
        let mut words: Vec<String> = Vec::new();
        let mut i: usize = 0;
        while i < combination.len()
            invariant
                0 <= i <= combination@.len(),
                dv == dictionary.deep_view(),
                idx_in_range(combination@, dv),
                words.deep_view() =~= materialize(combination@, dv).take(i as int),
            decreases combination@.len() - i,
        {
            let j = combination[i] as usize;
            proof {
                assert(0 <= combination@[i as int] < dv[i as int].len());
                assert(dv[i as int].len() == (dictionary@[i as int])@.len());
            }
            let word = dictionary[i][j].clone();
            let ghost before = words.deep_view();
            words.push(word);
            proof {
                assert(word@ == (dictionary@[i as int])@[j as int]@);
                assert(word.deep_view() == dv[i as int][combination@[i as int] as int]);
                assert(words.deep_view() =~= before.push(word.deep_view()));
                assert(words.deep_view() =~= materialize(combination@, dv).take(i + 1));
            }
            i = i + 1;
        }
        proof {
            assert(materialize(combination@, dv).take(combination@.len() as int) =~= materialize(
                combination@,
                dv,
            ));
        }
        words
    }
}

/// The letters of all words in a tuple, in tuple order.
fn collect_chars(words: &Vec<String>) -> (r: Vec<char>)
    ensures
        r@ == phrase_chars(words.deep_view()),
{
    let ghost dv = words.deep_view();
    let mut r: Vec<char> = Vec::new();
    let mut i: usize = 0;
    while i < words.len()
        invariant
            0 <= i <= words@.len(),
            dv == words.deep_view(),
            r@ =~= phrase_chars(dv.take(i as int)),
        decreases words@.len() - i,
    {
        let w = &words[i];
        let n = w.as_str().unicode_len();
        let ghost rpre = r@;
        let mut ci: usize = 0;
        while ci < n
            invariant
                0 <= ci <= n,
                n == w@.len(),
                w@ == dv[i as int],
                0 <= i < dv.len(),
                r@ =~= rpre + w@.take(ci as int),
            decreases n - ci,
        {
            r.push(w.as_str().get_char(ci));
            proof {
                assert(w@.take(ci + 1) =~= w@.take(ci as int).push(w@[ci as int]));
                assert(r@ =~= rpre + w@.take(ci + 1));
            }
            ci = ci + 1;
        }
        proof {
            assert(w@.take(n as int) =~= w@);
            assert(dv.take(i + 1).drop_last() =~= dv.take(i as int));
            assert(dv.take(i + 1).last() == dv[i as int]);
            assert(phrase_chars(dv.take(i + 1)) == phrase_chars(dv.take(i as int)) + dv[i as int]);
        }
        i = i + 1;
    }
    proof {
        assert(dv.take(dv.len() as int) =~= dv);
    }
    r
}

/// Element-wise equality of two character vectors.
fn char_vec_eq(a: &Vec<char>, b: &Vec<char>) -> (r: bool)
    ensures
        r == (a@ == b@),
{
    if a.len() != b.len() {
        assert(a@.len() != b@.len());
        return false;
    }
    let mut i: usize = 0;
    while i < a.len()
        invariant
            0 <= i <= a@.len(),
            a@.len() == b@.len(),
            forall|j: int| 0 <= j < i ==> a@[j] == #[trigger] b@[j],
        decreases a@.len() - i,
    {
        if a[i] != b[i] {
            return false;
        }
        i = i + 1;
    }
    proof {
        assert(a@ =~= b@);
    }
    true
}

/// Walks every word tuple of one shape and keeps those whose letters form
/// the comparator multiset.
pub struct CombinationFinder {
    dictionary: Vec<Vec<String>>,
    comparator: Vec<char>,
    state: State,
}

impl CombinationFinder {
    /// The word buckets, one per position of the shape.
    pub closed spec fn spec_dictionary(self) -> Seq<Seq<Seq<char>>> {
        self.dictionary.deep_view()
    }

    /// The character multiset the phrase must form, as currently stored.
    pub closed spec fn spec_comparator(self) -> Seq<char> {
        self.comparator@
    }

    /// The component lifecycle state.
    pub closed spec fn spec_state(self) -> State {
        self.state
    }

    /// Buckets are non-empty and indexable by `isize`.
    pub closed spec fn wf(self) -> bool {
        forall|i: int|
            0 <= i < self.spec_dictionary().len() ==> 1 <= (#[trigger] self.spec_dictionary()[i]).len()
                <= isize::MAX
    }

    pub fn new(dictionary: Vec<Vec<String>>, comparator: Vec<char>) -> (f: CombinationFinder)
        requires
            forall|i: int|
                0 <= i < dictionary@.len() ==> 1 <= (#[trigger] dictionary@[i])@.len()
                    <= isize::MAX,
        ensures
            f.wf(),
            f.spec_dictionary() == dictionary.deep_view(),
            f.spec_comparator() == comparator@,
            f.spec_state() == State::Idle,
    {
        let f = CombinationFinder { dictionary, comparator, state: State::Idle };
        proof {
            assert forall|i: int|
                0 <= i < f.spec_dictionary().len() implies 1 <= (#[trigger] f.spec_dictionary()[i]).len()
                <= isize::MAX by {
                assert(f.spec_dictionary()[i].len() == (f.dictionary@[i])@.len());
            }
        }
        f
    }

    /// The component lifecycle state, for observation.
    pub fn state(&self) -> (r: State)
        ensures
            r == self.spec_state(),
    {
        self.state
    }

    /// Whether a word tuple passes the multiset check against the stored
    /// comparator: its sorted letters equal the comparator as stored.  When
    /// the comparator is sorted this is exactly multiset equality — the
    /// pruning step cuts a tuple if and only if its letters do not form the
    /// comparator multiset.
    pub fn is_valid(&self, combination: &Vec<String>) -> (r: bool)
        ensures
            r == (phrase_chars(combination.deep_view()).sort_by(char_leq())
                == self.spec_comparator()),
            sorted_by(self.spec_comparator(), char_leq()) ==> (r <==> multiset_matches(
                combination.deep_view(),
                self.spec_comparator(),
            )),
    {
        let mut chars = collect_chars(combination);
        let ghost raw = chars@;
        sort_char_vec(&mut chars);
        proof {
            lemma_char_canon_unique(chars@, raw);
        }
        let r = char_vec_eq(&chars, &self.comparator);
        proof {
            let canon = raw.sort_by(char_leq());
            raw.lemma_sort_by_ensures(char_leq());
            if sorted_by(self.spec_comparator(), char_leq()) {
                crate::support::lemma_sorted_chars_eq_iff_multiset_eq(
                    canon,
                    self.spec_comparator(),
                );
            }
        }
        r
    }

    /// Run the enumeration: walk every word tuple of the shape and return,
    /// in enumeration order, exactly those whose letters form the comparator
    /// multiset.  The comparator is put in sorted order first.
    pub fn run(&mut self) -> (r: Vec<Vec<String>>)
        requires
            old(self).wf(),
        ensures
            final(self).wf(),
            final(self).spec_dictionary() == old(self).spec_dictionary(),
            final(self).spec_comparator() == old(self).spec_comparator().sort_by(char_leq()),
            final(self).spec_state() == State::Stopped,
            forall|i: int|
                #![trigger r.deep_view()[i]]
                0 <= i < r.deep_view().len() ==> multiset_matches(
                    r.deep_view()[i],
                    old(self).spec_comparator(),
                ) && exists|idx: Seq<isize>|
                    #![trigger materialize(idx, old(self).spec_dictionary())]
                    idx_in_range(idx, old(self).spec_dictionary()) && r.deep_view()[i]
                        == materialize(idx, old(self).spec_dictionary()),
            forall|idx: Seq<isize>|
                #![trigger materialize(idx, old(self).spec_dictionary())]
                idx_in_range(idx, old(self).spec_dictionary()) && old(self).spec_dictionary().len()
                    > 0 && multiset_matches(
                    materialize(idx, old(self).spec_dictionary()),
                    old(self).spec_comparator(),
                ) ==> r.deep_view().contains(materialize(idx, old(self).spec_dictionary())),
            (forall|p: int|
                0 <= p < old(self).spec_dictionary().len() ==> (
                #[trigger] old(self).spec_dictionary()[p]).no_duplicates())
                ==> r.deep_view().no_duplicates(),
    {
        self.state = State::Starting;
        let ghost comp0 = self.comparator@;
        sort_char_vec(&mut self.comparator);
        proof {
            comp0.lemma_sort_by_ensures(char_leq());
            lemma_char_canon_unique(self.comparator@, comp0);
        }
        let r = self.find_combinations(SimpleFinder {  });
        r
    }

    /// The enumeration loop shared by `run`: requires the comparator already
    /// sorted, so the multiset check is exact.
    fn find_combinations(&mut self, finder: SimpleFinder) -> (r: Vec<Vec<String>>)
        requires
            old(self).wf(),
            sorted_by(old(self).spec_comparator(), char_leq()),
        ensures
            final(self).wf(),
            final(self).spec_dictionary() == old(self).spec_dictionary(),
            final(self).spec_comparator() == old(self).spec_comparator(),
            final(self).spec_state() == State::Stopped,
            forall|i: int|
                #![trigger r.deep_view()[i]]
                0 <= i < r.deep_view().len() ==> multiset_matches(
                    r.deep_view()[i],
                    old(self).spec_comparator(),
                ) && exists|idx: Seq<isize>|
                    #![trigger materialize(idx, old(self).spec_dictionary())]
                    idx_in_range(idx, old(self).spec_dictionary()) && r.deep_view()[i]
                        == materialize(idx, old(self).spec_dictionary()),
            forall|idx: Seq<isize>|
                #![trigger materialize(idx, old(self).spec_dictionary())]
                idx_in_range(idx, old(self).spec_dictionary()) && old(self).spec_dictionary().len()
                    > 0 && multiset_matches(
                    materialize(idx, old(self).spec_dictionary()),
                    old(self).spec_comparator(),
                ) ==> r.deep_view().contains(materialize(idx, old(self).spec_dictionary())),
            (forall|p: int|
                0 <= p < old(self).spec_dictionary().len() ==> (
                #[trigger] old(self).spec_dictionary()[p]).no_duplicates())
                ==> r.deep_view().no_duplicates(),
    {
        let ghost dv = old(self).spec_dictionary();
        let ghost comp = old(self).spec_comparator();
        let mut results: Vec<Vec<String>> = Vec::new();
        proof {
            assert forall|i: int|
                0 <= i < self.dictionary@.len() implies 1 <= (#[trigger] self.dictionary@[i])@.len()
                <= isize::MAX by {
                assert(dv[i].len() == (self.dictionary@[i])@.len());
            }
        }
        let mut counter = DictionaryIterator::new(&self.dictionary);
        self.state = State::Running;
        let ghost m = counter.spec_max_values();
        let ghost mut idxs: Seq<Seq<isize>> = Seq::empty();
        proof {
            assert forall|i: int| 0 <= i < dv.len() implies #[trigger] m[i] == dv[i].len() - 1 by {
                assert(m[i] == (self.dictionary@[i])@.len() - 1);
                assert(dv[i].len() == (self.dictionary@[i])@.len());
            }
        }
        proof {
            assert forall|idx: Seq<isize>|
                #![trigger materialize(idx, dv)]
                dv.len() > 0 && mr_in_range(idx, m) && mr_value(idx, m) <= mr_value(
                    counter.spec_state(),
                    m,
                ) && multiset_matches(materialize(idx, dv), comp) implies results.deep_view().contains(
                materialize(idx, dv),
            ) by {
                lemma_mr_value_nonneg(idx, m);
            }
        }
        loop
            invariant_except_break
                forall|i: int|
                    0 <= i < idxs.len() ==> mr_value(#[trigger] idxs[i], m) <= mr_value(
                        counter.spec_state(),
                        m,
                    ),
                forall|idx: Seq<isize>|
                    #![trigger materialize(idx, dv)]
                    dv.len() > 0 && mr_in_range(idx, m) && mr_value(idx, m) <= mr_value(
                        counter.spec_state(),
                        m,
                    ) && multiset_matches(materialize(idx, dv), comp) ==> results.deep_view().contains(
                        materialize(idx, dv),
                    ),
            invariant
                counter.wf(),
                counter.spec_max_values() == m,
                dv == old(self).spec_dictionary(),
                comp == old(self).spec_comparator(),
                sorted_by(comp, char_leq()),
                self.wf(),
                self.spec_dictionary() == dv,
                self.spec_comparator() == comp,
                self.spec_state() == State::Running,
                m.len() == dv.len(),
                forall|i: int| 0 <= i < dv.len() ==> #[trigger] m[i] == dv[i].len() - 1,
                idxs.len() == results.deep_view().len(),
                forall|i: int|
                    #![trigger idxs[i]]
                    0 <= i < idxs.len() ==> mr_in_range(idxs[i], m) && results.deep_view()[i]
                        == materialize(idxs[i], dv) && multiset_matches(
                        materialize(idxs[i], dv),
                        comp,
                    ),
                forall|i: int, j: int|
                    0 <= i < j < idxs.len() ==> mr_value(#[trigger] idxs[i], m) < mr_value(
                        #[trigger] idxs[j],
                        m,
                    ),
            ensures
                dv == old(self).spec_dictionary(),
                comp == old(self).spec_comparator(),
                self.wf(),
                self.spec_dictionary() == dv,
                self.spec_comparator() == comp,
                self.spec_state() == State::Running,
                idxs.len() == results.deep_view().len(),
                forall|i: int|
                    #![trigger idxs[i]]
                    0 <= i < idxs.len() ==> mr_in_range(idxs[i], m) && results.deep_view()[i]
                        == materialize(idxs[i], dv) && multiset_matches(
                        materialize(idxs[i], dv),
                        comp,
                    ),
                forall|i: int, j: int|
                    0 <= i < j < idxs.len() ==> mr_value(#[trigger] idxs[i], m) < mr_value(
                        #[trigger] idxs[j],
                        m,
                    ),
                forall|idx: Seq<isize>|
                    #![trigger materialize(idx, dv)]
                    idx_in_range(idx, dv) && dv.len() > 0 && multiset_matches(
                        materialize(idx, dv),
                        comp,
                    ) ==> results.deep_view().contains(materialize(idx, dv)),
            decreases mr_count(m) - mr_value(counter.spec_state(), m),
        {
            let ghost cpre = counter.spec_state();
            let stepped = counter.next();
            match stepped {
                None => {
                    proof {
                        assert forall|idx: Seq<isize>|
                            idx_in_range(idx, dv) && dv.len() > 0 && multiset_matches(
                                materialize(idx, dv),
                                comp,
                            ) implies results.deep_view().contains(#[trigger] materialize(
                            idx,
                            dv,
                        )) by {
                            assert forall|i: int| 0 <= i < idx.len() implies 0 <= #[trigger] idx[i]
                                <= m[i] by {
                                assert(0 <= idx[i] < dv[i].len());
                            }
                            assert(mr_in_range(idx, m));
                            lemma_mr_value_upper(idx, m);
                            assert(mr_value(idx, m) <= mr_value(cpre, m));
                        }
                    }
                    break ;
                },
                Some(c) => {
                    proof {
                        assert forall|i: int| 0 <= i < c@.len() implies 0 <= #[trigger] c@[i]
                            < dv[i].len() by {
                            assert(0 <= c@[i] <= m[i]);
                        }
                        assert(idx_in_range(c@, dv));
                        lemma_mr_value_upper(c@, m);
                    }
                    let words = finder.find(c, &self.dictionary);
                    if self.is_valid(&words) {
                        let ghost rpre = results.deep_view();
                        let ghost cseq = counter.spec_state();
                        results.push(words);
                        proof {
                            idxs = idxs.push(cseq);
                            assert(results.deep_view() =~= rpre.push(words.deep_view()));
                            assert(words.deep_view() == materialize(cseq, dv));
                            assert forall|i: int|
                                #![trigger idxs[i]]
                                0 <= i < idxs.len() implies mr_in_range(idxs[i], m)
                                && results.deep_view()[i] == materialize(idxs[i], dv)
                                && multiset_matches(materialize(idxs[i], dv), comp) by {
                                if i < idxs.len() - 1 {
                                    assert(results.deep_view()[i] == rpre[i]);
                                } else {
                                    assert(idxs[i] == cseq);
                                    assert(results.deep_view()[i] == words.deep_view());
                                }
                            }
                            assert forall|idx: Seq<isize>|
                                #![trigger materialize(idx, dv)]
                                dv.len() > 0 && mr_in_range(idx, m) && mr_value(idx, m) <= mr_value(
                                    counter.spec_state(),
                                    m,
                                ) && multiset_matches(materialize(idx, dv), comp) implies results.deep_view().contains(
                                materialize(idx, dv),
                            ) by {
                                if mr_value(idx, m) == mr_value(cseq, m) {
                                    lemma_mr_value_injective(idx, cseq, m);
                                    assert(results.deep_view()[rpre.len() as int] == materialize(
                                        idx,
                                        dv,
                                    ));
                                } else {
                                    assert(mr_value(idx, m) <= mr_value(cpre, m));
                                    assert(rpre.contains(materialize(idx, dv)));
                                    let i = choose|i: int|
                                        0 <= i < rpre.len() && rpre[i] == materialize(idx, dv);
                                    assert(results.deep_view()[i] == materialize(idx, dv));
                                }
                            }
                        }
                    } else {
                        proof {
                            let cseq = counter.spec_state();
                            assert forall|idx: Seq<isize>|
                                #![trigger materialize(idx, dv)]
                                dv.len() > 0 && mr_in_range(idx, m) && mr_value(idx, m) <= mr_value(
                                    cseq,
                                    m,
                                ) && multiset_matches(materialize(idx, dv), comp) implies results.deep_view().contains(
                                materialize(idx, dv),
                            ) by {
                                if mr_value(idx, m) == mr_value(cseq, m) {
                                    lemma_mr_value_injective(idx, cseq, m);
                                    assert(!multiset_matches(materialize(idx, dv), comp));
                                } else {
                                    assert(mr_value(idx, m) <= mr_value(cpre, m));
                                }
                            }
                        }
                    }
                },
            }
        }
        self.state = State::Stopped;
        proof {
            assert forall|i: int|
                #![trigger results.deep_view()[i]]
                0 <= i < results.deep_view().len() implies multiset_matches(
                results.deep_view()[i],
                comp,
            ) && exists|idx: Seq<isize>|
                #![trigger materialize(idx, dv)]
                idx_in_range(idx, dv) && results.deep_view()[i] == materialize(idx, dv) by {
                let w = idxs[i];
                assert(mr_in_range(w, m));
                assert forall|p: int| 0 <= p < w.len() implies 0 <= #[trigger] w[p]
                    < dv[p].len() by {
                    assert(0 <= w[p] <= m[p]);
                }
                assert(idx_in_range(w, dv));
                assert(results.deep_view()[i] == materialize(w, dv));
            }
            if forall|p: int| 0 <= p < dv.len() ==> (#[trigger] dv[p]).no_duplicates() {
                assert forall|i: int, j: int|
                    0 <= i < j < results.deep_view().len() implies results.deep_view()[i]
                    != results.deep_view()[j] by {
                    assert(mr_value(idxs[i], m) < mr_value(idxs[j], m));
                    assert(idxs[i] != idxs[j]);
                    let a = idxs[i];
                    let bq = idxs[j];
                    assert(a.len() == m.len() && bq.len() == m.len());
                    if a =~= bq {
                    } else {
                        let p = choose|p: int| 0 <= p < a.len() && a[p] != bq[p];
                        assert(dv[p].no_duplicates());
                        assert(0 <= a[p] < dv[p].len());
                        assert(0 <= bq[p] < dv[p].len());
                        assert(dv[p][a[p] as int] != dv[p][bq[p] as int]);
                        assert(materialize(a, dv)[p] != materialize(bq, dv)[p]);
                    }
                }
            }
        }
        results
    }
}


/// Removing one word takes exactly its letters out of the phrase multiset.
pub proof fn lemma_phrase_chars_remove(s: Seq<Seq<char>>, j: int)
    requires
        0 <= j < s.len(),
    ensures
        phrase_chars(s).to_multiset() =~= phrase_chars(s.remove(j)).to_multiset().add(
            s[j].to_multiset(),
        ),
    decreases s.len(),
{
    crate::support::lemma_concat_to_multiset(phrase_chars(s.drop_last()), s.last());
    if j == s.len() - 1 {
        assert(s.remove(j) =~= s.drop_last());
    } else {
        let dl = s.drop_last();
        lemma_phrase_chars_remove(dl, j);
        assert(s.remove(j).drop_last() =~= dl.remove(j));
        assert(s.remove(j).last() == s.last());
        assert(s.remove(j).len() > 0);
        assert(phrase_chars(s.remove(j)) == phrase_chars(s.remove(j).drop_last())
            + s.remove(j).last());
        crate::support::lemma_concat_to_multiset(phrase_chars(dl.remove(j)), s.last());
        assert(dl[j] == s[j]);
        assert(phrase_chars(s).to_multiset() =~= phrase_chars(s.remove(j)).to_multiset().add(
            s[j].to_multiset(),
        ));
    }
}

/// Reordering the words of a tuple leaves the phrase's letter multiset
/// unchanged.
pub proof fn lemma_phrase_chars_multiset(a: Seq<Seq<char>>, b: Seq<Seq<char>>)
    requires
        a.to_multiset() == b.to_multiset(),
    ensures
        phrase_chars(a).to_multiset() == phrase_chars(b).to_multiset(),
    decreases a.len(),
{
    broadcast use vstd::seq_lib::group_to_multiset_ensures;

    a.to_multiset_ensures();
    b.to_multiset_ensures();
    if a.len() == 0 {
        assert(b.len() == 0);
    } else {
        let x = a.last();
        assert(a.contains(x));
        assert(a.to_multiset().count(x) > 0);
        assert(b.contains(x));
        let j = choose|j: int| 0 <= j < b.len() && b[j] == x;
        lemma_phrase_chars_remove(a, a.len() - 1);
        lemma_phrase_chars_remove(b, j);
        assert(a.remove(a.len() - 1) =~= a.drop_last());
        assert(a.drop_last().to_multiset() =~= a.to_multiset().remove(x));
        assert(b.remove(j).to_multiset() =~= b.to_multiset().remove(x));
        lemma_phrase_chars_multiset(a.drop_last(), b.remove(j));
        assert(phrase_chars(a).to_multiset() =~= phrase_chars(a.drop_last()).to_multiset().add(
            x.to_multiset(),
        ));
    }
}

} // verus!
