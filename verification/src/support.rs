//! Shared helpers: verified in-place sorting for the small element types the
//! search works with, and the ordering facts the rest of the crate leans on.

use vstd::prelude::*;
use vstd::relations::{sorted_by, total_ordering};
use vstd::multiset::Multiset;
use vstd::seq_lib::lemma_sorted_unique;

verus! {

/// The ordering by which length tuples are put in canonical form.
pub open spec fn usize_leq() -> spec_fn(usize, usize) -> bool {
    |x: usize, y: usize| x <= y
}

/// The ordering by which character multisets are compared.
pub open spec fn char_leq() -> spec_fn(char, char) -> bool {
    |x: char, y: char| x <= y
}

pub proof fn lemma_usize_leq_total()
    ensures
        total_ordering(usize_leq()),
{
}

pub proof fn lemma_char_leq_total()
    ensures
        total_ordering(char_leq()),
{
}

/// Two sorted sequences are equal exactly when they hold the same multiset of
/// characters.
pub proof fn lemma_sorted_chars_eq_iff_multiset_eq(a: Seq<char>, b: Seq<char>)
    requires
        sorted_by(a, char_leq()),
        sorted_by(b, char_leq()),
    ensures
        a == b <==> a.to_multiset() == b.to_multiset(),
{
    if a.to_multiset() == b.to_multiset() {
        lemma_char_leq_total();
        lemma_sorted_unique(a, b, char_leq());
    }
}

/// Swapping two positions of a sequence leaves its multiset unchanged.
pub proof fn lemma_swap_preserves_multiset<A>(s: Seq<A>, i: int, j: int)
    requires
        0 <= i < s.len(),
        0 <= j < s.len(),
    ensures
        s.update(i, s[j]).update(j, s[i]).to_multiset() == s.to_multiset(),
{
    broadcast use vstd::seq_lib::to_multiset_update;
    broadcast use vstd::seq_lib::group_to_multiset_ensures;

    let t = s.update(i, s[j]);
    if i == j {
        assert(t.update(j, s[i]) =~= s);
    } else {
        assert(t[i] == s[j]);
        assert(t.to_multiset() == s.to_multiset().insert(s[j]).remove(s[i]));
        assert(t.update(j, s[i]).to_multiset() == t.to_multiset().insert(s[i]).remove(t[j]));
        assert(t[j] == s[j]);
        assert(t.update(j, s[i]).to_multiset() =~= s.to_multiset());
    }
}

/// In-place insertion sort for a vector of `usize`.
pub fn sort_usize_vec(v: &mut Vec<usize>)
    ensures
        final(v)@.len() == old(v)@.len(),
        final(v)@.to_multiset() == old(v)@.to_multiset(),
        sorted_by(final(v)@, usize_leq()),
{
    let mut i: usize = 1;
    while i < v.len()
        invariant
            1 <= i,
            v@.len() == old(v)@.len(),
            i <= v@.len() || v@.len() <= 1,
            v@.to_multiset() == old(v)@.to_multiset(),
            forall|p: int, q: int| 0 <= p <= q < i && q < v@.len() ==> v@[p] <= v@[q],
        decreases v@.len() - i,
    {
        let mut j: usize = i;
        while j > 0 && v[j - 1] > v[j]
            invariant
                0 <= j <= i < v@.len(),
                v@.len() == old(v)@.len(),
                v@.to_multiset() == old(v)@.to_multiset(),
                forall|p: int, q: int| 0 <= p <= q <= i && q != j ==> v@[p] <= v@[q],
            decreases j,
        {
            let a = v[j - 1];
            let b = v[j];
            proof {
                lemma_swap_preserves_multiset(v@, j - 1, j as int);
            }
            v[j - 1] = b;
            v[j] = a;
            j = j - 1;
        }
        i = i + 1;
    }
    assert forall|p: int, q: int| 0 <= p <= q < v@.len() implies v@[p] <= v@[q] by {}
}

/// In-place insertion sort for a vector of characters.
pub fn sort_char_vec(v: &mut Vec<char>)
    ensures
        final(v)@.len() == old(v)@.len(),
        final(v)@.to_multiset() == old(v)@.to_multiset(),
        sorted_by(final(v)@, char_leq()),
{
    let mut i: usize = 1;
    while i < v.len()
        invariant
            1 <= i,
            v@.len() == old(v)@.len(),
            i <= v@.len() || v@.len() <= 1,
            v@.to_multiset() == old(v)@.to_multiset(),
            forall|p: int, q: int| 0 <= p <= q < i && q < v@.len() ==> v@[p] <= v@[q],
        decreases v@.len() - i,
    {
        let mut j: usize = i;
        while j > 0 && v[j - 1] > v[j]
            invariant
                0 <= j <= i < v@.len(),
                v@.len() == old(v)@.len(),
                v@.to_multiset() == old(v)@.to_multiset(),
                forall|p: int, q: int| 0 <= p <= q <= i && q != j ==> v@[p] <= v@[q],
            decreases j,
        {
            let a = v[j - 1];
            let b = v[j];
            proof {
                lemma_swap_preserves_multiset(v@, j - 1, j as int);
            }
            v[j - 1] = b;
            v[j] = a;
            j = j - 1;
        }
        i = i + 1;
    }
    assert forall|p: int, q: int| 0 <= p <= q < v@.len() implies v@[p] <= v@[q] by {}
}


/// The multiset of a concatenation is the sum of the two multisets.
pub proof fn lemma_concat_to_multiset<A>(x: Seq<A>, y: Seq<A>)
    ensures
        (x + y).to_multiset() =~= x.to_multiset().add(y.to_multiset()),
    decreases y.len(),
{
    broadcast use vstd::seq_lib::group_to_multiset_ensures;

    if y.len() == 0 {
        assert(x + y =~= x);
        y.to_multiset_ensures();
        assert(y.to_multiset() =~= Multiset::<A>::empty());
    } else {
        lemma_concat_to_multiset(x, y.drop_last());
        assert(x + y =~= (x + y.drop_last()).push(y.last()));
        (x + y.drop_last()).to_multiset_ensures();
        y.drop_last().to_multiset_ensures();
        assert(y =~= y.drop_last().push(y.last()));
        assert(y.to_multiset() == y.drop_last().push(y.last()).to_multiset());
    }
}

/// A copy of a character vector.
pub fn clone_char_vec(v: &Vec<char>) -> (r: Vec<char>)
    ensures
        r@ == v@,
{
    let mut r: Vec<char> = Vec::new();
    let mut i: usize = 0;
    while i < v.len()
        invariant
            0 <= i <= v@.len(),
            r@ =~= v@.take(i as int),
        decreases v@.len() - i,
    {
        r.push(v[i]);
        i = i + 1;
    }
    proof {
        assert(v@.take(v@.len() as int) =~= v@);
    }
    r
}

} // verus!
