//! The phrase matcher: for each word tuple that passed the multiset check,
//! enumerate its distinct orderings, hash each space-joined phrase, and mark
//! every target whose digest matches.

use crate::digest::{md5_hex, md5_hex_of};
use crate::passwords::{mark_spec, PasswordTable};
use crate::State;
use itertools::Itertools;
use vstd::prelude::*;

verus! {

/// The words of a tuple joined by single spaces.
pub open spec fn joined(ws: Seq<Seq<char>>) -> Seq<char>
    decreases ws.len(),
{
    if ws.len() == 0 {
        Seq::empty()
    } else if ws.len() == 1 {
        ws[0]
    } else {
        joined(ws.drop_last()) + seq![' '] + ws.last()
    }
}

/// A usable word tuple: at least one word, none of them empty.
pub open spec fn words_ok(ws: Seq<Seq<char>>) -> bool {
    ws.len() >= 1 && forall|i: int| 0 <= i < ws.len() ==> (#[trigger] ws[i]).len() >= 1
}

/// Some ordering of the tuple hashes to the digest.
pub open spec fn some_perm_matches(ws: Seq<Seq<char>>, digest: Seq<char>) -> bool {
    exists|p: Seq<Seq<char>>|
        #![trigger p.to_multiset()]
        p.to_multiset() == ws.to_multiset() && md5_hex_of(joined(p)) == digest
}

/// Relies on itertools' `permutations` (all orderings of the words, indexed
/// by position) composed with `unique` (duplicates dropped, first occurrence
/// kept): the result lists every distinct ordering of the tuple exactly
/// once.
#[verifier::external_body]
fn unique_permutations(combination: &Vec<String>) -> (r: Vec<Vec<String>>)
    ensures
        forall|i: int|
            0 <= i < r.deep_view().len() ==> (#[trigger] r.deep_view()[i]).to_multiset()
                == combination.deep_view().to_multiset(),
        forall|i: int, j: int|
            0 <= i < j < r.deep_view().len() ==> r.deep_view()[i] != r.deep_view()[j],
        forall|p: Seq<Seq<char>>|
            #![trigger p.to_multiset()]
            p.to_multiset() == combination.deep_view().to_multiset() ==> r.deep_view().contains(p),
{
    combination
        .iter()
        .permutations(combination.len())
        .unique()
        .map(|perm| perm.into_iter().cloned().collect::<Vec<String>>())
        .collect()
}

/// A reordering of a usable tuple is a usable tuple.
proof fn lemma_words_ok_perm(p: Seq<Seq<char>>, ws: Seq<Seq<char>>)
    requires
        p.to_multiset() == ws.to_multiset(),
        words_ok(ws),
    ensures
        words_ok(p),
{
    broadcast use vstd::seq_lib::group_to_multiset_ensures;

    p.to_multiset_ensures();
    ws.to_multiset_ensures();
    assert(p.len() == ws.len());
    assert forall|i: int| 0 <= i < p.len() implies (#[trigger] p[i]).len() >= 1 by {
        assert(p.contains(p[i]));
        assert(p.to_multiset().count(p[i]) > 0);
        assert(ws.contains(p[i]));
        let j = choose|j: int| 0 <= j < ws.len() && ws[j] == p[i];
        assert(ws[j].len() >= 1);
    }
}

/// A usable tuple joins to a non-empty phrase.
proof fn lemma_joined_nonempty(ws: Seq<Seq<char>>)
    requires
        words_ok(ws),
    ensures
        joined(ws).len() >= 1,
{
    if ws.len() == 1 {
        assert(ws[0].len() >= 1);
    }
}

/// Reads word tuples, enumerates their distinct orderings, and resolves
/// targets of the password table by digest.
pub struct PermutationsFinder {
    passwords: PasswordTable,
    state: State,
}

impl PermutationsFinder {
    /// The table of targets this finder resolves into.
    pub closed spec fn spec_passwords(self) -> PasswordTable {
        self.passwords
    }

    /// The component lifecycle state.
    pub closed spec fn spec_state(self) -> State {
        self.state
    }

    /// The finder is usable while its table invariant holds.
    pub open spec fn wf(self) -> bool {
        self.spec_passwords().wf()
    }

    pub fn new(passwords: PasswordTable) -> (f: PermutationsFinder)
        requires
            passwords.wf(),
        ensures
            f.wf(),
            f.spec_passwords() == passwords,
            f.spec_state() == State::Idle,
    {
        Self { passwords, state: State::Idle }
    }

    /// The component lifecycle state, for observation.
    pub fn state(&self) -> (r: State)
        ensures
            r == self.spec_state(),
    {
        self.state
    }

    /// Whether every target has been resolved.
    pub fn all_found(&self) -> (r: bool)
        ensures
            r == forall|j: int|
                0 <= j < self.spec_passwords()@.len() ==> (#[trigger] self.spec_passwords()@[j]).found,
    {
        let r = self.passwords.all_found();
        proof {
            assert(self.spec_passwords()@ == self.passwords@);
            if r {
                assert forall|j: int|
                    0 <= j < self.spec_passwords()@.len() implies (
                #[trigger] self.spec_passwords()@[j]).found by {
                    assert(self.passwords@[j].found);
                }
            } else {
                let j = choose|j: int| 0 <= j < self.passwords@.len() && !(#[trigger] self.passwords@[j]).found;
                assert(!self.spec_passwords()@[j].found);
            }
        }
        r
    }

    /// Hand the table back.
    pub fn into_passwords(self) -> (t: PasswordTable)
        ensures
            t == self.spec_passwords(),
    {
        self.passwords
    }

    /// Process one word tuple: hash every distinct ordering and mark every
    /// matching unresolved target.  A target ends up found exactly when it
    /// was already found or some ordering of this tuple hashes to its
    /// digest; targets found before the call are untouched.  Returns the
    /// phrases that resolved at least one target, in discovery order.
    pub fn find(&mut self, combination: &Vec<String>) -> (r: Vec<String>)
        requires
            old(self).wf(),
            words_ok(combination.deep_view()),
        ensures
            final(self).wf(),
            final(self).spec_state() == old(self).spec_state(),
            final(self).spec_passwords()@.len() == old(self).spec_passwords()@.len(),
            forall|j: int|
                0 <= j < old(self).spec_passwords()@.len() ==> (
                #[trigger] final(self).spec_passwords()@[j]).digest
                    == old(self).spec_passwords()@[j].digest,
            forall|j: int|
                0 <= j < old(self).spec_passwords()@.len() && (
                #[trigger] old(self).spec_passwords()@[j]).found ==> final(self).spec_passwords()@[j]
                    == old(self).spec_passwords()@[j],
            forall|j: int|
                0 <= j < old(self).spec_passwords()@.len() ==> ((
                #[trigger] final(self).spec_passwords()@[j]).found <==> (
                old(self).spec_passwords()@[j].found || some_perm_matches(
                    combination.deep_view(),
                    old(self).spec_passwords()@[j].digest,
                ))),
            forall|j: int|
                0 <= j < old(self).spec_passwords()@.len() && !old(self).spec_passwords()@[j].found
                    && (#[trigger] final(self).spec_passwords()@[j]).found ==> exists|
                    p: Seq<Seq<char>>,
                |
                    #![trigger p.to_multiset()]
                    p.to_multiset() == combination.deep_view().to_multiset()
                        && final(self).spec_passwords()@[j].phrase == joined(p),
    {
        let ghost cv = combination.deep_view();
        let ghost ts0 = old(self).spec_passwords()@;
        let perms = unique_permutations(combination);
        let ghost pv = perms.deep_view();
        let mut r: Vec<String> = Vec::new();
        let mut t: usize = 0;
        while t < perms.len()
            invariant
                self.wf(),
                self.spec_state() == old(self).spec_state(),
                ts0 == old(self).spec_passwords()@,
                cv == combination.deep_view(),
                pv == perms.deep_view(),
                0 <= t <= pv.len(),
                words_ok(cv),
                forall|i: int|
                    0 <= i < pv.len() ==> (#[trigger] pv[i]).to_multiset() == cv.to_multiset(),
                self.spec_passwords()@.len() == ts0.len(),
                forall|j: int|
                    0 <= j < ts0.len() ==> (#[trigger] self.spec_passwords()@[j]).digest
                        == ts0[j].digest,
                forall|j: int|
                    0 <= j < ts0.len() && (#[trigger] ts0[j]).found ==> self.spec_passwords()@[j]
                        == ts0[j],
                forall|j: int|
                    0 <= j < ts0.len() ==> ((#[trigger] self.spec_passwords()@[j]).found <==> (
                    ts0[j].found || exists|t2: int|
                        0 <= t2 < t && md5_hex_of(joined(#[trigger] pv[t2])) == ts0[j].digest)),
                forall|j: int|
                    0 <= j < ts0.len() && !ts0[j].found && (
                    #[trigger] self.spec_passwords()@[j]).found ==> exists|t2: int|
                        0 <= t2 < t && self.spec_passwords()@[j].phrase == joined(
                            #[trigger] pv[t2],
                        ),
            decreases pv.len() - t,
        {
            let phrase = join_words(&perms[t]);
            proof {
                assert(pv[t as int] == perms@[t as int].deep_view());
                lemma_words_ok_perm(pv[t as int], cv);
                lemma_joined_nonempty(pv[t as int]);
            }
            let hex = md5_hex(phrase.as_str());
            let interested = self.passwords.has_unfound(&hex);
            let ghost before = self.spec_passwords()@;
            self.passwords.mark_found(&hex, &phrase);
            proof {
                let after = self.spec_passwords()@;
                assert(after =~= mark_spec(before, hex@, phrase@));
                assert forall|j: int|
                    0 <= j < ts0.len() implies ((#[trigger] after[j]).found <==> (ts0[j].found
                    || exists|t2: int|
                    0 <= t2 < t + 1 && md5_hex_of(joined(#[trigger] pv[t2])) == ts0[j].digest)) by {
                    if after[j].found {
                        if !before[j].found {
                            assert(before[j].digest == hex@);
                            assert(md5_hex_of(joined(pv[t as int])) == ts0[j].digest);
                        }
                    }
                    if ts0[j].found {
                        assert(before[j].found);
                        assert(after[j].found);
                    }
                    if exists|t2: int|
                        0 <= t2 < t + 1 && md5_hex_of(joined(#[trigger] pv[t2])) == ts0[j].digest {
                        let t2 = choose|t2: int|
                            0 <= t2 < t + 1 && md5_hex_of(joined(#[trigger] pv[t2]))
                                == ts0[j].digest;
                        if t2 < t {
                            assert(before[j].found);
                        } else {
                            assert(before[j].digest == hex@);
                        }
                        assert(after[j].found);
                    }
                }
            }
            if interested {
                r.push(phrase);
            }
            t = t + 1;
        }
        proof {
            let tsf = self.spec_passwords()@;
            assert forall|j: int|
                0 <= j < ts0.len() implies ((#[trigger] tsf[j]).found <==> (ts0[j].found
                || some_perm_matches(cv, ts0[j].digest))) by {
                if tsf[j].found && !ts0[j].found {
                    let t2 = choose|t2: int|
                        0 <= t2 < pv.len() && md5_hex_of(joined(#[trigger] pv[t2]))
                            == ts0[j].digest;
                    assert(pv[t2].to_multiset() == cv.to_multiset());
                    assert(some_perm_matches(cv, ts0[j].digest));
                }
                if some_perm_matches(cv, ts0[j].digest) {
                    let p = choose|p: Seq<Seq<char>>|
                        #![trigger p.to_multiset()]
                        p.to_multiset() == cv.to_multiset() && md5_hex_of(joined(p))
                            == ts0[j].digest;
                    assert(pv.contains(p));
                    let t2 = choose|t2: int| 0 <= t2 < pv.len() && pv[t2] == p;
                    assert(md5_hex_of(joined(pv[t2])) == ts0[j].digest);
                    assert(tsf[j].found);
                }
            }
            assert forall|j: int|
                0 <= j < ts0.len() && !ts0[j].found && (#[trigger] tsf[j]).found implies exists|
                p: Seq<Seq<char>>,
            |
                #![trigger p.to_multiset()]
                p.to_multiset() == cv.to_multiset() && tsf[j].phrase == joined(p) by {
                let t2 = choose|t2: int|
                    0 <= t2 < pv.len() && tsf[j].phrase == joined(#[trigger] pv[t2]);
                assert(pv[t2].to_multiset() == cv.to_multiset());
            }
        }
        r
    }

    /// Process the word tuples in order until every target is resolved or
    /// the tuples run out.  A target ends up found exactly when it was
    /// already found or some ordering of some tuple hashes to its digest.
    pub fn run(&mut self, combinations: &Vec<Vec<String>>) -> (r: Vec<String>)
        requires
            old(self).wf(),
            forall|ci: int|
                0 <= ci < combinations@.len() ==> words_ok(
                    (#[trigger] combinations@[ci]).deep_view(),
                ),
        ensures
            final(self).wf(),
            final(self).spec_state() == State::Stopped,
            final(self).spec_passwords()@.len() == old(self).spec_passwords()@.len(),
            forall|j: int|
                0 <= j < old(self).spec_passwords()@.len() ==> (
                #[trigger] final(self).spec_passwords()@[j]).digest
                    == old(self).spec_passwords()@[j].digest,
            forall|j: int|
                0 <= j < old(self).spec_passwords()@.len() && (
                #[trigger] old(self).spec_passwords()@[j]).found ==> final(self).spec_passwords()@[j]
                    == old(self).spec_passwords()@[j],
            forall|j: int|
                0 <= j < old(self).spec_passwords()@.len() ==> ((
                #[trigger] final(self).spec_passwords()@[j]).found <==> (
                old(self).spec_passwords()@[j].found || exists|ci: int|
                    0 <= ci < combinations@.len() && some_perm_matches(
                        (#[trigger] combinations@[ci]).deep_view(),
                        old(self).spec_passwords()@[j].digest,
                    ))),
            forall|j: int|
                0 <= j < old(self).spec_passwords()@.len() && !old(self).spec_passwords()@[j].found
                    && (#[trigger] final(self).spec_passwords()@[j]).found ==> exists|
                    ci: int,
                    p: Seq<Seq<char>>,
                |
                    #![trigger p.to_multiset(), combinations@[ci]]
                    0 <= ci < combinations@.len() && p.to_multiset() == combinations@[ci].deep_view().to_multiset()
                        && final(self).spec_passwords()@[j].phrase == joined(p),
    {
        self.state = State::Starting;
        let ghost ts0 = old(self).spec_passwords()@;
        self.state = State::Running;
        let mut r: Vec<String> = Vec::new();
        let mut ci: usize = 0;
        while ci < combinations.len()
            invariant
                self.wf(),
                ts0 == old(self).spec_passwords()@,
                0 <= ci <= combinations@.len(),
                forall|c2: int|
                    0 <= c2 < combinations@.len() ==> words_ok(
                        (#[trigger] combinations@[c2]).deep_view(),
                    ),
                self.spec_passwords()@.len() == ts0.len(),
                forall|j: int|
                    0 <= j < ts0.len() ==> (#[trigger] self.spec_passwords()@[j]).digest
                        == ts0[j].digest,
                forall|j: int|
                    0 <= j < ts0.len() && (#[trigger] ts0[j]).found ==> self.spec_passwords()@[j]
                        == ts0[j],
                forall|j: int|
                    0 <= j < ts0.len() ==> ((#[trigger] self.spec_passwords()@[j]).found <==> (
                    ts0[j].found || exists|c2: int|
                        0 <= c2 < ci && some_perm_matches(
                            (#[trigger] combinations@[c2]).deep_view(),
                            ts0[j].digest,
                        ))),
                forall|j: int|
                    0 <= j < ts0.len() && !ts0[j].found && (
                    #[trigger] self.spec_passwords()@[j]).found ==> exists|c2: int, p: Seq<Seq<char>>|
                        #![trigger p.to_multiset(), combinations@[c2]]
                        0 <= c2 < combinations@.len() && p.to_multiset()
                            == combinations@[c2].deep_view().to_multiset()
                            && self.spec_passwords()@[j].phrase == joined(p),
            ensures
                self.wf(),
                ts0 == old(self).spec_passwords()@,
                self.spec_passwords()@.len() == ts0.len(),
                forall|j: int|
                    0 <= j < ts0.len() ==> (#[trigger] self.spec_passwords()@[j]).digest
                        == ts0[j].digest,
                forall|j: int|
                    0 <= j < ts0.len() && (#[trigger] ts0[j]).found ==> self.spec_passwords()@[j]
                        == ts0[j],
                0 <= ci <= combinations@.len(),
                ci == combinations@.len() || forall|j: int|
                    0 <= j < ts0.len() ==> (#[trigger] self.spec_passwords()@[j]).found,
                forall|j: int|
                    0 <= j < ts0.len() ==> ((#[trigger] self.spec_passwords()@[j]).found <==> (
                    ts0[j].found || exists|c2: int|
                        0 <= c2 < ci && some_perm_matches(
                            (#[trigger] combinations@[c2]).deep_view(),
                            ts0[j].digest,
                        ))),
                forall|j: int|
                    0 <= j < ts0.len() && !ts0[j].found && (
                    #[trigger] self.spec_passwords()@[j]).found ==> exists|c2: int, p: Seq<Seq<char>>|
                        #![trigger p.to_multiset(), combinations@[c2]]
                        0 <= c2 < combinations@.len() && p.to_multiset()
                            == combinations@[c2].deep_view().to_multiset()
                            && self.spec_passwords()@[j].phrase == joined(p),
            decreases combinations@.len() - ci,
        {
            if self.passwords.all_found() {
                proof {
                    assert(self.spec_passwords()@ == self.passwords@);
                    assert forall|j: int|
                        0 <= j < ts0.len() implies (#[trigger] self.spec_passwords()@[j]).found by {
                        assert(self.passwords@[j].found);
                    }
                }
                break ;
            }
            let found_now = self.find(&combinations[ci]);
            let mut fi: usize = 0;
            while fi < found_now.len()
                invariant
                    0 <= fi <= found_now@.len(),
                decreases found_now@.len() - fi,
            {
                r.push(found_now[fi].clone());
                fi = fi + 1;
            }
            ci = ci + 1;
        }
        proof {
            assert forall|j: int|
                0 <= j < ts0.len() implies ((#[trigger] self.spec_passwords()@[j]).found <==> (
                ts0[j].found || exists|c2: int|
                    0 <= c2 < combinations@.len() && some_perm_matches(
                        (#[trigger] combinations@[c2]).deep_view(),
                        ts0[j].digest,
                    ))) by {
                if self.spec_passwords()@[j].found {
                    if !ts0[j].found {
                        let c2 = choose|c2: int|
                            0 <= c2 < ci && some_perm_matches(
                                (#[trigger] combinations@[c2]).deep_view(),
                                ts0[j].digest,
                            );
                        assert(some_perm_matches(combinations@[c2].deep_view(), ts0[j].digest));
                    }
                } else {
                    assert(ci == combinations@.len());
                }
            }
        }
        self.state = State::Stopped;
        r
    }
}

/// The words joined by single spaces.
fn join_words(words: &Vec<String>) -> (r: String)
    ensures
        r@ == joined(words.deep_view()),
{
    let ghost dv = words.deep_view();
    let mut r = String::new();
    let mut i: usize = 0;
    while i < words.len()
        invariant
            0 <= i <= dv.len(),
            dv == words.deep_view(),
            r@ == joined(dv.take(i as int)),
        decreases dv.len() - i,
    {
        if i > 0 {
            r.append(" ");
        }
        r.append(words[i].as_str());
        proof {
            reveal_strlit(" ");
            assert((" ")@ =~= seq![' ']);
            let now = dv.take(i + 1);
            assert(now.drop_last() =~= dv.take(i as int));
            assert(now.last() == dv[i as int]);
            if i == 0 {
                assert(joined(now) == dv[0]);
                assert(r@ =~= dv[0]);
            } else {
                assert(joined(now) == joined(dv.take(i as int)) + seq![' '] + dv[i as int]);
                assert(r@ =~= joined(dv.take(i as int)) + seq![' '] + dv[i as int]);
            }
        }
        i = i + 1;
    }
    proof {
        assert(dv.take(dv.len() as int) =~= dv);
    }
    r
}

} // verus!
