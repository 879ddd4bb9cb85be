//! The shared table of target digests: each target carries the digest it
//! waits for, the recovered phrase once found, and a found flag that makes
//! exactly one transition.

use crate::digest::md5_hex_of;
use vstd::prelude::*;

verus! {

/// The abstract state of one target.
pub struct TargetModel {
    pub digest: Seq<char>,
    pub phrase: Seq<char>,
    pub found: bool,
}

/// One MD5 digest the search aims to resolve, with the recovered phrase.
pub struct Password {
    phrase: String,
    digest: String,
    found: bool,
}

impl View for Password {
    type V = TargetModel;

    closed spec fn view(&self) -> TargetModel {
        TargetModel { digest: self.digest@, phrase: self.phrase@, found: self.found }
    }
}

impl Password {
    /// A fresh, unresolved target for one digest.
    pub fn new(digest: String) -> (p: Password)
        ensures
            p@.digest == digest@,
            p@.phrase =~= Seq::<char>::empty(),
            !p@.found,
    {
        Password { phrase: String::new(), digest, found: false }
    }
}

/// The table state after marking: every unresolved target holding `digest`
/// becomes found with `phrase`; everything else is untouched.
pub open spec fn mark_spec(
    ts: Seq<TargetModel>,
    digest: Seq<char>,
    phrase: Seq<char>,
) -> Seq<TargetModel> {
    Seq::new(
        ts.len(),
        |i: int|
            if ts[i].digest == digest && !ts[i].found {
                TargetModel { digest: ts[i].digest, phrase: phrase, found: true }
            } else {
                ts[i]
            },
    )
}

/// Marking is idempotent: marking the same digest with the same phrase a
/// second time leaves the table exactly as after the first call.
pub proof fn lemma_mark_found_idempotent(ts: Seq<TargetModel>, digest: Seq<char>, phrase: Seq<char>)
    ensures
        mark_spec(mark_spec(ts, digest, phrase), digest, phrase) =~= mark_spec(ts, digest, phrase),
{
}

/// The ordered sequence of targets, mutated only under `mark_found`.
pub struct PasswordTable {
    targets: Vec<Password>,
}

impl View for PasswordTable {
    type V = Seq<TargetModel>;

    closed spec fn view(&self) -> Seq<TargetModel> {
        Seq::new(self.targets@.len(), |i: int| self.targets@[i]@)
    }
}

impl PasswordTable {
    /// The table invariant: once a target is found, its phrase is non-empty
    /// and hashes to its digest.
    pub open spec fn wf(self) -> bool {
        forall|i: int|
            0 <= i < self@.len() && (#[trigger] self@[i]).found ==> self@[i].phrase.len() > 0
                && md5_hex_of(self@[i].phrase) == self@[i].digest
    }

    /// A table of fresh targets.
    pub fn new(targets: Vec<Password>) -> (t: PasswordTable)
        requires
            forall|i: int| 0 <= i < targets@.len() ==> !(#[trigger] targets@[i])@.found,
        ensures
            t.wf(),
            t@.len() == targets@.len(),
            forall|i: int| 0 <= i < targets@.len() ==> t@[i] == (#[trigger] targets@[i])@,
    {
        let t = PasswordTable { targets };
        proof {
            assert forall|i: int| 0 <= i < t@.len() implies t@[i] == (#[trigger] t.targets@[i])@ by {}
        }
        t
    }

    /// Number of targets.
    pub fn len(&self) -> (n: usize)
        ensures
            n == self@.len(),
    {
        self.targets.len()
    }

    /// Mark every unresolved target holding this digest as found, recording
    /// the phrase.  Idempotent: see `lemma_mark_found_idempotent`.
    pub fn mark_found(&mut self, digest: &String, phrase: &String)
        requires
            old(self).wf(),
            digest@ == md5_hex_of(phrase@),
            phrase@.len() > 0,
        ensures
            final(self).wf(),
            final(self)@ =~= mark_spec(old(self)@, digest@, phrase@),
    {
        let ghost ts0 = self@;
        let n = self.targets.len();
        let mut i: usize = 0;
        while i < n
            invariant
                0 <= i <= n,
                n == self@.len(),
                self@.len() == ts0.len(),
                digest@ == md5_hex_of(phrase@),
                phrase@.len() > 0,
                forall|j: int|
                    0 <= j < ts0.len() && (#[trigger] ts0[j]).found ==> ts0[j].phrase.len() > 0
                        && md5_hex_of(ts0[j].phrase) == ts0[j].digest,
                forall|j: int|
                    i <= j < ts0.len() ==> #[trigger] self@[j] == ts0[j],
                forall|j: int|
                    0 <= j < i ==> #[trigger] self@[j] == mark_spec(ts0, digest@, phrase@)[j],
            decreases n - i,
        {
            let hit = !self.targets[i].found && self.targets[i].digest.eq(digest);
            let ghost before = self@;
            if hit {
                let d = self.targets[i].digest.clone();
                self.targets[i] = Password { phrase: phrase.clone(), digest: d, found: true };
            }
            proof {
                assert forall|j: int|
                    0 <= j < self@.len() && j != i implies #[trigger] self@[j] == before[j] by {
                    assert(self@[j] == self.targets@[j]@);
                }
                assert(before[i as int] == ts0[i as int]);
                if hit {
                    assert(self@[i as int].digest == ts0[i as int].digest);
                    assert(self@[i as int].phrase == phrase@);
                    assert(self@[i as int].found);
                    assert(self@[i as int] == mark_spec(ts0, digest@, phrase@)[i as int]);
                } else {
                    assert(self@[i as int] == before[i as int]);
                    assert(self@[i as int] == mark_spec(ts0, digest@, phrase@)[i as int]);
                }
            }
            i = i + 1;
        }
    }

    /// Whether some target with this digest is still unresolved.
    pub fn has_unfound(&self, digest: &String) -> (r: bool)
        ensures
            r == exists|j: int|
                0 <= j < self@.len() && (#[trigger] self@[j]).digest == digest@ && !self@[j].found,
    {
        let mut i: usize = 0;
        while i < self.targets.len()
            invariant
                0 <= i <= self@.len(),
                self@.len() == self.targets@.len(),
                forall|j: int|
                    0 <= j < i ==> !((#[trigger] self@[j]).digest == digest@ && !self@[j].found),
            decreases self@.len() - i,
        {
            if !self.targets[i].found && self.targets[i].digest.eq(digest) {
                proof {
                    assert(self@[i as int].digest == digest@ && !self@[i as int].found);
                }
                return true;
            }
            i = i + 1;
        }
        false
    }

    /// Whether every target has been resolved.
    pub fn all_found(&self) -> (r: bool)
        ensures
            r == forall|j: int| 0 <= j < self@.len() ==> (#[trigger] self@[j]).found,
    {
        let mut i: usize = 0;
        while i < self.targets.len()
            invariant
                0 <= i <= self@.len(),
                self@.len() == self.targets@.len(),
                forall|j: int| 0 <= j < i ==> (#[trigger] self@[j]).found,
            decreases self@.len() - i,
        {
            if !self.targets[i].found {
                proof {
                    assert(!self@[i as int].found);
                }
                return false;
            }
            i = i + 1;
        }
        true
    }

    /// A copy of the current phrases, in target order; empty for unresolved
    /// targets.
    pub fn snapshot_phrases(&self) -> (r: Vec<String>)
        ensures
            r.deep_view() =~= self@.map_values(|t: TargetModel| t.phrase),
    {
        let mut r: Vec<String> = Vec::new();
        let mut i: usize = 0;
        while i < self.targets.len()
            invariant
                0 <= i <= self@.len(),
                self@.len() == self.targets@.len(),
                r.deep_view() =~= self@.map_values(|t: TargetModel| t.phrase).take(i as int),
            decreases self@.len() - i,
        {
            let ghost before = r.deep_view();
            r.push(self.targets[i].phrase.clone());
            proof {
                assert(r.deep_view() =~= before.push(self.targets@[i as int].phrase@));
                assert(self@[i as int].phrase == self.targets@[i as int].phrase@);
                assert(r.deep_view() =~= self@.map_values(|t: TargetModel| t.phrase).take(i + 1));
            }
            i = i + 1;
        }
        proof {
            let all = self@.map_values(|t: TargetModel| t.phrase);
            assert(all.take(all.len() as int) =~= all);
        }
        r
    }
}

} // verus!
