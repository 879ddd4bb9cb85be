//! A passphrase-recovery library: exhaustive search for multi-word phrases,
//! drawn from a dictionary, whose letters form a prescribed multiset and whose
//! MD5 digest matches one of a set of targets.

pub mod combination_finder;
pub mod digest;
pub mod dictionary;
pub mod passwords;
pub mod combination_generator;
pub mod permutations_finder;
pub mod support;

use crate::combination_finder::{
    idx_in_range, materialize, multiset_matches, phrase_chars, CombinationFinder,
};
use crate::combination_generator::{
    canonical_tuple, lemma_seq_sum_snoc, lowest_tuple, seq_sum, CombinationGenerator, SearchBounds,
};
use crate::dictionary::{
    dictionary_models, from_admissible_line, lemma_bucket_len_le_lines, lemma_line_word_stored,
    lemma_stores_word_elim, Dictionary,
};
use crate::passwords::PasswordTable;
use crate::permutations_finder::{joined, some_perm_matches, words_ok, PermutationsFinder};
use crate::support::usize_leq;
use vstd::prelude::*;
use vstd::relations::sorted_by;

verus! {

/// Lifecycle of a long-running component: transitions are monotonic,
/// `Idle` → `Starting` → `Running` → `Stopped`.
#[derive(Clone, Copy, Debug, PartialEq, Eq, Structural)]
pub enum State {
    Idle,
    Starting,
    Running,
    Stopped,
}


/// The word lengths of a tuple, position by position.
pub open spec fn word_lengths(ws: Seq<Seq<char>>) -> Seq<usize> {
    Seq::new(ws.len(), |i: int| ws[i].len() as usize)
}

/// A candidate phrase shape over the dictionary: a non-empty, length-sorted
/// tuple of at most `max_words` trimmed admissible words, each of an
/// admissible length, whose letters form exactly the comparator multiset.
pub open spec fn dictionary_tuple(
    ws: Seq<Seq<char>>,
    lines: Seq<Seq<char>>,
    min_word_len: usize,
    max_word_len: usize,
    max_words: usize,
    comparator: Seq<char>,
) -> bool {
    &&& 1 <= ws.len() <= max_words
    &&& sorted_by(word_lengths(ws), usize_leq())
    &&& forall|i: int|
        0 <= i < ws.len() ==> min_word_len <= (#[trigger] ws[i]).len() <= max_word_len
    &&& forall|i: int|
        0 <= i < ws.len() ==> from_admissible_line(
            #[trigger] ws[i],
            lines,
            min_word_len,
            max_word_len,
            comparator,
        )
    &&& phrase_chars(ws).to_multiset() == comparator.to_multiset()
}

/// The concatenated phrase is as long as the word lengths sum.
proof fn lemma_phrase_len(ws: Seq<Seq<char>>)
    requires
        forall|i: int| 0 <= i < ws.len() ==> (#[trigger] ws[i]).len() <= usize::MAX,
    ensures
        phrase_chars(ws).len() == seq_sum(word_lengths(ws)),
    decreases ws.len(),
{
    if ws.len() > 0 {
        let dl = ws.drop_last();
        assert forall|i: int| 0 <= i < dl.len() implies (#[trigger] dl[i]).len() <= usize::MAX by {
            assert(dl[i] == ws[i]);
        }
        lemma_phrase_len(dl);
        assert(word_lengths(ws).drop_last() =~= word_lengths(dl));
        lemma_seq_sum_snoc(word_lengths(ws));
        assert(word_lengths(ws).last() == ws.last().len() as usize);
    }
}

/// Drive the whole search: build the dictionary from the wordlist lines,
/// enumerate length compositions, for each one enumerate and prune word
/// tuples, and test the orderings of each surviving tuple against the
/// unresolved targets, until every target is resolved or the composition
/// space is exhausted.
///
/// Targets found on entry are untouched.  Every newly resolved target ends
/// up with a phrase that joins, with single spaces, between one and
/// `max_words` dictionary words whose letters form exactly the comparator
/// multiset — and, by the table invariant, hashes to the target's digest.
///
/// Conversely, when the wordlist is indexable and the comparator is as long
/// as the target phrase, the search is exhaustive: for every length-sorted
/// tuple of dictionary words that meets the constraints — other than one
/// shaped as the all-minimum composition, which the composer's odometer
/// starts past — a target whose digest matches some ordering of that tuple
/// is resolved by the time `run` returns.
pub fn run(
    wordlist: &Vec<String>,
    min_word_len: usize,
    max_word_len: usize,
    comparator: Vec<char>,
    target_length: usize,
    max_words: usize,
    passwords: PasswordTable,
) -> (t: PasswordTable)
    requires
        passwords.wf(),
        1 <= min_word_len <= max_word_len,
        1 <= max_words,
        max_words * max_word_len <= usize::MAX,
    ensures
        t.wf(),
        t@.len() == passwords@.len(),
        forall|j: int|
            0 <= j < passwords@.len() ==> (#[trigger] t@[j]).digest == passwords@[j].digest,
        forall|j: int|
            0 <= j < passwords@.len() && (#[trigger] passwords@[j]).found ==> t@[j]
                == passwords@[j],
        forall|j: int|
            0 <= j < passwords@.len() && !passwords@[j].found && (#[trigger] t@[j]).found
                ==> exists|ws: Seq<Seq<char>>|
                #![trigger joined(ws)]
                {
                    &&& 1 <= ws.len() <= max_words
                    &&& forall|wi: int|
                        0 <= wi < ws.len() ==> from_admissible_line(
                            #[trigger] ws[wi],
                            wordlist.deep_view(),
                            min_word_len,
                            max_word_len,
                            comparator@,
                        )
                    &&& phrase_chars(ws).to_multiset() == comparator@.to_multiset()
                    &&& t@[j].phrase == joined(ws)
                },
        (wordlist.deep_view().len() <= isize::MAX && comparator@.len() == target_length)
            ==> forall|j: int, ws: Seq<Seq<char>>|
            #![trigger t@[j], word_lengths(ws)]
            0 <= j < passwords@.len() && dictionary_tuple(
                ws,
                wordlist.deep_view(),
                min_word_len,
                max_word_len,
                max_words,
                comparator@,
            ) && word_lengths(ws) != lowest_tuple(ws.len(), min_word_len) && some_perm_matches(
                ws,
                passwords@[j].digest,
            ) ==> t@[j].found,
{
    let ghost lines = wordlist.deep_view();
    let ghost comp = comparator@;
    let ghost ts0 = passwords@;
    let dictionary = Dictionary::new(wordlist, min_word_len, max_word_len, &comparator);
    let ghost dictm = dictionary.spec_buckets();
    let mut generator = CombinationGenerator::new(
        target_length,
        min_word_len,
        max_word_len,
        max_words,
    );
    let ghost bounds = generator.spec_bounds();
    let mut pf = PermutationsFinder::new(passwords);
    proof {
        assert(generator.emitted().len() == 0);
    }
    loop
        invariant
            pf.wf(),
            lines == wordlist.deep_view(),
            comp == comparator@,
            dictm == dictionary.spec_buckets(),
            dictionary_models(dictm, lines, min_word_len, max_word_len, comp),
            generator.wf(),
            generator.spec_bounds() == bounds,
            bounds == (SearchBounds {
                min_word_len,
                max_word_len,
                target_len: target_length,
                max_words,
            }),
            1 <= min_word_len <= max_word_len,
            1 <= max_words,
            ts0 == passwords@,
            pf.spec_passwords()@.len() == ts0.len(),
            forall|j: int|
                0 <= j < ts0.len() ==> (#[trigger] pf.spec_passwords()@[j]).digest
                    == ts0[j].digest,
            forall|j: int|
                0 <= j < ts0.len() && (#[trigger] ts0[j]).found ==> pf.spec_passwords()@[j]
                    == ts0[j],
            forall|j: int|
                0 <= j < ts0.len() && !ts0[j].found && (
                #[trigger] pf.spec_passwords()@[j]).found ==> exists|ws: Seq<Seq<char>>|
                    #![trigger joined(ws)]
                    {
                        &&& 1 <= ws.len() <= max_words
                        &&& forall|wi: int|
                            0 <= wi < ws.len() ==> from_admissible_line(
                                #[trigger] ws[wi],
                                lines,
                                min_word_len,
                                max_word_len,
                                comp,
                            )
                        &&& phrase_chars(ws).to_multiset() == comp.to_multiset()
                        &&& pf.spec_passwords()@[j].phrase == joined(ws)
                    },
            (lines.len() <= isize::MAX && comp.len() == target_length) ==> forall|
                j: int,
                ws: Seq<Seq<char>>,
            |
                #![trigger word_lengths(ws), pf.spec_passwords()@[j]]
                0 <= j < ts0.len() && dictionary_tuple(
                    ws,
                    lines,
                    min_word_len,
                    max_word_len,
                    max_words,
                    comp,
                ) && generator.emitted().contains(word_lengths(ws)) && some_perm_matches(
                    ws,
                    ts0[j].digest,
                ) ==> pf.spec_passwords()@[j].found,
        ensures
            pf.wf(),
            pf.spec_passwords()@.len() == ts0.len(),
            forall|j: int|
                0 <= j < ts0.len() ==> (#[trigger] pf.spec_passwords()@[j]).digest
                    == ts0[j].digest,
            forall|j: int|
                0 <= j < ts0.len() && (#[trigger] ts0[j]).found ==> pf.spec_passwords()@[j]
                    == ts0[j],
            forall|j: int|
                0 <= j < ts0.len() && !ts0[j].found && (
                #[trigger] pf.spec_passwords()@[j]).found ==> exists|ws: Seq<Seq<char>>|
                    #![trigger joined(ws)]
                    {
                        &&& 1 <= ws.len() <= max_words
                        &&& forall|wi: int|
                            0 <= wi < ws.len() ==> from_admissible_line(
                                #[trigger] ws[wi],
                                lines,
                                min_word_len,
                                max_word_len,
                                comp,
                            )
                        &&& phrase_chars(ws).to_multiset() == comp.to_multiset()
                        &&& pf.spec_passwords()@[j].phrase == joined(ws)
                    },
            (lines.len() <= isize::MAX && comp.len() == target_length) ==> forall|
                j: int,
                ws: Seq<Seq<char>>,
            |
                #![trigger word_lengths(ws), pf.spec_passwords()@[j]]
                0 <= j < ts0.len() && dictionary_tuple(
                    ws,
                    lines,
                    min_word_len,
                    max_word_len,
                    max_words,
                    comp,
                ) && generator.emitted().contains(word_lengths(ws)) && some_perm_matches(
                    ws,
                    ts0[j].digest,
                ) ==> pf.spec_passwords()@[j].found,
            (forall|j: int| 0 <= j < ts0.len() ==> (#[trigger] pf.spec_passwords()@[j]).found)
                || (forall|sq: Seq<usize>|
                canonical_tuple(sq, bounds) && sq != lowest_tuple(sq.len(), min_word_len)
                    ==> generator.emitted().contains(sq)),
        decreases generator.measure() + 1,
    {
        if pf.all_found() {
            break ;
        }
        let ghost emitted_pre = generator.emitted();
        let stepped = generator.next();
        match stepped {
            None => {
                break ;
            },
            Some(c) => {
                proof {
                    assert(canonical_tuple(c@, bounds));
                }
                let mut words: Vec<Vec<String>> = Vec::new();
                let ghost mut wkeys: Seq<usize> = Seq::empty();
                let mut ok = true;
                let mut wi: usize = 0;
                while wi < c.len()
                    invariant
                        0 <= wi <= c@.len(),
                        dictm == dictionary.spec_buckets(),
                        dictionary_models(dictm, lines, min_word_len, max_word_len, comp),
                        canonical_tuple(c@, bounds),
                        bounds == (SearchBounds {
                            min_word_len,
                            max_word_len,
                            target_len: target_length,
                            max_words,
                        }),
                        ok ==> words@.len() == wi,
                        ok ==> wkeys.len() == wi,
                        ok ==> forall|p: int|
                            0 <= p < wi ==> #[trigger] wkeys[p] == c@[p],
                        ok ==> forall|p: int|
                            0 <= p < wi ==> dictm.contains_key(#[trigger] wkeys[p]),
                        ok ==> forall|p: int|
                            0 <= p < wi ==> (#[trigger] words@[p]).deep_view()
                                == dictm[wkeys[p]].deep_view(),
                        ok ==> forall|p: int|
                            0 <= p < wi ==> 1 <= (#[trigger] words@[p])@.len() <= isize::MAX,
                        !ok ==> exists|p: int|
                            0 <= p < c@.len() && (!dictm.contains_key(#[trigger] c@[p])
                                || dictm[c@[p]]@.len() > isize::MAX || dictm[c@[p]]@.len() < 1),
                    decreases c@.len() - wi,
                {
                    let key = c[wi];
                    let looked = dictionary.get(&key);
                    match looked {
                        Some(list) => {
                            if list.len() <= (isize::MAX as usize) && list.len() >= 1 {
                                proof {
                                    wkeys = wkeys.push(key);
                                }
                                words.push(list);
                            } else {
                                proof {
                                    assert(list.deep_view().len() == dictm[key].deep_view().len());
                                    assert(dictm[c@[wi as int]]@.len() > isize::MAX
                                        || dictm[c@[wi as int]]@.len() < 1);
                                }
                                ok = false;
                            }
                        },
                        None => {
                            proof {
                                assert(!dictm.contains_key(c@[wi as int]));
                            }
                            ok = false;
                        },
                    }
                    wi = wi + 1;
                }
                if ok && words.len() == c.len() {
                    let ghost wdv = words.deep_view();
                    proof {
                        assert forall|p: int|
                            0 <= p < words@.len() implies 1 <= ((#[trigger] words@[p])@).len()
                            <= isize::MAX by {}
                    }
                    let mut finder = CombinationFinder::new(
                        words,
                        crate::support::clone_char_vec(&comparator),
                    );
                    let combos = finder.run();
                    proof {
                        assert forall|i2: int|
                            0 <= i2 < combos@.len() implies words_ok(
                            (#[trigger] combos@[i2]).deep_view(),
                        ) by {
                            assert(combos.deep_view()[i2] == combos@[i2].deep_view());
                            let cdv = combos@[i2].deep_view();
                            assert(multiset_matches(cdv, comp) && exists|idx: Seq<isize>|
                                #![trigger materialize(idx, wdv)]
                                idx_in_range(idx, wdv) && cdv == materialize(idx, wdv));
                            let idx = choose|idx: Seq<isize>|
                                #![trigger materialize(idx, wdv)]
                                idx_in_range(idx, wdv) && cdv == materialize(idx, wdv);
                            assert(cdv.len() == idx.len() == wdv.len());
                            assert(wdv.len() == c@.len());
                            assert(c@.len() >= 1);
                            assert forall|p: int| 0 <= p < cdv.len() implies (
                            #[trigger] cdv[p]).len() >= 1 by {
                                assert(cdv[p] == wdv[p][idx[p] as int]);
                                assert(wdv[p] == dictm[wkeys[p]].deep_view());
                                assert(wdv[p][idx[p] as int] == dictm[wkeys[p]]@[idx[p] as int]@);
                                assert(dictm.contains_key(wkeys[p]));
                                assert(dictm[wkeys[p]]@[idx[p] as int]@.len() == wkeys[p]);
                                assert(wkeys[p] == c@[p]);
                                assert(min_word_len <= c@[p]);
                            }
                        }
                    }
                    let ghost before_batch = pf.spec_passwords()@;
                    let found_now = pf.run(&combos);
                    proof {
                        assert forall|j: int|
                            0 <= j < ts0.len() && !ts0[j].found && (
                        #[trigger] pf.spec_passwords()@[j]).found implies exists|
                            ws: Seq<Seq<char>>,
                        |
                            #![trigger joined(ws)]
                            {
                                &&& 1 <= ws.len() <= max_words
                                &&& forall|wi2: int|
                                    0 <= wi2 < ws.len() ==> from_admissible_line(
                                        #[trigger] ws[wi2],
                                        lines,
                                        min_word_len,
                                        max_word_len,
                                        comp,
                                    )
                                &&& phrase_chars(ws).to_multiset() == comp.to_multiset()
                                &&& pf.spec_passwords()@[j].phrase == joined(ws)
                            } by {
                            if before_batch[j].found {
                                assert(pf.spec_passwords()@[j] == before_batch[j]);
                            } else {
                                let (ci, p): (int, Seq<Seq<char>>) = choose|
                                    ci: int,
                                    p: Seq<Seq<char>>,
                                |
                                    #![trigger p.to_multiset(), combos@[ci]]
                                    0 <= ci < combos@.len() && p.to_multiset()
                                        == combos@[ci].deep_view().to_multiset() && pf.spec_passwords()@[j].phrase
                                        == joined(p);
                                let cdv = combos@[ci].deep_view();
                                assert(combos.deep_view()[ci] == cdv);
                                assert(multiset_matches(cdv, comp) && exists|idx: Seq<isize>|
                                    #![trigger materialize(idx, wdv)]
                                    idx_in_range(idx, wdv) && cdv == materialize(idx, wdv));
                                let idx = choose|idx: Seq<isize>|
                                    #![trigger materialize(idx, wdv)]
                                    idx_in_range(idx, wdv) && cdv == materialize(idx, wdv);
                                p.to_multiset_ensures();
                                cdv.to_multiset_ensures();
                                assert(p.len() == cdv.len());
                                assert(cdv.len() == wdv.len() == c@.len());
                                assert(1 <= p.len() <= max_words);
                                crate::combination_finder::lemma_phrase_chars_multiset(p, cdv);
                                assert(phrase_chars(p).to_multiset() == comp.to_multiset());
                                assert forall|wi2: int|
                                    0 <= wi2 < p.len() implies from_admissible_line(
                                    #[trigger] p[wi2],
                                    lines,
                                    min_word_len,
                                    max_word_len,
                                    comp,
                                ) by {
                                    assert(p.contains(p[wi2]));
                                    assert(p.to_multiset().count(p[wi2]) > 0);
                                    assert(cdv.contains(p[wi2]));
                                    let pos = choose|pos: int|
                                        0 <= pos < cdv.len() && cdv[pos] == p[wi2];
                                    assert(cdv[pos] == wdv[pos][idx[pos] as int]);
                                    assert(wdv[pos] == dictm[wkeys[pos]].deep_view());
                                    assert(dictm.contains_key(wkeys[pos]));
                                    assert(0 <= idx[pos] < wdv[pos].len());
                                    assert(wdv[pos][idx[pos] as int]
                                        == dictm[wkeys[pos]]@[idx[pos] as int]@);
                                    assert(from_admissible_line(
                                        dictm[wkeys[pos]]@[idx[pos] as int]@,
                                        lines,
                                        min_word_len,
                                        max_word_len,
                                        comp,
                                    ));
                                }
                                assert(joined(p) == joined(p));
                            }
                        }
                    }

                    proof {
                        if lines.len() <= isize::MAX && comp.len() == target_length {
                            assert forall|j: int, ws: Seq<Seq<char>>|
                                #![trigger word_lengths(ws), pf.spec_passwords()@[j]]
                                0 <= j < ts0.len() && dictionary_tuple(
                                    ws,
                                    lines,
                                    min_word_len,
                                    max_word_len,
                                    max_words,
                                    comp,
                                ) && generator.emitted().contains(word_lengths(ws))
                                    && some_perm_matches(ws, ts0[j].digest)
                                implies pf.spec_passwords()@[j].found by {
                                let lw = word_lengths(ws);
                                if emitted_pre.contains(lw) {
                                    assert(before_batch[j].found);
                                } else {
                                    assert(generator.emitted() =~= emitted_pre.push(c@));
                                    let ei = choose|ei: int|
                                        0 <= ei < generator.emitted().len()
                                            && generator.emitted()[ei] == lw;
                                    if ei < emitted_pre.len() {
                                        assert(emitted_pre[ei] == lw);
                                        assert(emitted_pre.contains(lw));
                                    }
                                    assert(lw == c@);
                                    assert(ws.len() == c@.len());
                                    let idx = Seq::new(
                                        c@.len(),
                                        |pos: int|
                                            (choose|bi: int|
                                                0 <= bi < dictm[c@[pos]]@.len() && (
                                                #[trigger] dictm[c@[pos]]@[bi])@ == ws[pos])
                                                as isize,
                                    );
                                    assert forall|pos: int| 0 <= pos < c@.len() implies {
                                        &&& dictm.contains_key(#[trigger] c@[pos])
                                        &&& 0 <= idx[pos] < dictm[c@[pos]]@.len()
                                        &&& dictm[c@[pos]]@[idx[pos] as int]@ == ws[pos]
                                    } by {
                                        assert(from_admissible_line(
                                            ws[pos],
                                            lines,
                                            min_word_len,
                                            max_word_len,
                                            comp,
                                        ));
                                        lemma_line_word_stored(
                                            dictm,
                                            lines,
                                            min_word_len,
                                            max_word_len,
                                            comp,
                                            ws[pos],
                                        );
                                        lemma_stores_word_elim(dictm, ws[pos]);
                                        assert(lw[pos] == ws[pos].len() as usize);
                                        assert(ws[pos].len() as usize == c@[pos]);
                                        let bi = choose|bi: int|
                                            0 <= bi < dictm[c@[pos]]@.len() && (
                                            #[trigger] dictm[c@[pos]]@[bi])@ == ws[pos];
                                        assert(exists|bi2: int|
                                            0 <= bi2 < dictm[ws[pos].len() as usize]@.len() && (
                                            #[trigger] dictm[ws[pos].len() as usize]@[bi2])@
                                                == ws[pos]);
                                        assert(0 <= bi < dictm[c@[pos]]@.len());
                                        assert(wkeys[pos] == c@[pos]);
                                        assert(words@[pos].deep_view()
                                            == dictm[wkeys[pos]].deep_view());
                                        assert(dictm[c@[pos]]@.len() == words@[pos]@.len());
                                        assert(words@[pos]@.len() <= isize::MAX);
                                        assert(idx[pos] == bi);
                                    }
                                    assert(idx_in_range(idx, wdv)) by {
                                        assert(idx.len() == wdv.len());
                                        assert forall|pos: int|
                                            0 <= pos < idx.len() implies 0 <= #[trigger] idx[pos]
                                            < wdv[pos].len() by {
                                            assert(wdv[pos] == dictm[wkeys[pos]].deep_view());
                                            assert(wdv[pos].len() == dictm[c@[pos]]@.len());
                                        }
                                    }
                                    assert(materialize(idx, wdv) =~= ws) by {
                                        assert forall|pos: int|
                                            0 <= pos < ws.len() implies #[trigger] materialize(
                                            idx,
                                            wdv,
                                        )[pos] == ws[pos] by {
                                            assert(wdv[pos] == dictm[wkeys[pos]].deep_view());
                                            assert(wdv[pos][idx[pos] as int]
                                                == dictm[c@[pos]]@[idx[pos] as int]@);
                                        }
                                    }
                                    assert(materialize(idx, wdv) == ws);
                                    assert(multiset_matches(ws, comp));
                                    assert(wdv.len() == c@.len() >= 1);
                                    assert(combos.deep_view().contains(materialize(idx, wdv)));
                                    assert(combos.deep_view().contains(ws));
                                    let ci2 = choose|ci2: int|
                                        0 <= ci2 < combos.deep_view().len()
                                            && combos.deep_view()[ci2] == ws;
                                    assert((#[trigger] combos@[ci2]).deep_view() == ws);
                                    assert(before_batch[j].digest == ts0[j].digest);
                                    assert(some_perm_matches(
                                        combos@[ci2].deep_view(),
                                        before_batch[j].digest,
                                    ));
                                    assert(pf.spec_passwords()@[j].found);
                                }
                            }
                        }
                    }
                } else {
                    proof {
                        if ok {
                            assert(words@.len() == c@.len());
                        }
                        assert(!ok);
                        if lines.len() <= isize::MAX && comp.len() == target_length {
                            assert forall|j: int, ws: Seq<Seq<char>>|
                                #![trigger word_lengths(ws), pf.spec_passwords()@[j]]
                                0 <= j < ts0.len() && dictionary_tuple(
                                    ws,
                                    lines,
                                    min_word_len,
                                    max_word_len,
                                    max_words,
                                    comp,
                                ) && generator.emitted().contains(word_lengths(ws))
                                    && some_perm_matches(ws, ts0[j].digest)
                                implies pf.spec_passwords()@[j].found by {
                                let lw = word_lengths(ws);
                                if emitted_pre.contains(lw) {
                                    assert(pf.spec_passwords()@[j].found);
                                } else {
                                    assert(generator.emitted() =~= emitted_pre.push(c@));
                                    let ei = choose|ei: int|
                                        0 <= ei < generator.emitted().len()
                                            && generator.emitted()[ei] == lw;
                                    if ei < emitted_pre.len() {
                                        assert(emitted_pre[ei] == lw);
                                        assert(emitted_pre.contains(lw));
                                    }
                                    assert(lw == c@);
                                    assert(ws.len() == c@.len());
                                    let bp = choose|bp: int|
                                        0 <= bp < c@.len() && (!dictm.contains_key(
                                            #[trigger] c@[bp],
                                        ) || dictm[c@[bp]]@.len() > isize::MAX
                                            || dictm[c@[bp]]@.len() < 1);
                                    assert(from_admissible_line(
                                        ws[bp],
                                        lines,
                                        min_word_len,
                                        max_word_len,
                                        comp,
                                    ));
                                    lemma_line_word_stored(
                                        dictm,
                                        lines,
                                        min_word_len,
                                        max_word_len,
                                        comp,
                                        ws[bp],
                                    );
                                    lemma_stores_word_elim(dictm, ws[bp]);
                                    assert(lw[bp] == ws[bp].len() as usize);
                                    assert(ws[bp].len() as usize == c@[bp]);
                                    assert(dictm.contains_key(c@[bp]));
                                    lemma_bucket_len_le_lines(
                                        dictm,
                                        lines,
                                        min_word_len,
                                        max_word_len,
                                        comp,
                                        c@[bp],
                                    );
                                    assert(dictm[c@[bp]]@.len() <= lines.len());
                                    assert(1 <= dictm[c@[bp]]@.len());
                                    assert(false);
                                }
                            }
                        }
                    }
                }
            },
        }
    }
    proof {
        if wordlist.deep_view().len() <= isize::MAX && comparator@.len() == target_length {
            assert forall|j: int, ws: Seq<Seq<char>>|
                #![trigger pf.spec_passwords()@[j], word_lengths(ws)]
                0 <= j < ts0.len() && dictionary_tuple(
                    ws,
                    lines,
                    min_word_len,
                    max_word_len,
                    max_words,
                    comp,
                ) && word_lengths(ws) != lowest_tuple(ws.len(), min_word_len)
                    && some_perm_matches(ws, ts0[j].digest)
                implies pf.spec_passwords()@[j].found by {
                if forall|j2: int|
                    0 <= j2 < ts0.len() ==> (#[trigger] pf.spec_passwords()@[j2]).found {
                    assert(pf.spec_passwords()@[j].found);
                } else {
                    let lw = word_lengths(ws);
                    assert(lw.len() == ws.len());
                    assert forall|i: int|
                        0 <= i < lw.len() implies min_word_len <= #[trigger] lw[i]
                        <= max_word_len by {
                        assert(lw[i] == ws[i].len() as usize);
                        assert(min_word_len <= ws[i].len() <= max_word_len);
                    }
                    assert forall|i: int|
                        0 <= i < ws.len() implies (#[trigger] ws[i]).len() <= usize::MAX by {
                        assert(ws[i].len() <= max_word_len);
                    }
                    lemma_phrase_len(ws);
                    let pc = phrase_chars(ws);
                    pc.to_multiset_ensures();
                    comp.to_multiset_ensures();
                    assert(pc.len() == comp.len());
                    assert(seq_sum(lw) == target_length);
                    assert(bounds.min_word_len == min_word_len);
                    assert(bounds.max_word_len == max_word_len);
                    assert(bounds.target_len == target_length);
                    assert(bounds.max_words == max_words);
                    assert(canonical_tuple(lw, bounds));
                    assert(lw != lowest_tuple(lw.len(), min_word_len));
                    assert(generator.emitted().contains(lw));
                    assert(pf.spec_passwords()@[j].found);
                }
            }
        }
    }
    pf.into_passwords()
}

} // verus!
