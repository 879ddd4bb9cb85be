//! The dictionary: admits words from a wordlist, trims trailing
//! non-alphabetic characters, and indexes the admitted words by length, one
//! deduplicated bucket per length.

use vstd::prelude::*;
use std::collections::HashMap;

verus! {

broadcast use vstd::std_specs::hash::group_hash_axioms;

/// What `char::is_numeric` returns for a character: a function of the
/// character alone.
pub uninterp spec fn char_is_numeric(c: char) -> bool;

/// What `char::is_alphabetic` returns for a character: a function of the
/// character alone.
pub uninterp spec fn char_is_alphabetic(c: char) -> bool;

/// Relies on `char::is_numeric`: whether the character is numeric, a pure
/// function of the character.
pub assume_specification[ char::is_numeric ](c: char) -> (r: bool)
    ensures
        r == char_is_numeric(c),
;

/// Relies on `char::is_alphabetic`: whether the character is alphabetic, a
/// pure function of the character.
pub assume_specification[ char::is_alphabetic ](c: char) -> (r: bool)
    ensures
        r == char_is_alphabetic(c),
;

/// A word is admitted when its length is within bounds, it holds no numeric
/// character and no apostrophe, and its letters are contained in the allowed
/// multiset.  The raw line is judged, before trimming.
pub open spec fn word_admissible(
    w: Seq<char>,
    min_word_len: usize,
    max_word_len: usize,
    allowed: Seq<char>,
) -> bool {
    &&& min_word_len <= w.len() <= max_word_len
    &&& forall|i: int| 0 <= i < w.len() ==> !char_is_numeric(#[trigger] w[i])
    &&& forall|i: int| 0 <= i < w.len() ==> #[trigger] w[i] != '\''
    &&& w.to_multiset().subset_of(allowed.to_multiset())
}

/// The word with its maximal run of trailing non-alphabetic characters
/// removed.
pub open spec fn trimmed(w: Seq<char>) -> Seq<char>
    decreases w.len(),
{
    if w.len() > 0 && !char_is_alphabetic(w.last()) {
        trimmed(w.drop_last())
    } else {
        w
    }
}

/// `w` is the trimmed form of some admissible line of the wordlist.
#[verifier::opaque]
pub open spec fn from_admissible_line(
    w: Seq<char>,
    lines: Seq<Seq<char>>,
    min_word_len: usize,
    max_word_len: usize,
    allowed: Seq<char>,
) -> bool {
    exists|j: int|
        0 <= j < lines.len() && word_admissible(
            #[trigger] lines[j],
            min_word_len,
            max_word_len,
            allowed,
        ) && w == trimmed(lines[j])
}

/// The bucket keyed by `w`'s length holds `w`.
#[verifier::opaque]
pub open spec fn stores_word(m: Map<usize, Vec<String>>, w: Seq<char>) -> bool {
    &&& m.contains_key(w.len() as usize)
    &&& exists|i: int|
        0 <= i < m[w.len() as usize]@.len() && (#[trigger] m[w.len() as usize]@[i])@ == w
}

/// The buckets model the wordlist: every stored word is a trimmed admissible
/// line keyed by its length, buckets are non-empty and duplicate-free, and
/// every admissible line's trimmed form is stored.
pub open spec fn dictionary_models(
    m: Map<usize, Vec<String>>,
    lines: Seq<Seq<char>>,
    min_word_len: usize,
    max_word_len: usize,
    allowed: Seq<char>,
) -> bool {
    &&& forall|k: usize| #[trigger] m.contains_key(k) ==> 1 <= m[k]@.len()
    &&& forall|k: usize, i: int|
        #![trigger m[k]@[i]]
        m.contains_key(k) && 0 <= i < m[k]@.len() ==> m[k]@[i]@.len() == k
    &&& forall|k: usize, i: int|
        #![trigger m[k]@[i]]
        m.contains_key(k) && 0 <= i < m[k]@.len() ==> from_admissible_line(
            m[k]@[i]@,
            lines,
            min_word_len,
            max_word_len,
            allowed,
        )
    &&& forall|k: usize, i: int, i2: int|
        #![trigger m[k]@[i], m[k]@[i2]]
        m.contains_key(k) && 0 <= i < i2 < m[k]@.len() ==> m[k]@[i]@ != m[k]@[i2]@
    &&& forall|j: int|
        0 <= j < lines.len() && word_admissible(
            #[trigger] lines[j],
            min_word_len,
            max_word_len,
            allowed,
        ) ==> stores_word(m, trimmed(lines[j]))
}

/// Elimination form of `stores_word`, for callers of the dictionary.
pub proof fn lemma_stores_word_elim(m: Map<usize, Vec<String>>, w: Seq<char>)
    requires
        stores_word(m, w),
    ensures
        m.contains_key(w.len() as usize),
        exists|i: int|
            0 <= i < m[w.len() as usize]@.len() && (#[trigger] m[w.len() as usize]@[i])@ == w,
{
    reveal(stores_word);
}

/// Introduction form of `from_admissible_line`.
proof fn lemma_from_line_intro(
    w: Seq<char>,
    lines: Seq<Seq<char>>,
    j: int,
    min_word_len: usize,
    max_word_len: usize,
    allowed: Seq<char>,
)
    requires
        0 <= j < lines.len(),
        word_admissible(lines[j], min_word_len, max_word_len, allowed),
        w == trimmed(lines[j]),
    ensures
        from_admissible_line(w, lines, min_word_len, max_word_len, allowed),
{
    reveal(from_admissible_line);
}

/// A word drawn from a prefix of the wordlist is drawn from the wordlist.
proof fn lemma_from_line_extend(
    w: Seq<char>,
    lines: Seq<Seq<char>>,
    lines2: Seq<Seq<char>>,
    min_word_len: usize,
    max_word_len: usize,
    allowed: Seq<char>,
)
    requires
        lines2.len() == lines.len() + 1,
        lines2.drop_last() =~= lines,
        from_admissible_line(w, lines, min_word_len, max_word_len, allowed),
    ensures
        from_admissible_line(w, lines2, min_word_len, max_word_len, allowed),
{
    reveal(from_admissible_line);
    let j = choose|j: int|
        0 <= j < lines.len() && word_admissible(
            #[trigger] lines[j],
            min_word_len,
            max_word_len,
            allowed,
        ) && w == trimmed(lines[j]);
    assert(lines2.drop_last()[j] == lines2[j]);
    assert(lines2[j] == lines[j]);
    assert(word_admissible(lines2[j], min_word_len, max_word_len, allowed));
}

/// A stored word stays stored when one bucket is replaced by an extension of
/// itself and no other bucket changes.
proof fn lemma_stores_after_insert(
    mpre: Map<usize, Vec<String>>,
    m: Map<usize, Vec<String>>,
    bpre: Seq<String>,
    bucket: Seq<String>,
    word_len: usize,
    w: Seq<char>,
)
    requires
        stores_word(mpre, w),
        mpre.contains_key(word_len) ==> bpre == mpre[word_len]@,
        bucket.len() >= bpre.len(),
        forall|i: int| 0 <= i < bpre.len() ==> #[trigger] bucket[i] == bpre[i],
        forall|k: usize| #[trigger] m.contains_key(k) <==> (mpre.contains_key(k) || k == word_len),
        forall|k: usize| #[trigger] m.contains_key(k) ==> m[k]@ == if k == word_len {
            bucket
        } else {
            mpre[k]@
        },
    ensures
        stores_word(m, w),
{
    reveal(stores_word);
    let key = w.len() as usize;
    assert(mpre.contains_key(key));
    assert(m.contains_key(key));
    assert(exists|i: int| 0 <= i < mpre[key]@.len() && (#[trigger] mpre[key]@[i])@ == w);
    let i = choose|i: int| 0 <= i < mpre[key]@.len() && (#[trigger] mpre[key]@[i])@ == w;
    if key == word_len {
        assert(bpre == mpre[key]@);
        assert(bucket[i] == bpre[i]);
        assert(m[key]@ == bucket);
        assert((m[key]@[i])@ == w);
    } else {
        assert(m[key]@ == mpre[key]@);
        assert((m[key]@[i])@ == w);
    }
}

/// The characters of a string slice, in order.
fn str_chars(s: &str) -> (r: Vec<char>)
    ensures
        r@ == s@,
{
    let n = s.unicode_len();
    let mut r: Vec<char> = Vec::new();
    let mut i: usize = 0;
    while i < n
        invariant
            0 <= i <= n,
            n == s@.len(),
            r@ =~= s@.take(i as int),
        decreases n - i,
    {
        r.push(s.get_char(i));
        proof {
            assert(s@.take(i + 1) =~= s@.take(i as int).push(s@[i as int]));
        }
        i = i + 1;
    }
    proof {
        assert(s@.take(s@.len() as int) =~= s@);
    }
    r
}

/// How often `c` occurs among the characters of `v`.
fn count_char(v: &Vec<char>, c: char) -> (r: usize)
    ensures
        r == v@.to_multiset().count(c),
{
    broadcast use vstd::seq_lib::group_to_multiset_ensures;

    let mut r: usize = 0;
    let mut i: usize = 0;
    proof {
        assert(v@.take(0).to_multiset() =~= Seq::<char>::empty().to_multiset());
        v@.take(0).to_multiset_ensures();
    }
    while i < v.len()
        invariant
            0 <= i <= v@.len(),
            r == v@.take(i as int).to_multiset().count(c),
            r <= i,
        decreases v@.len() - i,
    {
        proof {
            assert(v@.take(i + 1) =~= v@.take(i as int).push(v@[i as int]));
            v@.take(i as int).to_multiset_ensures();
            assert(v@.take(i as int).push(v@[i as int]).to_multiset() =~= v@.take(
                i as int,
            ).to_multiset().insert(v@[i as int]));
            assert(v@.take(i + 1).to_multiset() == v@.take(i as int).push(
                v@[i as int],
            ).to_multiset());
        }
        if v[i] == c {
            r = r + 1;
        }
        i = i + 1;
    }
    proof {
        assert(v@.take(v@.len() as int) =~= v@);
    }
    r
}

/// The wordlist index: admissible words grouped by length.
pub struct Dictionary {
    words: HashMap<usize, Vec<String>>,
}

impl Dictionary {
    /// The buckets, as a map from word length to the words of that length.
    pub closed spec fn spec_buckets(self) -> Map<usize, Vec<String>> {
        self.words@
    }

    /// Build the dictionary from the lines of a wordlist.
    pub fn new(
        lines: &Vec<String>,
        min_word_len: usize,
        max_word_len: usize,
        allowed_chars: &Vec<char>,
    ) -> (d: Dictionary)
        ensures
            dictionary_models(
                d.spec_buckets(),
                lines.deep_view(),
                min_word_len,
                max_word_len,
                allowed_chars@,
            ),
    {
        Dictionary { words: Self::map(lines, min_word_len, max_word_len, allowed_chars) }
    }

    /// The words of one length, copied out; `None` when no word of that
    /// length was admitted.
    pub fn get(&self, key: &usize) -> (r: Option<Vec<String>>)
        ensures
            match r {
                Some(b) => self.spec_buckets().contains_key(*key) && b.deep_view()
                    == self.spec_buckets()[*key].deep_view(),
                None => !self.spec_buckets().contains_key(*key),
            },
    {
        match self.words.get(key) {
            Some(set) => {
                let mut b: Vec<String> = Vec::new();
                let mut i: usize = 0;
                while i < set.len()
                    invariant
                        0 <= i <= set@.len(),
                        b.deep_view() =~= set.deep_view().take(i as int),
                    decreases set@.len() - i,
                {
                    let ghost before = b.deep_view();
                    b.push(set[i].clone());
                    proof {
                        assert(b.deep_view() =~= before.push(set@[i as int]@));
                        assert(set.deep_view()[i as int] == set@[i as int]@);
                        assert(b.deep_view() =~= set.deep_view().take(i + 1));
                    }
                    i = i + 1;
                }
                proof {
                    assert(set.deep_view().take(set.deep_view().len() as int) =~= set.deep_view());
                }
                Some(b)
            },
            None => None,
        }
    }

    /// Group the admissible lines into buckets keyed by trimmed length.
    #[verifier::rlimit(80)]
    pub fn map(
        lines: &Vec<String>,
        min_word_len: usize,
        max_word_len: usize,
        allowed_chars: &Vec<char>,
    ) -> (m: HashMap<usize, Vec<String>>)
        ensures
            dictionary_models(
                m@,
                lines.deep_view(),
                min_word_len,
                max_word_len,
                allowed_chars@,
            ),
    {
        let ghost lv = lines.deep_view();
        let mut dictionary: HashMap<usize, Vec<String>> = HashMap::new();
        let mut li: usize = 0;
        while li < lines.len()
            invariant
                0 <= li <= lv.len(),
                lv == lines.deep_view(),
                dictionary_models(dictionary@, lv.take(li as int), min_word_len, max_word_len, allowed_chars@),
            decreases lv.len() - li,
        {
            let line = &lines[li];
            let ghost mpre = dictionary@;
            if Self::is_valid(min_word_len, max_word_len, allowed_chars, line.as_str()) {
                let cleaned = Self::clean(line.as_str());
                let word_len = cleaned.unicode_len();
                let word = cleaned.to_owned();
                proof {
                    assert(word@ == trimmed(lv[li as int]));
                    assert(word_len == trimmed(lv[li as int]).len());
                }
                let mut bucket: Vec<String> = match dictionary.remove(&word_len) {
                    Some(b) => b,
                    None => Vec::new(),
                };
                let ghost bpre = bucket@;
                if !Self::bucket_contains(&bucket, &word) {
                    bucket.push(word);
                }
                dictionary.insert(word_len, bucket);
                proof {
                    lemma_map_step_admitted(
                        mpre,
                        dictionary@,
                        bpre,
                        bucket@,
                        lv,
                        li as int,
                        word_len,
                        min_word_len,
                        max_word_len,
                        allowed_chars@,
                    );
                }
            } else {
                proof {
                    assert(lv.take(li + 1).drop_last() =~= lv.take(li as int));
                    assert(lv.take(li + 1).last() == lv[li as int]);
                    lemma_models_skip_line(
                        dictionary@,
                        lv.take(li as int),
                        lv.take(li + 1),
                        min_word_len,
                        max_word_len,
                        allowed_chars@,
                    );
                }
            }
            li = li + 1;
        }
        proof {
            assert(lv.take(lv.len() as int) =~= lv);
        }
        dictionary
    }

    /// Whether the bucket already holds this word.
    fn bucket_contains(bucket: &Vec<String>, w: &String) -> (r: bool)
        ensures
            r == exists|i: int| 0 <= i < bucket@.len() && (#[trigger] bucket@[i])@ == w@,
    {
        let mut i: usize = 0;
        while i < bucket.len()
            invariant
                0 <= i <= bucket@.len(),
                forall|j: int| 0 <= j < i ==> (#[trigger] bucket@[j])@ != w@,
            decreases bucket@.len() - i,
        {
            if bucket[i].eq(w) {
                return true;
            }
            i = i + 1;
        }
        false
    }

    /// Whether a raw line is admitted: length within bounds, no numeric
    /// character, no apostrophe, and letters contained in the allowed
    /// multiset.
    pub fn is_valid(
        min_word_len: usize,
        max_word_len: usize,
        allowed_chars: &Vec<char>,
        word: &str,
    ) -> (r: bool)
        ensures
            r == word_admissible(word@, min_word_len, max_word_len, allowed_chars@),
    {
        broadcast use vstd::seq_lib::group_to_multiset_ensures;

        let chars = str_chars(word);
        let n = chars.len();
        if n < min_word_len || n > max_word_len {
            return false;
        }
        let mut i: usize = 0;
        while i < n
            invariant
                0 <= i <= n,
                n == chars@.len(),
                chars@ == word@,
                forall|j: int|
                    0 <= j < i ==> !char_is_numeric(#[trigger] chars@[j]) && chars@[j] != '\'',
            decreases n - i,
        {
            let c = chars[i];
            if c.is_numeric() || c == '\'' {
                return false;
            }
            i = i + 1;
        }
        let mut p: usize = 0;
        while p < n
            invariant
                0 <= p <= n,
                n == chars@.len(),
                chars@ == word@,
                forall|j: int|
                    0 <= j < p ==> word@.to_multiset().count(#[trigger] chars@[j])
                        <= allowed_chars@.to_multiset().count(chars@[j]),
            decreases n - p,
        {
            let c = chars[p];
            let have = count_char(&chars, c);
            let cap = count_char(allowed_chars, c);
            if have > cap {
                return false;
            }
            p = p + 1;
        }
        proof {
            assert forall|c: char|
                word@.to_multiset().count(c) <= #[trigger] allowed_chars@.to_multiset().count(
                    c,
                ) by {
                if word@.to_multiset().count(c) > 0 {
                    assert(word@.contains(c));
                    let j = choose|j: int| 0 <= j < word@.len() && word@[j] == c;
                    assert(word@.to_multiset().count(chars@[j]) <= allowed_chars@.to_multiset().count(
                        chars@[j],
                    ));
                }
            }
        }
        true
    }

    /// The line with trailing non-alphabetic characters removed.
    pub fn clean<'a>(word: &'a str) -> (r: &'a str)
        ensures
            r@ == trimmed(word@),
    {
        let chars = str_chars(word);
        let n = chars.len();
        let mut cut: usize = n;
        proof {
            assert(word@.take(n as int) =~= word@);
        }
        while cut > 0 && !chars[cut - 1].is_alphabetic()
            invariant
                0 <= cut <= n,
                n == chars@.len(),
                chars@ == word@,
                trimmed(word@) == trimmed(word@.take(cut as int)),
            decreases cut,
        {
            proof {
                assert(word@.take(cut as int).last() == word@[cut - 1]);
                assert(word@.take(cut as int).drop_last() =~= word@.take(cut - 1));
            }
            cut = cut - 1;
        }
        proof {
            if cut > 0 {
                assert(word@.take(cut as int).last() == word@[cut - 1]);
                assert(char_is_alphabetic(word@.take(cut as int).last()));
            }
            assert(trimmed(word@.take(cut as int)) == word@.take(cut as int));
        }
        word.substring_char(0, cut)
    }
}

/// Skipping an inadmissible line leaves the model intact.
proof fn lemma_models_skip_line(
    m: Map<usize, Vec<String>>,
    lines: Seq<Seq<char>>,
    lines2: Seq<Seq<char>>,
    min_word_len: usize,
    max_word_len: usize,
    allowed: Seq<char>,
)
    requires
        dictionary_models(m, lines, min_word_len, max_word_len, allowed),
        lines2.len() == lines.len() + 1,
        lines2.drop_last() =~= lines,
        !word_admissible(lines2.last(), min_word_len, max_word_len, allowed),
    ensures
        dictionary_models(m, lines2, min_word_len, max_word_len, allowed),
{
    assert forall|j: int| 0 <= j < lines.len() implies #[trigger] lines2[j] == lines[j] by {
        assert(lines2.drop_last()[j] == lines2[j]);
    }
    assert forall|k: usize, i: int|
        #![trigger m[k]@[i]]
        m.contains_key(k) && 0 <= i < m[k]@.len() implies from_admissible_line(
        m[k]@[i]@,
        lines2,
        min_word_len,
        max_word_len,
        allowed,
    ) by {
        assert(from_admissible_line(m[k]@[i]@, lines, min_word_len, max_word_len, allowed));
        lemma_from_line_extend(m[k]@[i]@, lines, lines2, min_word_len, max_word_len, allowed);
    }
    assert forall|j: int|
        0 <= j < lines2.len() && word_admissible(
            #[trigger] lines2[j],
            min_word_len,
            max_word_len,
            allowed,
        ) implies stores_word(m, trimmed(lines2[j])) by {
        assert(j < lines.len());
        assert(lines2[j] == lines[j]);
        assert(word_admissible(lines[j], min_word_len, max_word_len, allowed));
        assert(stores_word(m, trimmed(lines[j])));
    }
}

/// Admitting one line extends the model by that line.
proof fn lemma_map_step_admitted(
    mpre: Map<usize, Vec<String>>,
    m: Map<usize, Vec<String>>,
    bpre: Seq<String>,
    bucket: Seq<String>,
    lines: Seq<Seq<char>>,
    li: int,
    word_len: usize,
    min_word_len: usize,
    max_word_len: usize,
    allowed: Seq<char>,
)
    requires
        0 <= li < lines.len(),
        dictionary_models(mpre, lines.take(li), min_word_len, max_word_len, allowed),
        word_admissible(lines[li], min_word_len, max_word_len, allowed),
        word_len == trimmed(lines[li]).len(),
        mpre.contains_key(word_len) ==> bpre == mpre[word_len]@,
        !mpre.contains_key(word_len) ==> bpre =~= Seq::<String>::empty(),
        (exists|i: int| 0 <= i < bpre.len() && (#[trigger] bpre[i])@ == trimmed(lines[li]))
            ==> bucket == bpre,
        !(exists|i: int| 0 <= i < bpre.len() && (#[trigger] bpre[i])@ == trimmed(lines[li]))
            ==> (bucket.len() == bpre.len() + 1 && bucket.drop_last() =~= bpre && bucket.last()@
            == trimmed(lines[li])),
        forall|k: usize| #[trigger] m.contains_key(k) <==> (mpre.contains_key(k) || k == word_len),
        forall|k: usize| #[trigger] m.contains_key(k) ==> m[k]@ == if k == word_len {
            bucket
        } else {
            mpre[k]@
        },
    ensures
        dictionary_models(m, lines.take(li + 1), min_word_len, max_word_len, allowed),
{
    let lpre = lines.take(li);
    let lnow = lines.take(li + 1);
    let w = trimmed(lines[li]);
    assert(lnow.drop_last() =~= lpre);
    assert(lnow.last() == lines[li]);
    assert forall|j: int| 0 <= j < li implies #[trigger] lnow[j] == lpre[j] by {
        assert(lnow.drop_last()[j] == lnow[j]);
    }
    assert forall|i: int| 0 <= i < bpre.len() implies #[trigger] bucket[i] == bpre[i] by {
        if bucket.len() == bpre.len() + 1 {
            assert(bucket.drop_last()[i] == bucket[i]);
        }
    }
    assert forall|i: int| 0 <= i < bucket.len() implies #[trigger] bucket[i]@.len()
        == word_len by {
        if i < bpre.len() {
            assert(bucket[i] == bpre[i]);
            assert(mpre.contains_key(word_len));
            assert(mpre[word_len]@[i] == bpre[i]);
        } else {
            assert(bucket[i]@ == w);
        }
    }
    assert forall|k: usize, i: int|
        #![trigger m[k]@[i]]
        m.contains_key(k) && 0 <= i < m[k]@.len() implies m[k]@[i]@.len() == k
        && from_admissible_line(m[k]@[i]@, lnow, min_word_len, max_word_len, allowed) by {
        if k == word_len && i >= bpre.len() {
            assert(m[k]@[i]@ == w);
            lemma_from_line_intro(w, lnow, li, min_word_len, max_word_len, allowed);
        } else {
            if k == word_len {
                assert(m[k]@[i] == bucket[i]);
                assert(bucket[i] == bpre[i]);
                assert(mpre.contains_key(word_len));
                assert(mpre[word_len]@[i] == bpre[i]);
                assert(m[k]@[i] == mpre[k]@[i]);
            } else {
                assert(mpre.contains_key(k));
                assert(m[k]@[i] == mpre[k]@[i]);
            }
            assert(mpre[k]@[i]@.len() == k);
            assert(from_admissible_line(mpre[k]@[i]@, lpre, min_word_len, max_word_len, allowed));
            lemma_from_line_extend(m[k]@[i]@, lpre, lnow, min_word_len, max_word_len, allowed);
        }
    }
    assert forall|k: usize, i: int, i2: int|
        #![trigger m[k]@[i], m[k]@[i2]]
        m.contains_key(k) && 0 <= i < i2 < m[k]@.len() implies m[k]@[i]@ != m[k]@[i2]@ by {
        if k == word_len {
            if i2 < bpre.len() {
                assert(mpre.contains_key(word_len));
                assert(bucket[i] == bpre[i] && bucket[i2] == bpre[i2]);
                assert(mpre[word_len]@[i] == bpre[i] && mpre[word_len]@[i2] == bpre[i2]);
            } else {
                assert(bucket.len() == bpre.len() + 1);
                assert(i2 == bpre.len());
                assert(bucket[i] == bpre[i]);
                assert(bucket[i2]@ == w);
                assert(!(exists|p: int| 0 <= p < bpre.len() && (#[trigger] bpre[p])@ == w));
            }
        } else {
            assert(mpre.contains_key(k));
            assert(mpre[k]@[i] == m[k]@[i] && mpre[k]@[i2] == m[k]@[i2]);
        }
    }
    assert forall|j: int|
        0 <= j < lnow.len() && word_admissible(
            #[trigger] lnow[j],
            min_word_len,
            max_word_len,
            allowed,
        ) implies stores_word(m, trimmed(lnow[j])) by {
        if j < li {
            assert(lnow[j] == lpre[j]);
            assert(word_admissible(lpre[j], min_word_len, max_word_len, allowed));
            assert(stores_word(mpre, trimmed(lpre[j])));
            lemma_stores_after_insert(mpre, m, bpre, bucket, word_len, trimmed(lpre[j]));
        } else {
            assert(lnow[j] == lines[li]);
            reveal(stores_word);
            assert(m.contains_key(word_len));
            if exists|i: int| 0 <= i < bpre.len() && (#[trigger] bpre[i])@ == w {
                let i = choose|i: int| 0 <= i < bpre.len() && (#[trigger] bpre[i])@ == w;
                assert(bucket[i] == bpre[i]);
                assert((m[word_len]@[i])@ == w);
            } else {
                assert((m[word_len]@[bpre.len() as int])@ == w);
            }
        }
    }
}


/// A bucket never holds more words than the wordlist has lines: distinct
/// stored words trim from distinct lines.
pub proof fn lemma_bucket_len_le_lines(
    m: Map<usize, Vec<String>>,
    lines: Seq<Seq<char>>,
    min_word_len: usize,
    max_word_len: usize,
    allowed: Seq<char>,
    k: usize,
)
    requires
        dictionary_models(m, lines, min_word_len, max_word_len, allowed),
        m.contains_key(k),
    ensures
        m[k]@.len() <= lines.len(),
{
    reveal(from_admissible_line);
    let b = m[k]@;
    let js = Seq::new(
        b.len(),
        |i: int|
            choose|j: int|
                0 <= j < lines.len() && word_admissible(
                    #[trigger] lines[j],
                    min_word_len,
                    max_word_len,
                    allowed,
                ) && b[i]@ == trimmed(lines[j]),
    );
    assert forall|i: int|
        0 <= i < js.len() implies 0 <= #[trigger] js[i] < lines.len() && b[i]@ == trimmed(
        lines[js[i]],
    ) by {
        assert(from_admissible_line(m[k]@[i]@, lines, min_word_len, max_word_len, allowed));
        assert(exists|j: int|
            0 <= j < lines.len() && word_admissible(
                #[trigger] lines[j],
                min_word_len,
                max_word_len,
                allowed,
            ) && b[i]@ == trimmed(lines[j]));
    }
    assert(js.no_duplicates()) by {
        assert forall|i1: int, i2: int| 0 <= i1 < i2 < js.len() implies js[i1] != js[i2] by {
            assert(m[k]@[i1]@ != m[k]@[i2]@);
            if js[i1] == js[i2] {
                assert(b[i1]@ == trimmed(lines[js[i1]]));
                assert(b[i2]@ == trimmed(lines[js[i2]]));
            }
        }
    }
    js.unique_seq_to_set();
    vstd::set_lib::lemma_int_range(0, lines.len() as int);
    assert(js.to_set().subset_of(vstd::set_lib::set_int_range(0, lines.len() as int))) by {
        assert forall|x: int| js.to_set().contains(x) implies 0 <= x < lines.len() by {
            assert(js.contains(x));
        }
    }
    vstd::set_lib::lemma_len_subset(
        js.to_set(),
        vstd::set_lib::set_int_range(0, lines.len() as int),
    );
}


/// Every word drawn from an admissible line is stored in its bucket.
pub proof fn lemma_line_word_stored(
    m: Map<usize, Vec<String>>,
    lines: Seq<Seq<char>>,
    min_word_len: usize,
    max_word_len: usize,
    allowed: Seq<char>,
    w: Seq<char>,
)
    requires
        dictionary_models(m, lines, min_word_len, max_word_len, allowed),
        from_admissible_line(w, lines, min_word_len, max_word_len, allowed),
    ensures
        stores_word(m, w),
{
    reveal(from_admissible_line);
    let j = choose|j: int|
        0 <= j < lines.len() && word_admissible(
            #[trigger] lines[j],
            min_word_len,
            max_word_len,
            allowed,
        ) && w == trimmed(lines[j]);
    assert(word_admissible(lines[j], min_word_len, max_word_len, allowed));
    assert(stores_word(m, trimmed(lines[j])));
}

} // verus!
