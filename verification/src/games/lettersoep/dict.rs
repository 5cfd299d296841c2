//! The word list, kept sorted for lookups.

use crate::text::{pieces, split_on, trim, trimmed};
use vstd::prelude::*;
use vstd::string::StrSliceExecFns;
use vstd::string::StringSliceAdditionalSpecFns;
use vstd::utf8::encode_utf8;

verus! {

/// Byte-wise lexicographic order: the first differing byte decides, and a
/// proper prefix comes first.
pub open spec fn lex_lt(a: Seq<u8>, b: Seq<u8>) -> bool
    decreases a.len(),
{
    if a.len() == 0 {
        b.len() > 0
    } else if b.len() == 0 {
        false
    } else if a[0] != b[0] {
        a[0] < b[0]
    } else {
        lex_lt(a.drop_first(), b.drop_first())
    }
}

pub proof fn lemma_lex_irreflexive(a: Seq<u8>)
    ensures
        !lex_lt(a, a),
    decreases a.len(),
{
    if a.len() > 0 {
        lemma_lex_irreflexive(a.drop_first());
    }
}

pub proof fn lemma_lex_trichotomy(a: Seq<u8>, b: Seq<u8>)
    ensures
        a == b || lex_lt(a, b) || lex_lt(b, a),
        !(lex_lt(a, b) && lex_lt(b, a)),
    decreases a.len(),
{
    if a.len() > 0 && b.len() > 0 && a[0] == b[0] {
        lemma_lex_trichotomy(a.drop_first(), b.drop_first());
        if a.drop_first() == b.drop_first() {
            assert(a == seq![a[0]] + a.drop_first());
            assert(b == seq![b[0]] + b.drop_first());
        }
    } else if a.len() == 0 && b.len() == 0 {
        assert(a == b);
    }
}

pub proof fn lemma_lex_transitive(a: Seq<u8>, b: Seq<u8>, c: Seq<u8>)
    requires
        lex_lt(a, b),
        lex_lt(b, c),
    ensures
        lex_lt(a, c),
    decreases a.len(),
{
    if a.len() > 0 && b.len() > 0 && c.len() > 0 && a[0] == b[0] && b[0] == c[0] {
        lemma_lex_transitive(a.drop_first(), b.drop_first(), c.drop_first());
    }
}

/// Strictly increasing: sorted and without repeats.
pub open spec fn strictly_sorted(ws: Seq<Seq<u8>>) -> bool {
    forall|i: int, j: int| 0 <= i < j < ws.len() ==> lex_lt(#[trigger] ws[i], #[trigger] ws[j])
}

/// Non-decreasing.
pub open spec fn sorted_words(ws: Seq<Vec<u8>>) -> bool {
    forall|i: int, j: int| 0 <= i < j < ws.len() ==> !lex_lt(#[trigger] ws[j]@, #[trigger] ws[i]@)
}

/// The result of a three-way comparison.
#[derive(PartialEq, Eq, Structural, Clone, Copy)]
pub enum LexOrder {
    Before,
    Same,
    After,
}

/// Three-way byte-wise comparison.
pub fn compare_bytes(a: &[u8], b: &[u8]) -> (res: LexOrder)
    ensures
        res == LexOrder::Before <==> lex_lt(a@, b@),
        res == LexOrder::After <==> lex_lt(b@, a@),
        res == LexOrder::Same <==> a@ == b@,
{
    proof {
        lemma_lex_trichotomy(a@, b@);
        lemma_lex_irreflexive(a@);
        assert(a@.skip(0) == a@);
        assert(b@.skip(0) == b@);
    }
    let mut i: usize = 0;
    while i < a.len() && i < b.len()
        invariant
            i <= a@.len(),
            i <= b@.len(),
            a@.take(i as int) == b@.take(i as int),
            lex_lt(a@, b@) == lex_lt(a@.skip(i as int), b@.skip(i as int)),
            lex_lt(b@, a@) == lex_lt(b@.skip(i as int), a@.skip(i as int)),
        decreases a@.len() - i,
    {
        assert(a@.skip(i as int).drop_first() == a@.skip(i + 1));
        assert(b@.skip(i as int).drop_first() == b@.skip(i + 1));
        if a[i] < b[i] {
            return LexOrder::Before;
        }
        if a[i] > b[i] {
            return LexOrder::After;
        }
        assert(a@.take(i + 1) == a@.take(i as int).push(a@[i as int]));
        assert(b@.take(i + 1) == b@.take(i as int).push(b@[i as int]));
        i = i + 1;
    }
    if a.len() < b.len() {
        LexOrder::Before
    } else if a.len() > b.len() {
        LexOrder::After
    } else {
        assert(a@ == a@.take(i as int));
        assert(b@ == b@.take(i as int));
        LexOrder::Same
    }
}

/// A word list: distinct byte strings in increasing order.
pub struct Dictionary {
    words: Vec<Vec<u8>>,
}

impl Dictionary {
    #[verifier::type_invariant]
    spec fn sorted_and_distinct(&self) -> bool {
        strictly_sorted(self.words@.map_values(|w: Vec<u8>| w@))
    }
}

impl View for Dictionary {
    type V = Seq<Seq<u8>>;

    closed spec fn view(&self) -> Seq<Seq<u8>> {
        self.words@.map_values(|w: Vec<u8>| w@)
    }
}

/// `slice::sort_unstable` on byte strings. Trusted: the result is a
/// permutation of the input in non-decreasing order; `Vec<u8>` orders
/// lexicographically by bytes.
#[verifier::external_body]
fn sort_byte_strings(v: &mut Vec<Vec<u8>>)
    ensures
        sorted_words(final(v)@),
        final(v)@.to_multiset() == old(v)@.to_multiset(),
{
    v.sort_unstable();
}

impl Dictionary {
    /// The words, in increasing order.
    pub fn words(&self) -> (res: &Vec<Vec<u8>>)
        ensures
            res@.map_values(|w: Vec<u8>| w@) == self@,
            strictly_sorted(self@),
    {
        proof {
            use_type_invariant(self);
        }
        &self.words
    }

    /// How many words there are.
    pub fn len(&self) -> (res: usize)
        ensures
            res == self@.len(),
    {
        self.words.len()
    }

    /// Whether `word` is in the list, by binary search.
    pub fn contains(&self, word: &[u8]) -> (res: bool)
        ensures
            res == self@.contains(word@),
    {
        proof {
            use_type_invariant(self);
        }
        let ghost ws = self@;
        let mut lo: usize = 0;
        let mut hi: usize = self.words.len();
        while lo < hi
            invariant
                ws == self@,
                strictly_sorted(ws),
                ws.len() == self.words@.len(),
                lo <= hi <= ws.len(),
                forall|j: int| 0 <= j < lo ==> lex_lt(#[trigger] ws[j], word@),
                forall|j: int| hi <= j < ws.len() ==> lex_lt(word@, #[trigger] ws[j]),
            decreases hi - lo,
        {
            let mid = lo + (hi - lo) / 2;
            assert(ws[mid as int] == self.words@[mid as int]@);
            match compare_bytes(self.words[mid].as_slice(), word) {
                LexOrder::Same => {
                    assert(ws[mid as int] == word@);
                    return true;
                },
                LexOrder::Before => {
                    assert forall|j: int| 0 <= j < mid + 1 implies lex_lt(#[trigger] ws[j], word@) by {
                        if j < mid {
                            lemma_lex_transitive(ws[j], ws[mid as int], word@);
                        }
                    }
                    lo = mid + 1;
                },
                LexOrder::After => {
                    assert forall|j: int| mid <= j < ws.len() implies lex_lt(word@, #[trigger] ws[j]) by {
                        if j > mid {
                            lemma_lex_transitive(word@, ws[mid as int], ws[j]);
                        }
                    }
                    hi = mid;
                },
            }
        }
        assert(!ws.contains(word@)) by {
            if ws.contains(word@) {
                let j = choose|j: int| 0 <= j < ws.len() && ws[j] == word@;
                lemma_lex_irreflexive(word@);
            }
        }
        false
    }
}

/// `w` is the UTF-8 text of a non-blank line of `lines`, trimmed.
pub open spec fn line_word(lines: Seq<Seq<char>>, w: Seq<u8>) -> bool {
    exists|i: int|
        0 <= i < lines.len() && trimmed(lines[i]).len() > 0 && #[trigger] encode_utf8(
            trimmed(lines[i]),
        ) == w
}

/// The words of a word-list text: its lines split at `\n`, trimmed, blank
/// lines left out.
pub open spec fn text_words(text: Seq<char>) -> Set<Seq<u8>> {
    Set::new(|w: Seq<u8>| line_word(pieces(text, '\n'), w))
}

/// Some element of `v` holds the bytes `w`.
pub open spec fn holds(v: Seq<Vec<u8>>, w: Seq<u8>) -> bool {
    exists|k: int| 0 <= k < v.len() && #[trigger] v[k]@ == w
}

/// Keep one of each run of equal words of a sorted list.
fn dedup_sorted(v: &Vec<Vec<u8>>) -> (out: Vec<Vec<u8>>)
    requires
        sorted_words(v@),
    ensures
        strictly_sorted(out@.map_values(|w: Vec<u8>| w@)),
        forall|w: Seq<u8>| #[trigger] holds(out@, w) == holds(v@, w),
{
    let mut out: Vec<Vec<u8>> = Vec::new();
    let mut i: usize = 0;
    while i < v.len()
        invariant
            i <= v@.len(),
            sorted_words(v@),
            strictly_sorted(out@.map_values(|w: Vec<u8>| w@)),
            forall|w: Seq<u8>| #[trigger] holds(out@, w) == holds(v@.take(i as int), w),
            i == 0 <==> out@.len() == 0,
            i > 0 ==> out@[out@.len() - 1]@ == v@[i - 1]@,
        decreases v@.len() - i,
    {
        let ghost before = out@;
        let ghost bv = before.map_values(|w: Vec<u8>| w@);
        let fresh = if out.len() == 0 {
            true
        } else {
            let last = out.len() - 1;
            compare_bytes(out[last].as_slice(), v[i].as_slice()) != LexOrder::Same
        };
        assert(v@.take(i + 1) == v@.take(i as int).push(v@[i as int]));
        if fresh {
            let copy = vstd::slice::slice_to_vec(v[i].as_slice());
            out.push(copy);
            proof {
                let x = v@[i as int]@;
                assert(out@.map_values(|w: Vec<u8>| w@) == bv.push(x));
                if i > 0 {
                    let last = bv[bv.len() - 1];
                    assert(last == v@[i - 1]@);
                    assert(!lex_lt(v@[i as int]@, v@[i - 1]@));
                    lemma_lex_trichotomy(last, x);
                    assert(lex_lt(last, x));
                    assert forall|a: int| 0 <= a < bv.len() implies lex_lt(#[trigger] bv[a], x) by {
                        if a < bv.len() - 1 {
                            lemma_lex_transitive(bv[a], last, x);
                        }
                    }
                }
                assert forall|w: Seq<u8>| #[trigger] holds(out@, w) == holds(v@.take(i + 1), w) by {
                    if holds(out@, w) {
                        let k = choose|k: int| 0 <= k < out@.len() && #[trigger] out@[k]@ == w;
                        if k < before.len() {
                            assert(out@[k] == before[k]);
                            assert(holds(before, w));
                            let k2 = choose|k2: int| 0 <= k2 < i && #[trigger] v@.take(i as int)[k2]@ == w;
                            assert(v@.take(i + 1)[k2] == v@.take(i as int)[k2]);
                        } else {
                            assert(v@.take(i + 1)[i as int]@ == w);
                        }
                    }
                    if holds(v@.take(i + 1), w) {
                        let k = choose|k: int| 0 <= k < i + 1 && #[trigger] v@.take(i + 1)[k]@ == w;
                        if k < i {
                            assert(v@.take(i as int)[k]@ == w);
                            assert(holds(before, w));
                            let k2 = choose|k2: int| 0 <= k2 < before.len() && #[trigger] before[k2]@ == w;
                            assert(out@[k2] == before[k2]);
                        } else {
                            assert(out@[out@.len() - 1]@ == w);
                        }
                    }
                }
            }
        } else {
            proof {
                let last = before[before.len() - 1];
                assert(last@ == v@[i as int]@);
                assert forall|w: Seq<u8>| #[trigger] holds(out@, w) == holds(v@.take(i + 1), w) by {
                    if holds(v@.take(i + 1), w) {
                        let k = choose|k: int| 0 <= k < i + 1 && #[trigger] v@.take(i + 1)[k]@ == w;
                        if k < i {
                            assert(v@.take(i as int)[k]@ == w);
                        } else {
                            assert(holds(before, w));
                        }
                    }
                    if holds(out@, w) {
                        let k2 = choose|k2: int| 0 <= k2 < i && #[trigger] v@.take(i as int)[k2]@ == w;
                        assert(v@.take(i + 1)[k2] == v@.take(i as int)[k2]);
                    }
                }
            }
        }
        i = i + 1;
    }
    assert(v@.take(v@.len() as int) == v@);
    out
}

impl Dictionary {
    /// Build the list from a text with one word per line: lines are
    /// trimmed, blank lines skipped, repeats kept once.
    pub fn from_text(text: &str) -> (res: Self)
        ensures
            res@.to_set() == text_words(text@),
            strictly_sorted(res@),
    {
        let lines = split_on(text, '\n');
        let ghost ls = pieces(text@, '\n');
        proof {
            assert(lines@.len() == ls.len());
            assert forall|k: int| 0 <= k < lines@.len() implies #[trigger] lines@[k]@ == ls[k] by {
                assert(lines@.map_values(|p: &str| p@)[k] == lines@[k]@);
            }
        }
        let mut raw: Vec<Vec<u8>> = Vec::new();
        let mut i: usize = 0;
        while i < lines.len()
            invariant
                i <= lines@.len(),
                lines@.len() == ls.len(),
                forall|k: int| 0 <= k < lines@.len() ==> #[trigger] lines@[k]@ == ls[k],
                forall|w: Seq<u8>| #[trigger] holds(raw@, w) == line_word(ls.take(i as int), w),
            decreases lines@.len() - i,
        {
            let t = trim(lines[i]);
            let ghost before = raw@;
            assert(ls.take(i + 1) == ls.take(i as int).push(ls[i as int]));
            if !t.is_empty() {
                let bytes = t.as_bytes_vec();
                raw.push(bytes);
                proof {
                    assert forall|w: Seq<u8>| #[trigger] holds(raw@, w) == line_word(ls.take(i + 1), w) by {
                        if holds(raw@, w) {
                            let k = choose|k: int| 0 <= k < raw@.len() && #[trigger] raw@[k]@ == w;
                            if k < before.len() {
                                assert(raw@[k] == before[k]);
                                assert(holds(before, w));
                                let j = choose|j: int|
                                    0 <= j < i && trimmed(ls.take(i as int)[j]).len() > 0
                                        && #[trigger] encode_utf8(trimmed(ls.take(i as int)[j])) == w;
                                assert(ls.take(i + 1)[j] == ls.take(i as int)[j]);
                            } else {
                                assert(ls.take(i + 1)[i as int] == ls[i as int]);
                                assert(encode_utf8(trimmed(ls.take(i + 1)[i as int])) == w);
                            }
                        }
                        if line_word(ls.take(i + 1), w) {
                            let j = choose|j: int|
                                0 <= j < i + 1 && trimmed(ls.take(i + 1)[j]).len() > 0
                                    && #[trigger] encode_utf8(trimmed(ls.take(i + 1)[j])) == w;
                            if j < i {
                                assert(ls.take(i as int)[j] == ls.take(i + 1)[j]);
                                assert(encode_utf8(trimmed(ls.take(i as int)[j])) == w);
                                assert(line_word(ls.take(i as int), w));
                                assert(holds(before, w));
                                let k = choose|k: int| 0 <= k < before.len() && #[trigger] before[k]@ == w;
                                assert(raw@[k] == before[k]);
                            } else {
                                assert(raw@[raw@.len() - 1]@ == w);
                            }
                        }
                    }
                }
            } else {
                proof {
                    assert forall|w: Seq<u8>| #[trigger] holds(raw@, w) == line_word(ls.take(i + 1), w) by {
                        if line_word(ls.take(i + 1), w) {
                            let j = choose|j: int|
                                0 <= j < i + 1 && trimmed(ls.take(i + 1)[j]).len() > 0
                                    && #[trigger] encode_utf8(trimmed(ls.take(i + 1)[j])) == w;
                            assert(j < i);
                            assert(ls.take(i as int)[j] == ls.take(i + 1)[j]);
                            assert(encode_utf8(trimmed(ls.take(i as int)[j])) == w);
                        }
                        if holds(raw@, w) {
                            let j = choose|j: int|
                                0 <= j < i && trimmed(ls.take(i as int)[j]).len() > 0
                                    && #[trigger] encode_utf8(trimmed(ls.take(i as int)[j])) == w;
                            assert(ls.take(i + 1)[j] == ls.take(i as int)[j]);
                        }
                    }
                }
            }
            i = i + 1;
        }
        assert(ls.take(ls.len() as int) == ls);
        let ghost unsorted = raw@;
        sort_byte_strings(&mut raw);
        proof {
            unsorted.to_multiset_ensures();
            raw@.to_multiset_ensures();
            assert forall|w: Seq<u8>| #[trigger] holds(raw@, w) == holds(unsorted, w) by {
                if holds(raw@, w) {
                    let k = choose|k: int| 0 <= k < raw@.len() && #[trigger] raw@[k]@ == w;
                    assert(raw@.contains(raw@[k]));
                    assert(raw@.to_multiset().count(raw@[k]) > 0);
                    assert(unsorted.to_multiset().count(raw@[k]) > 0);
                    assert(unsorted.contains(raw@[k]));
                    let k2 = choose|k2: int| 0 <= k2 < unsorted.len() && unsorted[k2] == raw@[k];
                    assert(unsorted[k2]@ == w);
                }
                if holds(unsorted, w) {
                    let k = choose|k: int| 0 <= k < unsorted.len() && #[trigger] unsorted[k]@ == w;
                    assert(unsorted.contains(unsorted[k]));
                    assert(unsorted.to_multiset().count(unsorted[k]) > 0);
                    assert(raw@.to_multiset().count(unsorted[k]) > 0);
                    assert(raw@.contains(unsorted[k]));
                    let k2 = choose|k2: int| 0 <= k2 < raw@.len() && raw@[k2] == unsorted[k];
                    assert(raw@[k2]@ == w);
                }
            }
        }
        let words = dedup_sorted(&raw);
        let res = Dictionary { words };
        proof {
            let vs = words@.map_values(|w: Vec<u8>| w@);
            assert forall|w: Seq<u8>| #[trigger] vs.to_set().contains(w) == text_words(text@).contains(w) by {
                if vs.to_set().contains(w) {
                    let k = choose|k: int| 0 <= k < vs.len() && vs[k] == w;
                    assert(words@[k]@ == w);
                    assert(holds(words@, w));
                }
                if text_words(text@).contains(w) {
                    assert(holds(words@, w));
                    let k = choose|k: int| 0 <= k < words@.len() && #[trigger] words@[k]@ == w;
                    assert(vs[k] == w);
                }
            }
            assert(vs.to_set() == text_words(text@));
        }
        res
    }
}

/// A dictionary built from a text holds exactly the text's words.
pub proof fn lemma_dictionary_words(words: Seq<Seq<u8>>, text: Seq<char>, w: Seq<u8>)
    requires
        words.to_set() == text_words(text),
    ensures
        words.contains(w) <==> line_word(pieces(text, '\n'), w),
{
    assert(words.to_set().contains(w) == words.contains(w));
}

/// Two strictly increasing word lists with the same words are the same
/// list.
pub proof fn lemma_sorted_unique(a: Seq<Seq<u8>>, b: Seq<Seq<u8>>)
    requires
        strictly_sorted(a),
        strictly_sorted(b),
        forall|x: Seq<u8>| a.contains(x) <==> b.contains(x),
    ensures
        a == b,
    decreases a.len(),
{
    if a.len() == 0 {
        if b.len() > 0 {
            assert(b.contains(b[0]));
        }
    } else if b.len() == 0 {
        assert(a.contains(a[0]));
    } else {
        assert(a.contains(a[0]));
        assert(b.contains(b[0]));
        let i = choose|i: int| 0 <= i < b.len() && b[i] == a[0];
        let j = choose|j: int| 0 <= j < a.len() && a[j] == b[0];
        if i > 0 {
            assert(lex_lt(b[0], b[i]));
            if j > 0 {
                assert(lex_lt(a[0], a[j]));
                lemma_lex_transitive(a[0], b[0], a[0]);
                lemma_lex_irreflexive(a[0]);
            } else {
                lemma_lex_irreflexive(a[0]);
            }
        }
        assert(a[0] == b[0]);
        let ta = a.drop_first();
        let tb = b.drop_first();
        assert forall|x: Seq<u8>| ta.contains(x) <==> tb.contains(x) by {
            if ta.contains(x) {
                let k = choose|k: int| 0 <= k < ta.len() && ta[k] == x;
                assert(a[k + 1] == x);
                assert(lex_lt(a[0], x));
                assert(b.contains(x));
                let m = choose|m: int| 0 <= m < b.len() && b[m] == x;
                if m == 0 {
                    lemma_lex_irreflexive(x);
                }
                assert(tb[m - 1] == x);
            }
            if tb.contains(x) {
                let k = choose|k: int| 0 <= k < tb.len() && tb[k] == x;
                assert(b[k + 1] == x);
                assert(lex_lt(b[0], x));
                assert(a.contains(x));
                let m = choose|m: int| 0 <= m < a.len() && a[m] == x;
                if m == 0 {
                    lemma_lex_irreflexive(x);
                }
                assert(ta[m - 1] == x);
            }
        }
        assert(strictly_sorted(ta));
        assert(strictly_sorted(tb));
        lemma_sorted_unique(ta, tb);
        assert(a == seq![a[0]] + ta);
        assert(b == seq![b[0]] + tb);
    }
}

} // verus!
