//! Words as text and as bytes: the byte-wise order of strings, and word lists
//! kept in ascending order without repeats.

use vstd::prelude::*;
use vstd::utf8::{encode_scalar, encode_utf8, encode_utf8_decode_utf8};

verus! {

/// `String::push` appends one character.
pub assume_specification[ String::push ](s: &mut String, ch: char)
    ensures
        final(s)@ == old(s)@.push(ch),
;

/// Lexicographic order on byte strings: at the first place where the two
/// differ, `a` has ended or holds the smaller byte.
pub open spec fn bytes_lt(a: Seq<u8>, b: Seq<u8>) -> bool {
    exists|k: int| #[trigger] agree_before(a, b, k) && k < b.len() && (k == a.len() || a[k] < b[k])
}

/// Both strings are at least `k` long and hold the same first `k` bytes.
pub open spec fn agree_before(a: Seq<u8>, b: Seq<u8>, k: int) -> bool {
    &&& 0 <= k <= a.len()
    &&& k <= b.len()
    &&& forall|j: int| 0 <= j < k ==> a[j] == b[j]
}

/// The order of strings: that of their UTF-8 encodings, byte by byte.
pub open spec fn word_lt(a: Seq<char>, b: Seq<char>) -> bool {
    bytes_lt(encode_utf8(a), encode_utf8(b))
}

/// The texts of a list of strings.
pub open spec fn texts(list: &Vec<String>) -> Seq<Seq<char>> {
    Seq::new(list@.len(), |i: int| list@[i]@)
}

/// Every entry is below each later one: sorted, and nothing twice.
pub open spec fn ascending(words: Seq<Seq<char>>) -> bool {
    forall|i: int, j: int| 0 <= i < j < words.len() ==> word_lt(words[i], words[j])
}

/// No byte string is below itself.
pub proof fn lemma_bytes_lt_irreflexive(a: Seq<u8>)
    ensures
        !bytes_lt(a, a),
{
}

/// The order is transitive.
pub proof fn lemma_bytes_lt_transitive(a: Seq<u8>, b: Seq<u8>, c: Seq<u8>)
    requires
        bytes_lt(a, b),
        bytes_lt(b, c),
    ensures
        bytes_lt(a, c),
{
    let k1 = choose|k: int| #[trigger]
        agree_before(a, b, k) && k < b.len() && (k == a.len() || a[k] < b[k]);
    let k2 = choose|k: int| #[trigger]
        agree_before(b, c, k) && k < c.len() && (k == b.len() || b[k] < c[k]);
    let k = if k1 <= k2 {
        k1
    } else {
        k2
    };
    assert(agree_before(a, c, k));
}

/// "Not above" is transitive too.
pub proof fn lemma_bytes_le_transitive(a: Seq<u8>, b: Seq<u8>, c: Seq<u8>)
    requires
        !bytes_lt(b, a),
        !bytes_lt(c, b),
    ensures
        !bytes_lt(c, a),
{
    if bytes_lt(c, a) {
        lemma_bytes_lt_total(a, b);
        if a != b {
            lemma_bytes_lt_transitive(c, a, b);
        }
    }
}

/// Two byte strings that agree on their first `i` bytes are equal, or one is
/// below the other.
proof fn lemma_bytes_total_from(a: Seq<u8>, b: Seq<u8>, i: int)
    requires
        agree_before(a, b, i),
    ensures
        bytes_lt(a, b) || bytes_lt(b, a) || a == b,
    decreases a.len() - i,
{
    if i == a.len() || i == b.len() {
        if a.len() == b.len() {
            assert(a =~= b);
        } else if i == a.len() {
            assert(agree_before(a, b, i));
        } else {
            assert(agree_before(b, a, i));
        }
    } else if a[i] == b[i] {
        assert(agree_before(a, b, i + 1));
        lemma_bytes_total_from(a, b, i + 1);
    } else {
        assert(agree_before(a, b, i));
        assert(agree_before(b, a, i));
    }
}

/// The order is total: of two different byte strings one is below the other.
pub proof fn lemma_bytes_lt_total(a: Seq<u8>, b: Seq<u8>)
    ensures
        bytes_lt(a, b) || bytes_lt(b, a) || a == b,
{
    assert(agree_before(a, b, 0));
    lemma_bytes_total_from(a, b, 0);
}

/// Encoding a concatenation gives the concatenation of the encodings.
pub proof fn lemma_encode_concat(a: Seq<char>, b: Seq<char>)
    ensures
        encode_utf8(a + b) == encode_utf8(a) + encode_utf8(b),
    decreases a.len(),
{
    if a.len() == 0 {
        assert(a + b =~= b);
        assert(encode_utf8(a) + encode_utf8(b) =~= encode_utf8(b));
    } else {
        assert((a + b).drop_first() =~= a.drop_first() + b);
        lemma_encode_concat(a.drop_first(), b);
        assert(encode_scalar(a[0] as u32) + (encode_utf8(a.drop_first()) + encode_utf8(b))
            =~= (encode_scalar(a[0] as u32) + encode_utf8(a.drop_first())) + encode_utf8(b));
    }
}

/// A text that is not empty has an encoding that is not empty.
pub proof fn lemma_encode_nonempty(a: Seq<char>)
    requires
        a.len() > 0,
    ensures
        encode_utf8(a).len() > 0,
{
}

/// Different texts have different encodings.
pub proof fn lemma_encode_injective(a: Seq<char>, b: Seq<char>)
    requires
        encode_utf8(a) == encode_utf8(b),
    ensures
        a == b,
{
    encode_utf8_decode_utf8(a);
    encode_utf8_decode_utf8(b);
}

/// Whether byte string `a` comes before `b`.
pub fn bytes_less(a: &[u8], b: &[u8]) -> (less: bool)
    ensures
        less == bytes_lt(a@, b@),
{
    let mut i: usize = 0;
    while i < a.len() && i < b.len()
        invariant
            agree_before(a@, b@, i as int),
        decreases a.len() - i,
    {
        if a[i] != b[i] {
            assert(agree_before(a@, b@, i as int));
            return a[i] < b[i];
        }
        i += 1;
    }
    assert(agree_before(a@, b@, i as int));
    a.len() < b.len()
}

/// Whether string `a` comes before `b` in the order of strings.
pub fn word_less(a: &String, b: &String) -> (less: bool)
    ensures
        less == word_lt(a@, b@),
{
    bytes_less(a.as_str().as_bytes(), b.as_str().as_bytes())
}

/// Of two texts, one is below the other unless they are the same text.
pub proof fn lemma_word_lt_total(a: Seq<char>, b: Seq<char>)
    ensures
        word_lt(a, b) || word_lt(b, a) || a == b,
{
    lemma_bytes_lt_total(encode_utf8(a), encode_utf8(b));
    if encode_utf8(a) == encode_utf8(b) {
        lemma_encode_injective(a, b);
    }
}

/// No text is below itself, and the order is transitive.
pub proof fn lemma_word_lt_strict(a: Seq<char>, b: Seq<char>, c: Seq<char>)
    ensures
        !word_lt(a, a),
        word_lt(a, b) && word_lt(b, c) ==> word_lt(a, c),
{
    lemma_bytes_lt_irreflexive(encode_utf8(a));
    if word_lt(a, b) && word_lt(b, c) {
        lemma_bytes_lt_transitive(encode_utf8(a), encode_utf8(b), encode_utf8(c));
    }
}

/// An ascending list holds no text twice.
pub proof fn lemma_ascending_distinct(words: Seq<Seq<char>>)
    requires
        ascending(words),
    ensures
        forall|i: int, j: int| 0 <= i < j < words.len() ==> words[i] != words[j],
{
    assert forall|i: int, j: int| 0 <= i < j < words.len() implies words[i] != words[j] by {
        lemma_word_lt_strict(words[i], words[i], words[i]);
    }
}

/// An ascending list is fixed by the texts that it holds: two ascending lists
/// of the same texts are the same list.
pub proof fn lemma_ascending_unique(a: Seq<Seq<char>>, b: Seq<Seq<char>>)
    requires
        ascending(a),
        ascending(b),
        forall|w: Seq<char>| a.contains(w) <==> b.contains(w),
    ensures
        a == b,
    decreases a.len(),
{
    if a.len() == 0 {
        if b.len() > 0 {
            assert(b.contains(b[0]));
        }
        assert(a =~= b);
    } else {
        assert(a.contains(a[0]));
        let j = choose|j: int| 0 <= j < b.len() && b[j] == a[0];
        assert(b.contains(b[0]));
        let i = choose|i: int| 0 <= i < a.len() && a[i] == b[0];
        if j > 0 {
            lemma_word_lt_strict(b[0], a[0], a[i]);
            lemma_word_lt_strict(b[0], b[0], b[0]);
        }
        assert(a[0] == b[0]);
        let ta = a.drop_first();
        let tb = b.drop_first();
        lemma_ascending_distinct(a);
        lemma_ascending_distinct(b);
        assert forall|w: Seq<char>| ta.contains(w) <==> tb.contains(w) by {
            if ta.contains(w) {
                let k = choose|k: int| 0 <= k < ta.len() && ta[k] == w;
                assert(a[k + 1] == w);
                assert(a.contains(w));
                let m = choose|m: int| 0 <= m < b.len() && b[m] == w;
                assert(m > 0);
                assert(tb[m - 1] == w);
            }
            if tb.contains(w) {
                let k = choose|k: int| 0 <= k < tb.len() && tb[k] == w;
                assert(b[k + 1] == w);
                assert(b.contains(w));
                let m = choose|m: int| 0 <= m < a.len() && a[m] == w;
                assert(m > 0);
                assert(ta[m - 1] == w);
            }
        }
        assert forall|x: int, y: int| 0 <= x < y < ta.len() implies word_lt(ta[x], ta[y]) by {
            assert(word_lt(a[x + 1], a[y + 1]));
        }
        assert forall|x: int, y: int| 0 <= x < y < tb.len() implies word_lt(tb[x], tb[y]) by {
            assert(word_lt(b[x + 1], b[y + 1]));
        }
        lemma_ascending_unique(ta, tb);
        assert(a =~= seq![a[0]] + ta);
        assert(b =~= seq![b[0]] + tb);
    }
}

/// Puts `word` into an ascending list at its place, unless the list holds it
/// already.
pub fn insert_sorted(list: &mut Vec<String>, word: String)
    requires
        ascending(texts(old(list))),
    ensures
        ascending(texts(final(list))),
        forall|w: Seq<char>|
            texts(final(list)).contains(w) <==> texts(old(list)).contains(w) || w == word@,
{
    let ghost before = texts(list);
    let mut pos: usize = 0;
    while pos < list.len() && word_less(&list[pos], &word)
        invariant
            pos <= list@.len(),
            texts(list) == before,
            forall|i: int| 0 <= i < pos ==> word_lt(#[trigger] before[i], word@),
        decreases list@.len() - pos,
    {
        assert(before[pos as int] == list@[pos as int]@);
        pos += 1;
    }
    if pos < list.len() {
        assert(before[pos as int] == list@[pos as int]@);
    }
    if pos == list.len() || word_less(&word, &list[pos]) {
        list.insert(pos, word);
        proof {
            let after = texts(list);
            assert(after =~= before.insert(pos as int, word@));
            assert forall|i: int, j: int| 0 <= i < j < after.len() implies word_lt(
                after[i],
                after[j],
            ) by {
                if j < pos {
                    assert(word_lt(before[i], before[j]));
                } else if j == pos {
                    assert(word_lt(before[i], word@));
                } else if i < pos {
                    assert(word_lt(before[i], before[j - 1]));
                } else if i == pos {
                    if j - 1 > pos {
                        assert(word_lt(before[pos as int], before[j - 1]));
                        lemma_bytes_lt_transitive(
                            encode_utf8(word@),
                            encode_utf8(before[pos as int]),
                            encode_utf8(before[j - 1]),
                        );
                    }
                } else {
                    assert(word_lt(before[i - 1], before[j - 1]));
                }
            }
            assert forall|w: Seq<char>| after.contains(w) <==> before.contains(w) || w
                == word@ by {
                if after.contains(w) {
                    let k = choose|k: int| 0 <= k < after.len() && after[k] == w;
                    if k < pos {
                        assert(before[k] == w);
                    } else if k > pos {
                        assert(before[k - 1] == w);
                    }
                }
                if before.contains(w) {
                    let k = choose|k: int| 0 <= k < before.len() && before[k] == w;
                    if k < pos {
                        assert(after[k] == w);
                    } else {
                        assert(after[k + 1] == w);
                    }
                }
                if w == word@ {
                    assert(after[pos as int] == w);
                }
            }
        }
    } else {
        proof {
            lemma_word_lt_total(word@, before[pos as int]);
            assert(before.contains(word@));
        }
    }
}

/// The texts of `words` in ascending order, each once.
pub fn sort_dedup(words: &Vec<String>) -> (sorted: Vec<String>)
    ensures
        ascending(texts(&sorted)),
        forall|w: Seq<char>| texts(&sorted).contains(w) <==> texts(words).contains(w),
{
    let mut sorted: Vec<String> = Vec::new();
    let mut i: usize = 0;
    while i < words.len()
        invariant
            i <= words@.len(),
            ascending(texts(&sorted)),
            forall|w: Seq<char>|
                #![trigger texts(&sorted).contains(w)]
                texts(&sorted).contains(w) <==> exists|k: int|
                    0 <= k < i && #[trigger] texts(words)[k] == w,
        decreases words@.len() - i,
    {
        let word = words[i].clone();
        assert(word@ == texts(words)[i as int]);
        insert_sorted(&mut sorted, word);
        i += 1;
    }
    sorted
}

} // verus!
