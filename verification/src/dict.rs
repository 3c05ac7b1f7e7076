//! The dictionary index: a prefix tree of byte strings kept by `trie_rs`,
//! which holds the lines of a word list as the bytes of their encoding.

use crate::words::{
    agree_before, bytes_lt, lemma_bytes_le_transitive, lemma_bytes_lt_irreflexive,
    lemma_bytes_lt_transitive, lemma_encode_injective, lemma_encode_nonempty, sort_dedup, texts,
    word_less, word_lt,
};
use trie_rs::{Trie, TrieBuilder};
use vstd::prelude::*;
use vstd::utf8::encode_utf8;

verus! {

/// The finished, read-only prefix tree of `trie_rs`.
#[verifier::external_type_specification]
#[verifier::external_body]
#[verifier::reject_recursive_types(Label)]
pub struct ExTrie<Label>(Trie<Label>);

/// The prefix tree of `trie_rs` while words are still being added.
#[verifier::external_type_specification]
#[verifier::external_body]
#[verifier::reject_recursive_types(Label)]
pub struct ExTrieBuilder<Label>(TrieBuilder<Label>);

/// The words of a tree: the non-empty byte strings that lead from its root to
/// a node marked as the end of a word.
pub uninterp spec fn trie_words(trie: Trie<u8>) -> Set<Seq<u8>>;

/// The words of a tree under construction, as `trie_words` for the finished one.
pub uninterp spec fn builder_words(builder: TrieBuilder<u8>) -> Set<Seq<u8>>;

/// The non-empty byte strings that lead from the root of a tree under
/// construction to any of its nodes, marked or not.
pub uninterp spec fn builder_paths(builder: TrieBuilder<u8>) -> Set<Seq<u8>>;

/// The non-empty byte strings that `word` starts with, `word` itself among them.
pub open spec fn prefixes(word: Seq<u8>) -> Set<Seq<u8>> {
    Set::new(|p: Seq<u8>| p.len() > 0 && p.is_prefix_of(word))
}

/// `Trie::exact_match`: whether the query is one of the tree's words. The
/// method walks the query's bytes down from the root and answers `true` only
/// on a marked node reached with the last byte, so never for an empty query.
#[verifier::external_body]
fn exact_match(trie: &Trie<u8>, query: &[u8]) -> (found: bool)
    ensures
        found == trie_words(*trie).contains(query@),
{
    trie.exact_match(query)
}

/// `Trie::predictive_search`: the tree's words that start with the query.
/// The method walks the query down from the root and collects every marked
/// node at or below the node it reaches, a node before its children and the
/// children by ascending byte, so each such word comes once and in ascending
/// order. It panics on an empty query.
#[verifier::external_body]
fn predictive_search(trie: &Trie<u8>, query: &[u8]) -> (found: Vec<Vec<u8>>)
    requires
        query@.len() > 0,
    ensures
        forall|i: int|
            0 <= i < found@.len() ==> trie_words(*trie).contains(#[trigger] found@[i]@)
                && query@.is_prefix_of(found@[i]@),
        forall|w: Seq<u8>|
            #![trigger trie_words(*trie).contains(w)]
            trie_words(*trie).contains(w) && query@.is_prefix_of(w) ==> exists|i: int|
                0 <= i < found@.len() && #[trigger] found@[i]@ == w,
        forall|i: int, j: int|
            0 <= i < j < found@.len() ==> bytes_lt(#[trigger] found@[i]@, #[trigger] found@[j]@),
{
    trie.predictive_search(query)
}

/// `TrieBuilder::new`: a tree with a root and nothing else.
#[verifier::external_body]
fn new_builder() -> (builder: TrieBuilder<u8>)
    ensures
        builder_words(builder) == Set::<Seq<u8>>::empty(),
        builder_paths(builder) == Set::<Seq<u8>>::empty(),
{
    TrieBuilder::new()
}

/// `TrieBuilder::push`: walks the word's bytes down from the root and creates
/// the nodes that are missing. A node created for the word's last byte is
/// marked as the end of a word; a node that was there already is left as it
/// was. An empty word changes nothing.
#[verifier::external_body]
fn push_word(builder: &mut TrieBuilder<u8>, word: &[u8])
    ensures
        builder_paths(*final(builder)) == builder_paths(*old(builder)).union(prefixes(word@)),
        builder_words(*final(builder)) == (if word@.len() > 0 && !builder_paths(
            *old(builder),
        ).contains(word@) {
            builder_words(*old(builder)).insert(word@)
        } else {
            builder_words(*old(builder))
        }),
{
    builder.push(word)
}

/// `TrieBuilder::build`: the finished tree, with the same nodes and marks.
#[verifier::external_body]
fn build_trie(builder: &TrieBuilder<u8>) -> (trie: Trie<u8>)
    ensures
        trie_words(trie) == builder_words(*builder),
{
    builder.build()
}

/// Some word of the set starts with `query`.
pub open spec fn has_prefix(words: Set<Seq<u8>>, query: Seq<u8>) -> bool {
    exists|w: Seq<u8>| words.contains(w) && query.is_prefix_of(w)
}

/// The word counts on the board: it has four characters or more, and its
/// encoding is a word of the set.
pub open spec fn counts_as_word(words: Set<Seq<u8>>, word: Seq<char>) -> bool {
    word.len() >= 4 && words.contains(encode_utf8(word))
}

/// The encodings of the lines of a word list.
pub open spec fn line_bytes(lines: &Vec<String>) -> Seq<Seq<u8>> {
    Seq::new(lines@.len(), |i: int| encode_utf8(lines@[i]@))
}

/// The line at `i` is the first of the list that starts with `word`, and is
/// `word` itself.
pub open spec fn first_seen_whole(lines: Seq<Seq<u8>>, word: Seq<u8>, i: int) -> bool {
    &&& 0 <= i < lines.len()
    &&& lines[i] == word
    &&& forall|j: int| 0 <= j < i ==> !word.is_prefix_of(#[trigger] lines[j])
}

/// The words that the tree holds once the lines were added in the order of
/// the list. A line becomes a word where it is not empty and no earlier line
/// starts with it: `trie_rs` marks the end of a word only on a node that the
/// word creates.
pub open spec fn indexed(lines: Seq<Seq<u8>>) -> Set<Seq<u8>> {
    Set::new(
        |w: Seq<u8>| w.len() > 0 && exists|i: int| #[trigger] first_seen_whole(lines, w, i),
    )
}

/// No line comes after a longer line that starts with it.
pub open spec fn prefix_ordered(lines: Seq<Seq<u8>>) -> bool {
    forall|j: int, i: int|
        0 <= j < i < lines.len() && (#[trigger] lines[i]).is_prefix_of(#[trigger] lines[j])
            ==> lines[i] == lines[j]
}

/// No line is below an earlier one in the order of byte strings.
pub open spec fn sorted_lines(lines: Seq<Seq<u8>>) -> bool {
    forall|j: int, i: int| 0 <= j < i < lines.len() ==> !bytes_lt(lines[i], lines[j])
}

/// The lines of the list that are not empty.
pub open spec fn nonempty_lines(lines: Seq<Seq<u8>>) -> Set<Seq<u8>> {
    Set::new(|w: Seq<u8>| w.len() > 0 && lines.contains(w))
}

/// The place where `word` stands first in the list.
proof fn first_place(lines: Seq<Seq<u8>>, word: Seq<u8>, k: int) -> (i: int)
    requires
        0 <= k < lines.len(),
        lines[k] == word,
    ensures
        0 <= i <= k,
        lines[i] == word,
        forall|j: int| 0 <= j < i ==> lines[j] != word,
    decreases k,
{
    if exists|j: int| 0 <= j < k && lines[j] == word {
        let j = choose|j: int| 0 <= j < k && lines[j] == word;
        first_place(lines, word, j)
    } else {
        k
    }
}

/// A sorted list is prefix-ordered: a text that another starts with is
/// below it.
pub proof fn lemma_sorted_is_prefix_ordered(lines: Seq<Seq<u8>>)
    requires
        sorted_lines(lines),
    ensures
        prefix_ordered(lines),
{
    assert forall|j: int, i: int|
        0 <= j < i < lines.len() && (#[trigger] lines[i]).is_prefix_of(
            #[trigger] lines[j],
        ) implies lines[i] == lines[j] by {
        let a = lines[i];
        let b = lines[j];
        if a.len() < b.len() {
            assert(agree_before(a, b, a.len() as int));
            assert(bytes_lt(a, b));
        }
        assert(a =~= b);
    }
}

/// From a prefix-ordered list every line that is not empty becomes a word,
/// and nothing else does.
pub proof fn lemma_indexed_all(lines: Seq<Seq<u8>>)
    requires
        prefix_ordered(lines),
    ensures
        indexed(lines) == nonempty_lines(lines),
{
    assert forall|w: Seq<u8>| indexed(lines).contains(w) <==> nonempty_lines(lines).contains(
        w,
    ) by {
        if indexed(lines).contains(w) {
            let i = choose|i: int| #[trigger] first_seen_whole(lines, w, i);
            assert(lines[i] == w);
        }
        if nonempty_lines(lines).contains(w) {
            let k = choose|k: int| 0 <= k < lines.len() && lines[k] == w;
            let i = first_place(lines, w, k);
            assert forall|j: int| 0 <= j < i implies !w.is_prefix_of(#[trigger] lines[j]) by {
                if lines[i].is_prefix_of(lines[j]) {
                    assert(lines[i] == lines[j]);
                }
            }
            assert(first_seen_whole(lines, w, i));
        }
    }
    assert(indexed(lines) =~= nonempty_lines(lines));
}

/// Whether `word` counts as a dictionary word: four characters or more, and
/// held by the tree.
pub fn is_word(trie: &Trie<u8>, word: &String) -> (yes: bool)
    ensures
        yes == counts_as_word(trie_words(*trie), word@),
{
    let text = word.as_str();
    if text.unicode_len() < 4 {
        return false;
    }
    exact_match(trie, text.as_bytes())
}

/// Whether the tree holds any word at all.
pub fn holds_any_word(trie: &Trie<u8>) -> (yes: bool)
    ensures
        yes == exists|w: Seq<u8>| trie_words(*trie).contains(w),
{
    let nothing: Vec<u8> = Vec::new();
    if exact_match(trie, nothing.as_slice()) {
        return true;
    }
    let mut first: u16 = 0;
    while first < 256
        invariant
            first <= 256,
            !trie_words(*trie).contains(Seq::<u8>::empty()),
            forall|w: Seq<u8>|
                trie_words(*trie).contains(w) && w.len() > 0 ==> #[trigger] w[0] >= first,
        decreases 256 - first,
    {
        let byte: u8 = first as u8;
        let mut query: Vec<u8> = Vec::new();
        query.push(byte);
        let found = predictive_search(trie, query.as_slice());
        if found.len() > 0 {
            assert(trie_words(*trie).contains(found@[0]@));
            return true;
        }
        proof {
            assert forall|w: Seq<u8>|
                trie_words(*trie).contains(w) && w.len() > 0 implies #[trigger] w[0] >= first
                + 1 by {
                if w[0] == byte {
                    assert(query@.is_prefix_of(w));
                }
            }
        }
        first += 1;
    }
    proof {
        assert forall|w: Seq<u8>| !trie_words(*trie).contains(w) by {
            if trie_words(*trie).contains(w) {
                if w.len() == 0 {
                    assert(w =~= Seq::<u8>::empty());
                } else {
                    assert(w[0] >= 256);
                }
            }
        }
    }
    false
}

/// Whether some word of the tree starts with `word`. Every word starts with
/// the empty word, so for it the answer is whether the tree holds a word.
pub fn is_word_prefix(trie: &Trie<u8>, word: &String) -> (yes: bool)
    ensures
        yes == has_prefix(trie_words(*trie), encode_utf8(word@)),
{
    let query = word.as_str().as_bytes();
    if query.len() == 0 {
        let any = holds_any_word(trie);
        proof {
            if any {
                let w = choose|w: Seq<u8>| trie_words(*trie).contains(w);
                assert(query@.is_prefix_of(w));
            }
        }
        return any;
    }
    let found = predictive_search(trie, query);
    proof {
        if found@.len() > 0 {
            assert(trie_words(*trie).contains(found@[0]@));
        }
    }
    found.len() > 0
}

/// Whether no line of the list is below the line before it.
fn in_order(lines: &Vec<String>) -> (ordered: bool)
    ensures
        ordered == sorted_lines(line_bytes(lines)),
{
    if lines.len() == 0 {
        return true;
    }
    let ghost all = line_bytes(lines);
    let mut i: usize = 1;
    while i < lines.len()
        invariant
            1 <= i <= lines@.len(),
            all == line_bytes(lines),
            forall|a: int, b: int| 0 <= a < b < i ==> !bytes_lt(all[b], all[a]),
        decreases lines@.len() - i,
    {
        if word_less(&lines[i], &lines[i - 1]) {
            assert(bytes_lt(all[i as int], all[i - 1]));
            return false;
        }
        proof {
            assert forall|a: int, b: int| 0 <= a < b < i + 1 implies !bytes_lt(all[b], all[a]) by {
                if b == i && a < i - 1 {
                    lemma_bytes_le_transitive(all[a], all[i - 1], all[i as int]);
                }
            }
        }
        i += 1;
    }
    true
}

/// Adds the lines to an empty tree in the order of the list.
fn index_in_order(lines: &Vec<String>) -> (dict: Trie<u8>)
    ensures
        trie_words(dict) == indexed(line_bytes(lines)),
{
    let mut builder = new_builder();
    let mut n: usize = 0;
    while n < lines.len()
        invariant
            n <= lines@.len(),
            builder_words(builder) == indexed(line_bytes(lines).take(n as int)),
            forall|p: Seq<u8>|
                builder_paths(builder).contains(p) <==> p.len() > 0 && exists|j: int|
                    0 <= j < n && p.is_prefix_of(#[trigger] line_bytes(lines)[j]),
        decreases lines@.len() - n,
    {
        let ghost all = line_bytes(lines);
        let ghost line = all[n as int];
        let ghost paths = builder_paths(builder);
        let ghost words = builder_words(builder);
        push_word(&mut builder, lines[n].as_str().as_bytes());
        proof {
            let seen = all.take(n as int);
            let more = all.take(n + 1);
            let fresh = line.len() > 0 && !paths.contains(line);
            assert forall|w: Seq<u8>| indexed(more).contains(w) <==> indexed(seen).contains(w) || (
            fresh && w == line) by {
                if indexed(more).contains(w) {
                    let i = choose|i: int| #[trigger] first_seen_whole(more, w, i);
                    if i < n {
                        assert(first_seen_whole(seen, w, i));
                    } else {
                        assert(w == line);
                        assert forall|j: int| 0 <= j < n implies !w.is_prefix_of(
                            #[trigger] all[j],
                        ) by {
                            assert(more[j] == all[j]);
                        }
                    }
                }
                if indexed(seen).contains(w) {
                    let i = choose|i: int| #[trigger] first_seen_whole(seen, w, i);
                    assert(first_seen_whole(more, w, i));
                }
                if fresh && w == line {
                    assert(first_seen_whole(more, w, n as int));
                }
            }
            assert(builder_words(builder) =~= indexed(more));
            assert forall|p: Seq<u8>|
                builder_paths(builder).contains(p) <==> p.len() > 0 && exists|j: int|
                    0 <= j < n + 1 && p.is_prefix_of(#[trigger] all[j]) by {
                if p.len() > 0 && p.is_prefix_of(line) {
                    assert(p.is_prefix_of(all[n as int]));
                }
            }
        }
        n += 1;
    }
    assert(line_bytes(lines).take(n as int) =~= line_bytes(lines));
    build_trie(&builder)
}

/// The index of a word list: it holds exactly the lines of the list that are
/// not empty, each as it stands. The tree marks the end of a word only on a
/// node that the word creates, so a line must not follow a longer line that
/// starts with it: a list in ascending order is added as it stands, any other
/// list in ascending order.
pub fn build_dict(lines: &Vec<String>) -> (dict: Trie<u8>)
    ensures
        trie_words(dict) == nonempty_lines(line_bytes(lines)),
        forall|w: Seq<u8>|
            trie_words(dict).contains(w) <==> w.len() > 0 && exists|i: int|
                0 <= i < lines@.len() && encode_utf8(#[trigger] lines@[i]@) == w,
        forall|w: Seq<char>|
            counts_as_word(trie_words(dict), w) <==> w.len() >= 4 && texts(lines).contains(w),
        lines@.len() == 0 ==> trie_words(dict) == Set::<Seq<u8>>::empty(),
{
    let ghost all = line_bytes(lines);
    let dict = if in_order(lines) {
        proof {
            lemma_sorted_is_prefix_ordered(all);
            lemma_indexed_all(all);
        }
        index_in_order(lines)
    } else {
        let sorted = sort_dedup(lines);
        proof {
            let ascending_bytes = line_bytes(&sorted);
            assert forall|j: int, i: int|
                0 <= j < i < ascending_bytes.len() implies !bytes_lt(
                ascending_bytes[i],
                ascending_bytes[j],
            ) by {
                assert(word_lt(texts(&sorted)[j], texts(&sorted)[i]));
                if bytes_lt(ascending_bytes[i], ascending_bytes[j]) {
                    lemma_bytes_lt_transitive(
                        ascending_bytes[i],
                        ascending_bytes[j],
                        ascending_bytes[i],
                    );
                    lemma_bytes_lt_irreflexive(ascending_bytes[i]);
                }
            }
            lemma_sorted_is_prefix_ordered(ascending_bytes);
            lemma_indexed_all(ascending_bytes);
            assert forall|w: Seq<u8>| ascending_bytes.contains(w) <==> all.contains(w) by {
                if ascending_bytes.contains(w) {
                    let i = choose|i: int|
                        0 <= i < ascending_bytes.len() && ascending_bytes[i] == w;
                    assert(texts(&sorted).contains(texts(&sorted)[i]));
                    let k = choose|k: int|
                        0 <= k < texts(lines).len() && texts(lines)[k] == texts(&sorted)[i];
                    assert(all[k] == w);
                }
                if all.contains(w) {
                    let k = choose|k: int| 0 <= k < all.len() && all[k] == w;
                    assert(texts(lines).contains(texts(lines)[k]));
                    let i = choose|i: int|
                        0 <= i < texts(&sorted).len() && texts(&sorted)[i] == texts(lines)[k];
                    assert(ascending_bytes[i] == w);
                }
            }
            assert(nonempty_lines(ascending_bytes) =~= nonempty_lines(all));
        }
        index_in_order(&sorted)
    };
    proof {
        assert forall|w: Seq<u8>|
            trie_words(dict).contains(w) <==> w.len() > 0 && exists|i: int|
                0 <= i < lines@.len() && encode_utf8(#[trigger] lines@[i]@) == w by {
            if all.contains(w) {
                let k = choose|k: int| 0 <= k < all.len() && all[k] == w;
                assert(encode_utf8(lines@[k]@) == w);
            }
            if exists|i: int| 0 <= i < lines@.len() && encode_utf8(#[trigger] lines@[i]@) == w {
                let i = choose|i: int|
                    0 <= i < lines@.len() && encode_utf8(#[trigger] lines@[i]@) == w;
                assert(all[i] == w);
            }
        }
        if lines@.len() == 0 {
            assert(nonempty_lines(all) =~= Set::<Seq<u8>>::empty());
        }
        assert forall|w: Seq<char>|
            counts_as_word(trie_words(dict), w) <==> w.len() >= 4 && texts(lines).contains(
                w,
            ) by {
            if w.len() >= 4 {
                lemma_encode_nonempty(w);
                if all.contains(encode_utf8(w)) {
                    let k = choose|k: int| 0 <= k < all.len() && all[k] == encode_utf8(w);
                    lemma_encode_injective(lines@[k]@, w);
                    assert(texts(lines)[k] == w);
                }
                if texts(lines).contains(w) {
                    let k = choose|k: int| 0 <= k < texts(lines).len() && texts(lines)[k] == w;
                    assert(all[k] == encode_utf8(w));
                }
            }
        }
    }
    dict
}

} // verus!
