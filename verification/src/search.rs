//! The search: every dictionary word that a path on the board spells.

use crate::dict::{counts_as_word, has_prefix, is_word, is_word_prefix, trie_words};
use crate::grid::{
    adjacent, at, cell_index, free_cells, in_grid, is_free, is_grid, is_mask, is_path, is_trail,
    lemma_mark_uses_a_cell, open_neighbour, rows, set_cell, spell, unvisited_neighbours,
    with_cell, Letter, EMPTY, VISITED,
};
use crate::seqs::{lemma_concat_contains, lemma_count_of_images, taken_to};
use crate::words::{
    ascending, lemma_ascending_distinct, lemma_ascending_unique, lemma_encode_concat, sort_dedup,
    texts, word_lt,
};
use trie_rs::Trie;
use vstd::prelude::*;
use vstd::utf8::encode_utf8;

verus! {

/// The trail is one that the search records: it goes on from `from` over
/// free cells, and `word` with its letters behind it counts as a word.
pub open spec fn is_hit(
    board: Seq<Seq<char>>,
    words: Set<Seq<u8>>,
    word: Seq<char>,
    mask: Seq<Seq<u8>>,
    from: Letter,
    q: Seq<Letter>,
) -> bool {
    is_trail(mask, from, q) && counts_as_word(words, word + spell(board, q))
}

/// `w` is `word` with the letters of a trail from `from` behind it, and
/// counts as a word.
pub open spec fn found_from(
    board: Seq<Seq<char>>,
    words: Set<Seq<u8>>,
    word: Seq<char>,
    mask: Seq<Seq<u8>>,
    from: Letter,
    w: Seq<char>,
) -> bool {
    exists|q: Seq<Letter>| #[trigger]
        is_trail(mask, from, q) && w == word + spell(board, q) && counts_as_word(words, w)
}

/// `out` holds one text for each recorded trail whose first step is to a cell
/// of `firsts`: `trails` lists those trails, each once, and `out` their
/// texts in the same order.
pub open spec fn lists_hits_over(
    board: Seq<Seq<char>>,
    words: Set<Seq<u8>>,
    word: Seq<char>,
    mask: Seq<Seq<u8>>,
    from: Letter,
    firsts: Seq<Letter>,
    trails: Seq<Seq<Letter>>,
    out: Seq<Seq<char>>,
) -> bool {
    &&& forall|i: int, j: int| 0 <= i < j < trails.len() ==> trails[i] != trails[j]
    &&& forall|q: Seq<Letter>| #[trigger]
        trails.contains(q) <==> is_hit(board, words, word, mask, from, q) && firsts.contains(q[0])
    &&& out.len() == trails.len()
    &&& forall|i: int| 0 <= i < trails.len() ==> out[i] == word + spell(board, #[trigger] trails[i])
}

/// `out` holds one text for each recorded trail: `trails` lists the recorded
/// trails, each once, and `out` their texts in the same order.
pub open spec fn lists_hits(
    board: Seq<Seq<char>>,
    words: Set<Seq<u8>>,
    word: Seq<char>,
    mask: Seq<Seq<u8>>,
    from: Letter,
    trails: Seq<Seq<Letter>>,
    out: Seq<Seq<char>>,
) -> bool {
    &&& forall|i: int, j: int| 0 <= i < j < trails.len() ==> trails[i] != trails[j]
    &&& forall|q: Seq<Letter>| #[trigger]
        trails.contains(q) <==> is_hit(board, words, word, mask, from, q)
    &&& out.len() == trails.len()
    &&& forall|i: int| 0 <= i < trails.len() ==> out[i] == word + spell(board, #[trigger] trails[i])
}

/// The recorded trails.
pub open spec fn hits(
    board: Seq<Seq<char>>,
    words: Set<Seq<u8>>,
    word: Seq<char>,
    mask: Seq<Seq<u8>>,
    from: Letter,
) -> Set<Seq<Letter>> {
    Set::new(|q: Seq<Letter>| is_hit(board, words, word, mask, from, q))
}

/// The recorded trails that give the text `w`.
pub open spec fn hits_for(
    board: Seq<Seq<char>>,
    words: Set<Seq<u8>>,
    word: Seq<char>,
    mask: Seq<Seq<u8>>,
    from: Letter,
    w: Seq<char>,
) -> Set<Seq<Letter>> {
    Set::new(
        |q: Seq<Letter>| is_hit(board, words, word, mask, from, q) && word + spell(board, q) == w,
    )
}

/// Some path on the board spells `w`.
pub open spec fn on_board(board: Seq<Seq<char>>, w: Seq<char>) -> bool {
    exists|p: Seq<Letter>| #[trigger] is_path(p) && spell(board, p) == w
}

/// `out` is the solution of the board: in ascending order and without
/// repeats, exactly the texts that a path spells and that count as words.
pub open spec fn is_solution(
    board: Seq<Seq<char>>,
    words: Set<Seq<u8>>,
    out: Seq<Seq<char>>,
) -> bool {
    &&& ascending(out)
    &&& forall|w: Seq<char>| out.contains(w) <==> on_board(board, w) && counts_as_word(words, w)
}

/// A cell of the grid is free in the mask with `next` marked where it is
/// another cell and free in the mask itself.
proof fn lemma_free_when_marked(mask: Seq<Seq<u8>>, next: Letter)
    requires
        is_grid(mask),
        in_grid(next),
    ensures
        forall|x: Letter|
            in_grid(x) ==> (#[trigger] is_free(with_cell(mask, next, VISITED), x) <==> x != next
                && is_free(mask, x)),
{
    assert forall|x: Letter| in_grid(x) implies (#[trigger] is_free(
        with_cell(mask, next, VISITED),
        x,
    ) <==> x != next && is_free(mask, x)) by {
        if x.row == next.row && x.col == next.col {
            assert(x == next);
        }
    }
}

/// What follows the first step of a trail is a trail from the cell of that
/// step, with that cell marked.
proof fn lemma_trail_rest(mask: Seq<Seq<u8>>, from: Letter, q: Seq<Letter>)
    requires
        is_grid(mask),
        is_trail(mask, from, q),
        q.len() >= 2,
    ensures
        is_trail(with_cell(mask, q[0], VISITED), q[0], q.drop_first()),
{
    let marked = with_cell(mask, q[0], VISITED);
    let rest = q.drop_first();
    lemma_free_when_marked(mask, q[0]);
    assert forall|i: int| 0 <= i < rest.len() implies in_grid(#[trigger] rest[i]) && is_free(
        marked,
        rest[i],
    ) by {
        assert(rest[i] == q[i + 1]);
        assert(q[0] != q[i + 1]);
    }
    assert forall|i: int| 0 <= i < rest.len() - 1 implies adjacent(
        #[trigger] rest[i],
        rest[i + 1],
    ) by {
        assert(rest[i] == q[i + 1]);
        assert(adjacent(q[i + 1], q[i + 1 + 1]));
    }
    assert forall|i: int, j: int| 0 <= i < j < rest.len() implies rest[i] != rest[j] by {
        assert(rest[i] == q[i + 1] && rest[j] == q[j + 1]);
    }
    assert(adjacent(q[0], q[0int + 1]));
}

/// A step to a free neighbour, and then a trail from that cell with the cell
/// marked, make a trail.
proof fn lemma_trail_longer(mask: Seq<Seq<u8>>, from: Letter, next: Letter, rest: Seq<Letter>)
    requires
        is_grid(mask),
        open_neighbour(mask, from, next),
        rest.len() == 0 || is_trail(with_cell(mask, next, VISITED), next, rest),
    ensures
        is_trail(mask, from, seq![next] + rest),
{
    let q = seq![next] + rest;
    lemma_free_when_marked(mask, next);
    assert forall|i: int| 0 <= i < q.len() implies in_grid(#[trigger] q[i]) && is_free(
        mask,
        q[i],
    ) by {
        if i > 0 {
            assert(q[i] == rest[i - 1]);
        }
    }
    assert forall|i: int| 0 <= i < q.len() - 1 implies adjacent(#[trigger] q[i], q[i + 1]) by {
        assert(q[i + 1] == rest[i]);
        if i > 0 {
            assert(q[i] == rest[i - 1]);
            assert(adjacent(rest[i - 1], rest[i - 1 + 1]));
        }
    }
    assert forall|i: int, j: int| 0 <= i < j < q.len() implies q[i] != q[j] by {
        assert(q[j] == rest[j - 1]);
        if i > 0 {
            assert(q[i] == rest[i - 1]);
        }
    }
}

/// The text of a trail behind `word` is the text of what follows the first
/// step behind `word` with the letter of the first step.
proof fn lemma_spell_step(board: Seq<Seq<char>>, word: Seq<char>, q: Seq<Letter>)
    requires
        q.len() >= 1,
    ensures
        word + spell(board, q) == word.push(at(board, q[0])) + spell(board, q.drop_first()),
{
    assert(word + spell(board, q) =~= word.push(at(board, q[0])) + spell(board, q.drop_first()));
}

/// Where no word of the dictionary starts with `word`, no trail that goes on
/// from it spells a word.
proof fn lemma_dead_end(
    board: Seq<Seq<char>>,
    words: Set<Seq<u8>>,
    word: Seq<char>,
    q: Seq<Letter>,
)
    requires
        !has_prefix(words, encode_utf8(word)),
    ensures
        !counts_as_word(words, word + spell(board, q)),
{
    lemma_encode_concat(word, spell(board, q));
    assert(encode_utf8(word).is_prefix_of(encode_utf8(word + spell(board, q))));
}

/// The recorded trails whose first step is to `next`: that step alone, where
/// it gives a word, and then the step followed by each recorded trail from
/// `next`.
pub open spec fn hits_through(
    next: Letter,
    is_a_word: bool,
    deeper: Seq<Seq<Letter>>,
) -> Seq<Seq<Letter>> {
    (if is_a_word {
        seq![seq![next]]
    } else {
        Seq::<Seq<Letter>>::empty()
    }) + Seq::new(deeper.len(), |i: int| seq![next] + deeper[i])
}

/// One round of the search: the step to `next` is recorded where it gives a
/// word, and the recorded trails from `next` follow where a word of the
/// dictionary starts so.
proof fn lemma_round(
    board: Seq<Seq<char>>,
    words: Set<Seq<u8>>,
    word: Seq<char>,
    mask: Seq<Seq<u8>>,
    from: Letter,
    next: Letter,
    deeper: Seq<Seq<Letter>>,
    direct_out: Seq<Seq<char>>,
    deeper_out: Seq<Seq<char>>,
)
    requires
        is_grid(mask),
        open_neighbour(mask, from, next),
        direct_out == (if counts_as_word(words, word.push(at(board, next))) {
            seq![word.push(at(board, next))]
        } else {
            Seq::<Seq<char>>::empty()
        }),
        has_prefix(words, encode_utf8(word.push(at(board, next)))) ==> lists_hits(
            board,
            words,
            word.push(at(board, next)),
            with_cell(mask, next, VISITED),
            next,
            deeper,
            deeper_out,
        ),
        !has_prefix(words, encode_utf8(word.push(at(board, next)))) ==> deeper.len() == 0
            && deeper_out.len() == 0,
    ensures
        lists_hits_over(
            board,
            words,
            word,
            mask,
            from,
            seq![next],
            hits_through(next, counts_as_word(words, word.push(at(board, next))), deeper),
            direct_out + deeper_out,
        ),
{
    let longer = word.push(at(board, next));
    let marked = with_cell(mask, next, VISITED);
    let is_a_word = counts_as_word(words, longer);
    let goes_on = has_prefix(words, encode_utf8(longer));
    let fresh = hits_through(next, is_a_word, deeper);
    let out = direct_out + deeper_out;
    let off: int = if is_a_word {
        1
    } else {
        0
    };
    let one = seq![next];
    assert(one.drop_first() =~= Seq::<Letter>::empty());
    lemma_trail_longer(mask, from, next, Seq::empty());
    assert(one + Seq::<Letter>::empty() =~= one);
    lemma_spell_step(board, word, one);
    assert(longer + spell(board, Seq::<Letter>::empty()) =~= longer);
    assert(word + spell(board, one) == longer);
    assert forall|i: int| 0 <= i < deeper.len() implies is_hit(
        board,
        words,
        word,
        mask,
        from,
        #[trigger] fresh[off + i],
    ) && fresh[off + i] == one + deeper[i] && word + spell(board, fresh[off + i]) == longer
        + spell(board, deeper[i]) by {
        let d = deeper[i];
        assert(deeper.contains(d));
        assert(is_hit(board, words, longer, marked, next, d));
        lemma_trail_longer(mask, from, next, d);
        lemma_spell_step(board, word, one + d);
        assert((one + d).drop_first() =~= d);
    }
    assert forall|i: int| 0 <= i < fresh.len() implies is_hit(
        board,
        words,
        word,
        mask,
        from,
        #[trigger] fresh[i],
    ) && fresh[i][0] == next && out[i] == word + spell(board, fresh[i]) by {
        if i >= off {
            assert(fresh[i] == fresh[off + (i - off)]);
            assert(out[i] == deeper_out[i - off]);
        }
    }
    assert forall|q: Seq<Letter>| #[trigger]
        fresh.contains(q) <==> is_hit(board, words, word, mask, from, q) && one.contains(
            q[0],
        ) by {
        if fresh.contains(q) {
            let i = choose|i: int| 0 <= i < fresh.len() && fresh[i] == q;
            assert(is_hit(board, words, word, mask, from, fresh[i]));
            assert(one[0] == q[0]);
        }
        if is_hit(board, words, word, mask, from, q) && one.contains(q[0]) {
            assert(q[0] == next);
            lemma_spell_step(board, word, q);
            if q.len() == 1 {
                assert(q =~= one);
                assert(q.drop_first() =~= Seq::<Letter>::empty());
                assert(fresh[0] == q);
            } else {
                let rest = q.drop_first();
                lemma_trail_rest(mask, from, q);
                if goes_on {
                    assert(is_hit(board, words, longer, marked, next, rest));
                    assert(deeper.contains(rest));
                    let i = choose|i: int| 0 <= i < deeper.len() && deeper[i] == rest;
                    assert(one + rest =~= q);
                    assert(fresh[off + i] == q);
                } else {
                    lemma_dead_end(board, words, longer, rest);
                }
            }
        }
    }
    assert forall|i: int, j: int| 0 <= i < j < fresh.len() implies fresh[i] != fresh[j] by {
        if i < off {
            assert(fresh[i].len() == 1);
            assert(fresh[j] == fresh[off + (j - off)]);
            assert(deeper.contains(deeper[j - off]));
            assert(fresh[j].len() >= 2);
        } else {
            assert(fresh[i] == fresh[off + (i - off)]);
            assert(fresh[j] == fresh[off + (j - off)]);
            assert((one + deeper[i - off]).drop_first() =~= deeper[i - off]);
            assert((one + deeper[j - off]).drop_first() =~= deeper[j - off]);
        }
    }
}

/// The rounds add up: what is listed over the first cells `firsts` and what
/// is listed over a further cell make the list over all of them.
proof fn lemma_rounds_add_up(
    board: Seq<Seq<char>>,
    words: Set<Seq<u8>>,
    word: Seq<char>,
    mask: Seq<Seq<u8>>,
    from: Letter,
    firsts: Seq<Letter>,
    next: Letter,
    trails: Seq<Seq<Letter>>,
    out: Seq<Seq<char>>,
    fresh: Seq<Seq<Letter>>,
    fresh_out: Seq<Seq<char>>,
)
    requires
        !firsts.contains(next),
        lists_hits_over(board, words, word, mask, from, firsts, trails, out),
        lists_hits_over(board, words, word, mask, from, seq![next], fresh, fresh_out),
    ensures
        lists_hits_over(
            board,
            words,
            word,
            mask,
            from,
            firsts.push(next),
            trails + fresh,
            out + fresh_out,
        ),
{
    let all = trails + fresh;
    let one = seq![next];
    assert forall|q: Seq<Letter>| #[trigger]
        all.contains(q) <==> is_hit(board, words, word, mask, from, q) && firsts.push(
            next,
        ).contains(q[0]) by {
        lemma_concat_contains(trails, fresh, q);
        lemma_concat_contains(firsts, one, q[0]);
        assert(firsts.push(next) =~= firsts + one);
    }
    assert forall|i: int, j: int| 0 <= i < j < all.len() implies all[i] != all[j] by {
        if i < trails.len() && j >= trails.len() {
            assert(trails.contains(all[i]));
            assert(fresh.contains(fresh[j - trails.len()]));
            assert(one.contains(all[j][0]));
            assert(one[0] == all[j][0]);
        } else if i >= trails.len() {
            assert(all[i] == fresh[i - trails.len()] && all[j] == fresh[j - trails.len()]);
        }
    }
    assert forall|i: int| 0 <= i < all.len() implies (out + fresh_out)[i] == word + spell(
        board,
        #[trigger] all[i],
    ) by {
        if i >= trails.len() {
            assert(all[i] == fresh[i - trails.len()]);
        } else {
            assert(all[i] == trails[i]);
        }
    }
}

/// A list with one text for each recorded trail holds exactly the texts that
/// a trail gives and that count as words.
pub proof fn lemma_hits_are_what_is_found(
    board: Seq<Seq<char>>,
    words: Set<Seq<u8>>,
    word: Seq<char>,
    mask: Seq<Seq<u8>>,
    from: Letter,
    trails: Seq<Seq<Letter>>,
    out: Seq<Seq<char>>,
)
    requires
        lists_hits(board, words, word, mask, from, trails, out),
    ensures
        forall|w: Seq<char>| out.contains(w) <==> found_from(board, words, word, mask, from, w),
{
    assert forall|w: Seq<char>| out.contains(w) <==> found_from(
        board,
        words,
        word,
        mask,
        from,
        w,
    ) by {
        if out.contains(w) {
            let i = choose|i: int| 0 <= i < out.len() && out[i] == w;
            assert(trails.contains(trails[i]));
            assert(is_trail(mask, from, trails[i]));
        }
        if found_from(board, words, word, mask, from, w) {
            let q = choose|q: Seq<Letter>| #[trigger]
                is_trail(mask, from, q) && w == word + spell(board, q) && counts_as_word(
                    words,
                    w,
                );
            assert(trails.contains(q));
            let i = choose|i: int| 0 <= i < trails.len() && trails[i] == q;
            assert(out[i] == w);
        }
    }
}

/// In a list with one text for each recorded trail, a text stands as often
/// as there are recorded trails that give it.
pub proof fn lemma_hits_are_counted(
    board: Seq<Seq<char>>,
    words: Set<Seq<u8>>,
    word: Seq<char>,
    mask: Seq<Seq<u8>>,
    from: Letter,
    trails: Seq<Seq<Letter>>,
    out: Seq<Seq<char>>,
    w: Seq<char>,
)
    requires
        lists_hits(board, words, word, mask, from, trails, out),
    ensures
        hits(board, words, word, mask, from).finite(),
        out.len() == hits(board, words, word, mask, from).len(),
        hits_for(board, words, word, mask, from, w).finite(),
        out.to_multiset().count(w) == hits_for(board, words, word, mask, from, w).len(),
{
    assert(trails.to_set() =~= hits(board, words, word, mask, from));
    vstd::seq_lib::seq_to_set_is_finite(trails);
    trails.unique_seq_to_set();
    let f = |q: Seq<Letter>| word + spell(board, q);
    lemma_count_of_images(trails, f, out, w);
    assert(taken_to(trails, f, w) =~= hits_for(board, words, word, mask, from, w));
}

/// The words that trails from `letter` add to `word`. The list holds one text
/// for each trail over free cells whose letters, behind `word`, give a text
/// that counts as a word: a text that several trails spell stands in it once
/// for each of them. The mask is marked along the way and left as it was.
pub fn find_words(
    word: &String,
    letter: &Letter,
    visited: &mut Vec<Vec<u8>>,
    board: &Vec<Vec<char>>,
    dict: &Trie<u8>,
) -> (words: Vec<String>)
    requires
        in_grid(*letter),
        is_mask(rows(old(visited))),
        is_grid(rows(board)),
    ensures
        rows(final(visited)) == rows(old(visited)),
        exists|trails: Seq<Seq<Letter>>| #[trigger]
            lists_hits(
                rows(board),
                trie_words(*dict),
                word@,
                rows(old(visited)),
                *letter,
                trails,
                texts(&words),
            ),
        forall|w: Seq<char>|
            texts(&words).contains(w) <==> found_from(
                rows(board),
                trie_words(*dict),
                word@,
                rows(old(visited)),
                *letter,
                w,
            ),
        hits(rows(board), trie_words(*dict), word@, rows(old(visited)), *letter).finite(),
        words@.len() == hits(
            rows(board),
            trie_words(*dict),
            word@,
            rows(old(visited)),
            *letter,
        ).len(),
        forall|w: Seq<char>|
            (#[trigger] hits_for(
                rows(board),
                trie_words(*dict),
                word@,
                rows(old(visited)),
                *letter,
                w,
            )).finite() && texts(&words).to_multiset().count(w) == hits_for(
                rows(board),
                trie_words(*dict),
                word@,
                rows(old(visited)),
                *letter,
                w,
            ).len(),
    decreases free_cells(rows(old(visited))),
{
    let mut words: Vec<String> = Vec::new();
    let neighbours = unvisited_neighbours(letter, visited);
    let ghost mask = rows(visited);
    let ghost grid = rows(board);
    let ghost known = trie_words(*dict);
    let ghost mut trails: Seq<Seq<Letter>> = Seq::empty();
    let mut k: usize = 0;
    assert(texts(&words) =~= Seq::empty());
    assert(neighbours@.take(0) =~= Seq::empty());
    while k < neighbours.len()
        invariant
            k <= neighbours@.len(),
            in_grid(*letter),
            is_mask(mask),
            is_grid(grid),
            rows(visited) == mask,
            grid == rows(board),
            known == trie_words(*dict),
            free_cells(mask) == free_cells(rows(old(visited))),
            forall|n: Letter| neighbours@.contains(n) <==> open_neighbour(mask, *letter, n),
            forall|i: int, j: int|
                0 <= i < j < neighbours@.len() ==> cell_index(neighbours@[i]) < cell_index(
                    neighbours@[j],
                ),
            lists_hits_over(
                grid,
                known,
                word@,
                mask,
                *letter,
                neighbours@.take(k as int),
                trails,
                texts(&words),
            ),
        decreases neighbours@.len() - k,
    {
        let next = neighbours[k];
        let ghost so_far = texts(&words);
        assert(neighbours@.contains(next));
        assert(grid[next.row as int] == board@[next.row as int]@);
        set_cell(visited, &next, VISITED);
        let mut new_word = word.clone();
        new_word.push(board[next.row as usize][next.col as usize]);
        let ghost marked = with_cell(mask, next, VISITED);
        let ghost mut direct: Seq<Seq<char>> = Seq::empty();
        let ghost mut below: Seq<Seq<char>> = Seq::empty();
        let ghost mut deeper_trails: Seq<Seq<Letter>> = Seq::empty();
        if is_word(dict, &new_word) {
            words.push(new_word.clone());
            proof {
                direct = seq![new_word@];
            }
        }
        if is_word_prefix(dict, &new_word) {
            proof {
                lemma_mark_uses_a_cell(mask, next);
            }
            let mut deeper = find_words(&new_word, &next, visited, board, dict);
            proof {
                below = texts(&deeper);
                deeper_trails = choose|t: Seq<Seq<Letter>>| #[trigger]
                    lists_hits(grid, known, new_word@, marked, next, t, below);
            }
            words.append(&mut deeper);
        }
        set_cell(visited, &next, EMPTY);
        proof {
            assert(rows(visited) =~~= mask);
            assert(texts(&words) =~= so_far + (direct + below));
            let firsts = neighbours@.take(k as int);
            let fresh = hits_through(next, counts_as_word(known, new_word@), deeper_trails);
            lemma_round(
                grid,
                known,
                word@,
                mask,
                *letter,
                next,
                deeper_trails,
                direct,
                below,
            );
            if firsts.contains(next) {
                let j = choose|j: int| 0 <= j < firsts.len() && firsts[j] == next;
                assert(cell_index(neighbours@[j]) < cell_index(neighbours@[k as int]));
            }
            lemma_rounds_add_up(
                grid,
                known,
                word@,
                mask,
                *letter,
                firsts,
                next,
                trails,
                so_far,
                fresh,
                direct + below,
            );
            assert(neighbours@.take(k + 1) =~= firsts.push(next));
            trails = trails + fresh;
        }
        k += 1;
    }
    proof {
        assert(neighbours@.take(k as int) =~= neighbours@);
        assert forall|q: Seq<Letter>| #[trigger]
            trails.contains(q) <==> is_hit(grid, known, word@, mask, *letter, q) by {
            if is_hit(grid, known, word@, mask, *letter, q) {
                assert(open_neighbour(mask, *letter, q[0]));
            }
        }
        assert(lists_hits(grid, known, word@, mask, *letter, trails, texts(&words)));
        lemma_hits_are_what_is_found(grid, known, word@, mask, *letter, trails, texts(&words));
        lemma_hits_are_counted(
            grid,
            known,
            word@,
            mask,
            *letter,
            trails,
            texts(&words),
            Seq::empty(),
        );
        assert forall|w: Seq<char>|
            (#[trigger] hits_for(grid, known, word@, mask, *letter, w)).finite() && texts(
                &words,
            ).to_multiset().count(w) == hits_for(grid, known, word@, mask, *letter, w).len() by {
            lemma_hits_are_counted(grid, known, word@, mask, *letter, trails, texts(&words), w);
        }
    }
    words
}

/// The mask in which `start` alone is marked.
pub open spec fn start_mask(start: Letter) -> Seq<Seq<u8>> {
    with_cell(Seq::new(4, |r: int| Seq::new(4, |c: int| EMPTY)), start, VISITED)
}

/// `w` is spelled by a path that starts at `start` and goes on from it, and
/// counts as a word.
pub open spec fn found_at(
    board: Seq<Seq<char>>,
    words: Set<Seq<u8>>,
    start: Letter,
    w: Seq<char>,
) -> bool {
    found_from(board, words, seq![at(board, start)], start_mask(start), start, w)
}

/// A word on the board is spelled by a start cell and a trail from it: a
/// word has four letters, so its path has more than one cell.
proof fn lemma_found_on_board(board: Seq<Seq<char>>, words: Set<Seq<u8>>, w: Seq<char>)
    ensures
        on_board(board, w) && counts_as_word(words, w) <==> exists|s: Letter|
            in_grid(s) && #[trigger] found_at(board, words, s, w),
{
    assert forall|s: Letter, x: Letter| in_grid(s) && in_grid(x) implies (is_free(
        start_mask(s),
        x,
    ) <==> x != s) by {
        if x.row == s.row && x.col == s.col {
            assert(x == s);
        }
    }
    if on_board(board, w) && counts_as_word(words, w) {
        let p = choose|p: Seq<Letter>| #[trigger] is_path(p) && spell(board, p) == w;
        assert(p.len() == w.len());
        let s = p[0];
        let q = p.drop_first();
        assert forall|i: int| 0 <= i < q.len() implies in_grid(#[trigger] q[i]) && is_free(
            start_mask(s),
            q[i],
        ) by {
            assert(q[i] == p[i + 1]);
            assert(p[0] != p[i + 1]);
        }
        assert forall|i: int| 0 <= i < q.len() - 1 implies adjacent(#[trigger] q[i], q[i + 1]) by {
            assert(q[i] == p[i + 1]);
            assert(adjacent(p[i + 1], p[i + 1 + 1]));
        }
        assert(adjacent(p[0], p[0int + 1]));
        assert(is_trail(start_mask(s), s, q));
        assert(seq![at(board, s)] + spell(board, q) =~= spell(board, p));
        assert(found_at(board, words, s, w));
    }
    if exists|s: Letter| in_grid(s) && #[trigger] found_at(board, words, s, w) {
        let s = choose|s: Letter| in_grid(s) && #[trigger] found_at(board, words, s, w);
        let q = choose|q: Seq<Letter>| #[trigger]
            is_trail(start_mask(s), s, q) && w == seq![at(board, s)] + spell(board, q)
                && counts_as_word(words, w);
        let p = seq![s] + q;
        assert forall|i: int| 0 <= i < p.len() implies in_grid(#[trigger] p[i]) by {
            if i > 0 {
                assert(p[i] == q[i - 1]);
            }
        }
        assert forall|i: int| 0 <= i < p.len() - 1 implies adjacent(#[trigger] p[i], p[i + 1]) by {
            assert(p[i + 1] == q[i]);
            if i > 0 {
                assert(p[i] == q[i - 1]);
                assert(adjacent(q[i - 1], q[i - 1 + 1]));
            }
        }
        assert forall|i: int, j: int| 0 <= i < j < p.len() implies p[i] != p[j] by {
            assert(p[j] == q[j - 1]);
            if i > 0 {
                assert(p[i] == q[i - 1]);
            }
        }
        assert(is_path(p));
        assert(spell(board, p) =~= seq![at(board, s)] + spell(board, q));
    }
}

/// The solution of a board is a function of the board and the dictionary:
/// two lists that both are a solution are the same list.
pub proof fn lemma_solution_unique(
    board: Seq<Seq<char>>,
    words: Set<Seq<u8>>,
    a: Seq<Seq<char>>,
    b: Seq<Seq<char>>,
)
    requires
        is_solution(board, words, a),
        is_solution(board, words, b),
    ensures
        a == b,
{
    lemma_ascending_unique(a, b);
}

/// All words on the board: every text of four characters or more that a path
/// of adjacent cells spells, no cell used twice, and that the dictionary
/// holds; in ascending order, each once.
pub fn solve(board: &Vec<Vec<char>>, dict: &Trie<u8>) -> (words: Vec<String>)
    requires
        is_grid(rows(board)),
    ensures
        is_solution(rows(board), trie_words(*dict), texts(&words)),
        forall|i: int, j: int|
            0 <= i < j < words@.len() ==> word_lt(words@[i]@, words@[j]@) && words@[i]@
                != words@[j]@,
        forall|i: int|
            0 <= i < words@.len() ==> (#[trigger] words@[i])@.len() >= 4 && trie_words(
                *dict,
            ).contains(encode_utf8(words@[i]@)) && on_board(rows(board), words@[i]@),
        forall|w: Seq<char>|
            on_board(rows(board), w) && counts_as_word(trie_words(*dict), w) ==> texts(
                &words,
            ).contains(w),
        (forall|w: Seq<char>| on_board(rows(board), w) ==> !counts_as_word(trie_words(*dict), w))
            ==> words@.len() == 0,
        (forall|b: Seq<u8>| !trie_words(*dict).contains(b)) ==> words@.len() == 0,
{
    let mut all_words: Vec<String> = Vec::new();
    let ghost grid = rows(board);
    let ghost known = trie_words(*dict);
    assert(texts(&all_words) =~= Seq::empty());
    let mut row: usize = 0;
    while row < 4
        invariant
            row <= 4,
            is_grid(grid),
            grid == rows(board),
            known == trie_words(*dict),
            forall|w: Seq<char>|
                #![trigger texts(&all_words).contains(w)]
                texts(&all_words).contains(w) <==> exists|s: Letter|
                    in_grid(s) && s.row < row && #[trigger] found_at(grid, known, s, w),
        decreases 4 - row,
    {
        let mut col: usize = 0;
        while col < 4
            invariant
                row < 4,
                col <= 4,
                is_grid(grid),
                grid == rows(board),
                known == trie_words(*dict),
                forall|w: Seq<char>|
                    #![trigger texts(&all_words).contains(w)]
                    texts(&all_words).contains(w) <==> exists|s: Letter|
                        in_grid(s) && (s.row < row || (s.row == row && s.col < col))
                            && #[trigger] found_at(grid, known, s, w),
            decreases 4 - col,
        {
            let letter: Letter = Letter { row: row as i8, col: col as i8 };
            let mut visited: Vec<Vec<u8>> = new_mask();
            set_cell(&mut visited, &letter, VISITED);
            assert(grid[row as int] == board@[row as int]@);
            let mut word = String::new();
            word.push(board[row][col]);
            assert(word@ =~= seq![at(grid, letter)]);
            let ghost so_far = texts(&all_words);
            let mut found = find_words(&word, &letter, &mut visited, board, dict);
            let ghost here = texts(&found);
            all_words.append(&mut found);
            proof {
                assert(texts(&all_words) =~= so_far + here);
                assert forall|w: Seq<char>|
                    #![trigger texts(&all_words).contains(w)]
                    texts(&all_words).contains(w) <==> exists|s: Letter|
                        in_grid(s) && (s.row < row || (s.row == row && s.col < col + 1))
                            && #[trigger] found_at(grid, known, s, w) by {
                    lemma_concat_contains(so_far, here, w);
                    assert(here.contains(w) <==> found_at(grid, known, letter, w));
                    if exists|s: Letter|
                        in_grid(s) && (s.row < row || (s.row == row && s.col < col + 1))
                            && #[trigger] found_at(grid, known, s, w) {
                        let s = choose|s: Letter|
                            in_grid(s) && (s.row < row || (s.row == row && s.col < col + 1))
                                && #[trigger] found_at(grid, known, s, w);
                        if s.row == row && s.col == col {
                            assert(s == letter);
                        }
                    }
                }
            }
            col += 1;
        }
        row += 1;
    }
    let words = sort_dedup(&all_words);
    proof {
        let out = texts(&words);
        assert forall|w: Seq<char>|
            out.contains(w) <==> on_board(grid, w) && counts_as_word(known, w) by {
            lemma_found_on_board(grid, known, w);
        }
        lemma_ascending_distinct(out);
        assert forall|i: int, j: int| 0 <= i < j < words@.len() implies word_lt(
            words@[i]@,
            words@[j]@,
        ) && words@[i]@ != words@[j]@ by {
            assert(out[i] == words@[i]@ && out[j] == words@[j]@);
        }
        assert forall|i: int| 0 <= i < words@.len() implies on_board(grid, words@[i]@)
            && counts_as_word(known, (#[trigger] words@[i])@) by {
            assert(out[i] == words@[i]@);
            assert(out.contains(out[i]));
        }
        if words@.len() > 0 {
            assert(out.contains(out[0]));
        }
    }
    words
}

/// A mask with every cell free.
fn new_mask() -> (mask: Vec<Vec<u8>>)
    ensures
        rows(&mask) == Seq::new(4, |r: int| Seq::new(4, |c: int| EMPTY)),
{
    let mask = vec![vec![EMPTY; 4]; 4];
    assert(rows(&mask) =~~= Seq::new(4, |r: int| Seq::new(4, |c: int| EMPTY)));
    mask
}

} // verus!
