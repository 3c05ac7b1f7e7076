//! Small facts about sequences.

use vstd::multiset::Multiset;
use vstd::prelude::*;

verus! {

/// A pushed sequence holds what it held before, and the new element.
pub proof fn lemma_push_contains<T>(s: Seq<T>, x: T)
    ensures
        forall|y: T| #[trigger] s.push(x).contains(y) <==> s.contains(y) || y == x,
{
    assert forall|y: T| #[trigger] s.push(x).contains(y) implies s.contains(y) || y == x by {
        let k = choose|k: int| 0 <= k < s.push(x).len() && s.push(x)[k] == y;
        if k < s.len() {
            assert(s[k] == y);
        }
    }
    assert forall|y: T| s.contains(y) || y == x implies #[trigger] s.push(x).contains(y) by {
        if s.contains(y) {
            let k = choose|k: int| 0 <= k < s.len() && s[k] == y;
            assert(s.push(x)[k] == y);
        } else {
            assert(s.push(x)[s.len() as int] == y);
        }
    }
}

/// A concatenation holds what either part holds.
pub proof fn lemma_concat_contains<T>(a: Seq<T>, b: Seq<T>, x: T)
    ensures
        (a + b).contains(x) <==> a.contains(x) || b.contains(x),
{
    if (a + b).contains(x) {
        let k = choose|k: int| 0 <= k < (a + b).len() && (a + b)[k] == x;
        if k < a.len() {
            assert(a[k] == x);
        } else {
            assert(b[k - a.len()] == x);
        }
    }
    if a.contains(x) {
        let k = choose|k: int| 0 <= k < a.len() && a[k] == x;
        assert((a + b)[k] == x);
    }
    if b.contains(x) {
        let k = choose|k: int| 0 <= k < b.len() && b[k] == x;
        assert((a + b)[a.len() + k] == x);
    }
}

/// The elements of `items` that `f` takes to `w`.
pub open spec fn taken_to<A, B>(items: Seq<A>, f: spec_fn(A) -> B, w: B) -> Set<A> {
    Set::new(|a: A| items.contains(a) && f(a) == w)
}

/// Where `out` holds the image under `f` of each element of a list without
/// repeats, a value stands in `out` as often as the list has elements that
/// `f` takes to it.
pub proof fn lemma_count_of_images<A, B>(items: Seq<A>, f: spec_fn(A) -> B, out: Seq<B>, w: B)
    requires
        forall|i: int, j: int| 0 <= i < j < items.len() ==> items[i] != items[j],
        out.len() == items.len(),
        forall|i: int| 0 <= i < items.len() ==> out[i] == f(items[i]),
    ensures
        taken_to(items, f, w).finite(),
        out.to_multiset().count(w) == taken_to(items, f, w).len(),
    decreases items.len(),
{
    if items.len() == 0 {
        assert(taken_to(items, f, w) =~= Set::<A>::empty());
        assert(out =~= Seq::<B>::empty());
        assert(out.to_multiset() =~= Multiset::<B>::empty()) by {
            vstd::seq_lib::to_multiset_len(out);
        }
    } else {
        let x = items.last();
        let front = items.drop_last();
        let out_front = out.drop_last();
        lemma_count_of_images(front, f, out_front, w);
        assert(out =~= out_front.push(f(x)));
        vstd::seq_lib::to_multiset_build(out_front, f(x));
        assert(!front.contains(x)) by {
            if front.contains(x) {
                let k = choose|k: int| 0 <= k < front.len() && front[k] == x;
                assert(items[k] == items[items.len() - 1]);
            }
        }
        assert forall|a: A| items.contains(a) <==> front.contains(a) || a == x by {
            assert(items =~= front.push(x));
            lemma_push_contains(front, x);
        }
        if f(x) == w {
            assert(taken_to(items, f, w) =~= taken_to(front, f, w).insert(x));
        } else {
            assert(taken_to(items, f, w) =~= taken_to(front, f, w));
        }
    }
}

} // verus!
