//! What is needed of `Seq::filter`.

use vstd::prelude::*;

verus! {

/// What passes a filter from index `at` on: the item at `at` if it passes,
/// and what passes behind it.
pub proof fn lemma_filter_suffix<T>(s: Seq<T>, at: int, pred: spec_fn(T) -> bool)
    requires
        0 <= at <= s.len(),
    ensures
        s.skip(at).filter(pred) == if at == s.len() {
            Seq::<T>::empty()
        } else if pred(s[at]) {
            seq![s[at]] + s.skip(at + 1).filter(pred)
        } else {
            s.skip(at + 1).filter(pred)
        },
{
    reveal_with_fuel(Seq::filter, 2);
    if at < s.len() {
        let head = seq![s[at]];
        assert(s.skip(at) == head + s.skip(at + 1));
        Seq::filter_distributes_over_add(head, s.skip(at + 1), pred);
        assert(head.filter(pred) == if pred(s[at]) {
            head
        } else {
            Seq::<T>::empty()
        });
    }
}

/// Whatever passes a filter was there before, and passes.
pub proof fn lemma_filter_member<T>(s: Seq<T>, pred: spec_fn(T) -> bool, a: int)
    requires
        0 <= a < s.filter(pred).len(),
    ensures
        exists|i: int| 0 <= i < s.len() && #[trigger] s[i] == s.filter(pred)[a] && pred(s[i]),
    decreases s.len(),
{
    reveal(Seq::filter);
    let front = s.drop_last();
    if a < front.filter(pred).len() {
        lemma_filter_member(front, pred, a);
        let i = choose|i: int|
            0 <= i < front.len() && #[trigger] front[i] == front.filter(pred)[a] && pred(front[i]);
        assert(s[i] == s.filter(pred)[a]);
    } else {
        assert(s[s.len() - 1] == s.filter(pred)[a]);
    }
}

/// A filter keeps the order of what passes.
pub proof fn lemma_filter_order<T>(s: Seq<T>, pred: spec_fn(T) -> bool, a: int, b: int)
    requires
        0 <= a < b < s.filter(pred).len(),
    ensures
        exists|i: int, j: int|
            0 <= i < j < s.len() && #[trigger] s[i] == s.filter(pred)[a] && #[trigger] s[j]
                == s.filter(pred)[b],
    decreases s.len(),
{
    reveal(Seq::filter);
    let front = s.drop_last();
    if b < front.filter(pred).len() {
        lemma_filter_order(front, pred, a, b);
        let (i, j) = choose|i: int, j: int|
            0 <= i < j < front.len() && #[trigger] front[i] == front.filter(pred)[a]
                && #[trigger] front[j] == front.filter(pred)[b];
        assert(s[i] == s.filter(pred)[a] && s[j] == s.filter(pred)[b]);
    } else {
        lemma_filter_member(front, pred, a);
        let i = choose|i: int|
            0 <= i < front.len() && #[trigger] front[i] == front.filter(pred)[a] && pred(front[i]);
        assert(s[i] == s.filter(pred)[a] && s[s.len() - 1] == s.filter(pred)[b]);
    }
}

/// A filter that everything passes changes nothing.
pub proof fn lemma_filter_all<T>(s: Seq<T>, pred: spec_fn(T) -> bool)
    requires
        forall|i: int| 0 <= i < s.len() ==> pred(#[trigger] s[i]),
    ensures
        s.filter(pred) == s,
    decreases s.len(),
{
    reveal(Seq::filter);
    if s.len() > 0 {
        lemma_filter_all(s.drop_last(), pred);
        assert(s.drop_last().push(s.last()) == s);
    }
}

} // verus!
