//! What filters make of sequences.

use vstd::prelude::*;

verus! {

/// What a filter keeps belongs to the sequence and meets the condition.
pub proof fn lemma_filter_members<T>(s: Seq<T>, pred: spec_fn(T) -> bool)
    ensures
        forall|i: int|
            0 <= i < s.filter(pred).len() ==> s.contains(#[trigger] s.filter(pred)[i]) && pred(
                s.filter(pred)[i],
            ),
    decreases s.len(),
{
    reveal(Seq::filter);
    if s.len() > 0 {
        let front = s.drop_last();
        lemma_filter_members(front, pred);
        let kept = s.filter(pred);
        assert forall|i: int| 0 <= i < kept.len() implies s.contains(#[trigger] kept[i]) && pred(
            kept[i],
        ) by {
            if i < front.filter(pred).len() {
                let x = front.filter(pred)[i];
                assert(kept[i] == x);
                let k = choose|k: int| 0 <= k < front.len() && front[k] == x;
                assert(s[k] == x);
            } else {
                assert(kept[i] == s.last());
            }
        }
    }
}

/// A filter keeps everything where everything meets the condition.
pub proof fn lemma_filter_all<T>(s: Seq<T>, pred: spec_fn(T) -> bool)
    requires
        forall|i: int| 0 <= i < s.len() ==> pred(#[trigger] s[i]),
    ensures
        s.filter(pred) == s,
    decreases s.len(),
{
    reveal(Seq::filter);
    if s.len() > 0 {
        lemma_filter_all(s.drop_last(), pred);
        assert(s == s.drop_last().push(s.last()));
    }
}

/// A filter keeps nothing where nothing meets the condition.
pub proof fn lemma_filter_none<T>(s: Seq<T>, pred: spec_fn(T) -> bool)
    requires
        forall|i: int| 0 <= i < s.len() ==> !pred(#[trigger] s[i]),
    ensures
        s.filter(pred) == Seq::<T>::empty(),
    decreases s.len(),
{
    reveal(Seq::filter);
    if s.len() > 0 {
        lemma_filter_none(s.drop_last(), pred);
    }
}

/// What a filter makes of a single value.
pub proof fn lemma_filter_one<T>(x: T, pred: spec_fn(T) -> bool)
    ensures
        seq![x].filter(pred) == (if pred(x) { seq![x] } else { Seq::<T>::empty() }),
{
    reveal_with_fuel(Seq::filter, 2);
    assert(seq![x].drop_last() == Seq::<T>::empty());
}

/// A filter keeps what meets the condition.
pub proof fn lemma_filter_keeps<T>(s: Seq<T>, pred: spec_fn(T) -> bool, k: int)
    requires
        0 <= k < s.len(),
        pred(s[k]),
    ensures
        s.filter(pred).contains(s[k]),
    decreases s.len(),
{
    reveal(Seq::filter);
    let front = s.drop_last();
    if k < front.len() {
        lemma_filter_keeps(front, pred, k);
        assert(front[k] == s[k]);
        let i = front.filter(pred).index_of(s[k]);
        assert(front.filter(pred)[i] == s[k]);
        assert(s.filter(pred)[i] == s[k]);
    } else {
        assert(s.filter(pred).last() == s[k]);
    }
}

/// A filter makes nothing occur twice.
pub proof fn lemma_filter_distinct<T>(s: Seq<T>, pred: spec_fn(T) -> bool)
    requires
        s.no_duplicates(),
    ensures
        s.filter(pred).no_duplicates(),
    decreases s.len(),
{
    reveal(Seq::filter);
    if s.len() > 0 {
        let front = s.drop_last();
        lemma_filter_distinct(front, pred);
        if pred(s.last()) {
            let f = front.filter(pred);
            assert forall|i: int| 0 <= i < f.len() implies f[i] != s.last() by {
                lemma_filter_members(front, pred);
                let k = front.index_of(f[i]);
                assert(s[k] == f[i]);
            }
        }
    }
}

} // verus!
