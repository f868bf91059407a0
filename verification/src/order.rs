//! The order of byte sequences, and a stable sort.

use vstd::prelude::*;

use crate::sequence;

verus! {

/// Lexicographic order on byte sequences: the order of `[u8]`, and so of
/// `str` and of file names.
pub open spec fn before(a: Seq<u8>, b: Seq<u8>) -> bool
    decreases a.len(),
{
    if b.len() == 0 {
        false
    } else if a.len() == 0 {
        true
    } else if a[0] != b[0] {
        a[0] < b[0]
    } else {
        before(a.drop_first(), b.drop_first())
    }
}

/// No byte sequence comes before itself.
pub proof fn lemma_before_irreflexive(a: Seq<u8>)
    ensures
        !before(a, a),
    decreases a.len(),
{
    if a.len() > 0 {
        lemma_before_irreflexive(a.drop_first());
    }
}

/// The order of byte sequences is transitive.
pub proof fn lemma_before_transitive(a: Seq<u8>, b: Seq<u8>, c: Seq<u8>)
    requires
        before(a, b),
        before(b, c),
    ensures
        before(a, c),
    decreases a.len(),
{
    if a.len() > 0 && a[0] == b[0] && b[0] == c[0] {
        lemma_before_transitive(a.drop_first(), b.drop_first(), c.drop_first());
    }
}

/// Of two different byte sequences one comes before the other.
pub proof fn lemma_before_total(a: Seq<u8>, b: Seq<u8>)
    ensures
        before(a, b) || before(b, a) || a == b,
    decreases a.len(),
{
    if a.len() > 0 && b.len() > 0 && a[0] == b[0] {
        lemma_before_total(a.drop_first(), b.drop_first());
        if a.drop_first() == b.drop_first() {
            assert(a == seq![a[0]] + a.drop_first());
            assert(b == seq![b[0]] + b.drop_first());
        }
    } else if a.len() == 0 && b.len() == 0 {
        assert(a == b);
    }
}

/// The laws of the order of byte sequences, for three of them.
pub proof fn lemma_before(a: Seq<u8>, b: Seq<u8>, c: Seq<u8>)
    ensures
        !before(a, a),
        before(a, b) ==> !before(b, a),
        before(a, b) && before(b, c) ==> before(a, c),
        !before(b, a) && !before(c, b) ==> !before(c, a),
{
    lemma_before_irreflexive(a);
    if before(a, b) && before(b, a) {
        lemma_before_transitive(a, b, a);
    }
    if before(a, b) && before(b, c) {
        lemma_before_transitive(a, b, c);
    }
    if !before(b, a) && !before(c, b) && before(c, a) {
        lemma_before_total(a, b);
        if a != b {
            lemma_before_transitive(c, a, b);
        }
    }
}

/// Whether one byte sequence comes before another.
pub fn comes_before(a: &[u8], b: &[u8]) -> (r: bool)
    ensures
        r == before(a@, b@),
{
    let mut i: usize = 0;
    assert(a@.skip(0) == a@);
    assert(b@.skip(0) == b@);
    while i < a.len() && i < b.len()
        invariant
            i <= a@.len(),
            i <= b@.len(),
            before(a@, b@) == before(a@.skip(i as int), b@.skip(i as int)),
        decreases a.len() - i,
    {
        let ghost x = a@.skip(i as int);
        let ghost y = b@.skip(i as int);
        assert(x[0] == a@[i as int] && y[0] == b@[i as int]);
        if a[i] != b[i] {
            return a[i] < b[i];
        }
        assert(x.drop_first() == a@.skip(i + 1));
        assert(y.drop_first() == b@.skip(i + 1));
        i = i + 1;
    }
    i < b.len()
}

/// A type whose values have a rank by which they can be sorted.
pub trait Ranked: Sized {
    /// Whether this value belongs before another.
    spec fn ranks_before(&self, other: &Self) -> bool;

    /// Ranks are ordered: equal ranks apart, of any two one comes first.
    proof fn rank_laws(a: &Self, b: &Self, c: &Self)
        ensures
            !a.ranks_before(a),
            a.ranks_before(b) ==> !b.ranks_before(a),
            a.ranks_before(b) && b.ranks_before(c) ==> a.ranks_before(c),
            !b.ranks_before(a) && !c.ranks_before(b) ==> !c.ranks_before(a),
    ;

    /// Whether this value belongs before another.
    fn goes_before(&self, other: &Self) -> (r: bool)
        ensures
            r == self.ranks_before(other),
    ;
}

/// Whether two values have the same rank.
pub open spec fn same_rank<T: Ranked>(a: T, b: T) -> bool {
    !a.ranks_before(&b) && !b.ranks_before(&a)
}

/// Whether no value stands behind one that it belongs before.
pub open spec fn ordered<T: Ranked>(s: Seq<T>) -> bool {
    forall|i: int, j: int|
        #![trigger s[i], s[j]]
        0 <= i < j < s.len() ==> !s[j].ranks_before(&s[i])
}

/// The values of a sequence that have the rank of `x`, in their order.
pub open spec fn of_rank<T: Ranked>(s: Seq<T>, x: T) -> Seq<T> {
    s.filter(|y: T| same_rank(x, y))
}

/// Whether `sorted` holds the values of `input` in the order of their ranks,
/// those of equal rank in the order they had.
pub open spec fn stable_sort_of<T: Ranked>(input: Seq<T>, sorted: Seq<T>) -> bool {
    &&& ordered(sorted)
    &&& sorted.to_multiset() == input.to_multiset()
    &&& forall|x: T| #[trigger] of_rank(sorted, x) == of_rank(input, x)
}

/// Putting a value behind those that belong before it, and in front of the
/// others, extends a stable sort by a value in front.
proof fn lemma_insert_sorted<T: Ranked>(input: Seq<T>, sorted: Seq<T>, k: int, x: T)
    requires
        stable_sort_of(input, sorted),
        0 <= k <= sorted.len(),
        forall|i: int| 0 <= i < k ==> (#[trigger] sorted[i]).ranks_before(&x),
        k < sorted.len() ==> !sorted[k].ranks_before(&x),
    ensures
        stable_sort_of(seq![x] + input, sorted.insert(k, x)),
{
    let t = sorted.insert(k, x);
    assert forall|i: int, j: int|
        #![trigger t[i], t[j]]
        0 <= i < j < t.len() implies !t[j].ranks_before(&t[i]) by {
        if i < k && j == k {
            T::rank_laws(&sorted[i], &x, &x);
        } else if i == k && j > k {
            if j - 1 > k {
                assert(!sorted[j - 1].ranks_before(&sorted[k]));
            }
            T::rank_laws(&x, &sorted[k], &sorted[j - 1]);
            T::rank_laws(&sorted[j - 1], &sorted[j - 1], &sorted[j - 1]);
        } else {
            let a = if i < k { i } else { i - 1 };
            let b = if j < k { j } else { j - 1 };
            assert(!sorted[b].ranks_before(&sorted[a]));
        }
    }
    vstd::seq_lib::to_multiset_insert(sorted, k, x);
    assert((seq![x] + input) == input.insert(0, x));
    vstd::seq_lib::to_multiset_insert(input, 0, x);
    assert forall|w: T| #[trigger] of_rank(t, w) == of_rank(seq![x] + input, w) by {
        let pred = |y: T| same_rank(w, y);
        let front = sorted.take(k);
        let back = sorted.skip(k);
        assert(sorted == front + back);
        assert(t == front + (seq![x] + back));
        Seq::filter_distributes_over_add(front, back, pred);
        Seq::filter_distributes_over_add(front, seq![x] + back, pred);
        Seq::filter_distributes_over_add(seq![x], back, pred);
        Seq::filter_distributes_over_add(seq![x], input, pred);
        sequence::lemma_filter_one(x, pred);
        assert(of_rank(sorted, w) == of_rank(input, w));
        if same_rank(w, x) {
            assert forall|i: int| 0 <= i < front.len() implies !pred(#[trigger] front[i]) by {
                assert(front[i] == sorted[i]);
                T::rank_laws(&x, &w, &sorted[i]);
            }
            sequence::lemma_filter_none(front, pred);
            assert(front.filter(pred) + back.filter(pred) == back.filter(pred));
            assert(of_rank(t, w) == Seq::<T>::empty() + (seq![x] + back.filter(pred)));
            assert(of_rank(t, w) == seq![x] + back.filter(pred));
        } else {
            assert(Seq::<T>::empty() + back.filter(pred) == back.filter(pred));
            assert(Seq::<T>::empty() + input.filter(pred) == input.filter(pred));
        }
    }
}

/// The values in the order of their ranks, those of equal rank in the order
/// they had.
pub fn stable_sort<T: Ranked>(items: Vec<T>) -> (sorted: Vec<T>)
    ensures
        stable_sort_of(items@, sorted@),
{
    let ghost input = items@;
    let mut items = items;
    let mut sorted: Vec<T> = Vec::new();
    assert(input.skip(input.len() as int) == Seq::<T>::empty());
    while items.len() > 0
        invariant
            items@.len() <= input.len(),
            items@ == input.take(items@.len() as int),
            stable_sort_of(input.skip(items@.len() as int), sorted@),
        decreases items.len(),
    {
        let ghost rest = input.skip(items@.len() as int);
        let ghost n = items@.len();
        let popped = items.pop();
        assert(popped is Some);
        if let Some(x) = popped {
            assert(x == input[n - 1]);
            let mut low: usize = 0;
            let mut high: usize = sorted.len();
            while low < high
                invariant
                    low <= high <= sorted@.len(),
                    ordered(sorted@),
                    forall|i: int| 0 <= i < low ==> (#[trigger] sorted@[i]).ranks_before(&x),
                    forall|i: int|
                        high <= i < sorted@.len() ==> !(#[trigger] sorted@[i]).ranks_before(&x),
                decreases high - low,
            {
                let mid = low + (high - low) / 2;
                if sorted[mid].goes_before(&x) {
                    assert forall|i: int| 0 <= i < mid + 1 implies (
                    #[trigger] sorted@[i]).ranks_before(&x) by {
                        if i < mid {
                            assert(!sorted@[mid as int].ranks_before(&sorted@[i]));
                            let m = sorted@[mid as int];
                            T::rank_laws(&x, &sorted@[i], &m);
                        }
                    }
                    low = mid + 1;
                } else {
                    assert forall|i: int| mid <= i < sorted@.len() implies !(
                    #[trigger] sorted@[i]).ranks_before(&x) by {
                        if i > mid {
                            assert(!sorted@[i].ranks_before(&sorted@[mid as int]));
                            let m = sorted@[mid as int];
                            T::rank_laws(&x, &m, &sorted@[i]);
                        }
                    }
                    high = mid;
                }
            }
            proof {
                lemma_insert_sorted(rest, sorted@, low as int, x);
                assert(seq![x] + rest == input.skip(n - 1));
            }
            sorted.insert(low, x);
        }
    }
    assert(input.skip(0) == input);
    sorted
}

/// Whether one byte sequence may stand before another.
pub open spec fn not_after(a: Seq<u8>, b: Seq<u8>) -> bool {
    a == b || before(a, b)
}

/// Byte sequences in their order.
pub open spec fn sorted(names: Seq<Seq<u8>>) -> Seq<Seq<u8>> {
    names.sort_by(|a: Seq<u8>, b: Seq<u8>| not_after(a, b))
}

/// Sorting keeps the byte sequences and puts each before the later ones.
pub proof fn lemma_sorted(names: Seq<Seq<u8>>)
    ensures
        sorted(names).to_multiset() == names.to_multiset(),
        sorted(names).len() == names.len(),
        forall|i: int, j: int|
            #![trigger sorted(names)[i], sorted(names)[j]]
            0 <= i < j < names.len() ==> not_after(sorted(names)[i], sorted(names)[j]),
        forall|n: Seq<u8>| #[trigger] sorted(names).contains(n) <==> names.contains(n),
        names.no_duplicates() ==> sorted(names).no_duplicates(),
{
    broadcast use vstd::seq_lib::group_to_multiset_ensures;

    let leq = |a: Seq<u8>, b: Seq<u8>| not_after(a, b);
    lemma_total(leq);
    names.lemma_sort_by_ensures(leq);
    assert(sorted(names).to_multiset() == names.to_multiset());
    assert(sorted(names).to_multiset().len() == names.to_multiset().len());
    assert forall|n: Seq<u8>| #[trigger] sorted(names).contains(n) <==> names.contains(n) by {
        assert(sorted(names).to_multiset().count(n) == names.to_multiset().count(n));
    }
    assert forall|i: int, j: int|
        #![trigger sorted(names)[i], sorted(names)[j]]
        0 <= i < j < names.len() implies not_after(sorted(names)[i], sorted(names)[j]) by {
        assert(leq(sorted(names)[i], sorted(names)[j]));
    }
    if names.no_duplicates() {
        names.lemma_multiset_has_no_duplicates();
        sorted(names).lemma_multiset_has_no_duplicates_conv();
    }
}

proof fn lemma_total(leq: spec_fn(Seq<u8>, Seq<u8>) -> bool)
    requires
        leq == (|a: Seq<u8>, b: Seq<u8>| not_after(a, b)),
    ensures
        vstd::relations::total_ordering(leq),
{
    assert forall|a: Seq<u8>, b: Seq<u8>| #[trigger] leq(a, b) && #[trigger] leq(b, a) implies a
        == b by {
        lemma_before(a, b, b);
    }
    assert forall|a: Seq<u8>, b: Seq<u8>, c: Seq<u8>| #[trigger]
        leq(a, b) && #[trigger] leq(b, c) implies leq(a, c) by {
        lemma_before(a, b, c);
    }
    assert forall|a: Seq<u8>, b: Seq<u8>| #[trigger] leq(a, b) || leq(b, a) by {
        lemma_before_total(a, b);
    }
}

/// Byte sequences in their order.
pub fn sort_bytes(names: Vec<Vec<u8>>) -> (r: Vec<Vec<u8>>)
    ensures
        r.deep_view() == sorted(names.deep_view()),
{
    broadcast use crate::text::lemma_bytes_deep_view;

    let ghost input = names.deep_view();
    let ghost leq = |a: Seq<u8>, b: Seq<u8>| not_after(a, b);
    let mut names = names;
    let mut r: Vec<Vec<u8>> = Vec::new();
    proof {
        assert(input.skip(input.len() as int) == Seq::<Seq<u8>>::empty());
        assert(r.deep_view() == Seq::<Seq<u8>>::empty());
    }
    while names.len() > 0
        invariant
            names@.len() <= input.len(),
            names.deep_view() == input.take(names@.len() as int),
            leq == (|a: Seq<u8>, b: Seq<u8>| not_after(a, b)),
            vstd::relations::sorted_by(r.deep_view(), leq),
            r.deep_view().to_multiset() == input.skip(names@.len() as int).to_multiset(),
        decreases names.len(),
    {
        let ghost n = names@.len();
        let ghost all = names.deep_view();
        let ghost rest = input.skip(n as int);
        let popped = names.pop();
        assert(popped is Some);
        if let Some(x) = popped {
            proof {
                assert(all[n - 1] == x@);
                assert(x@ == input[n - 1]);
                assert(names.deep_view() == all.take(n - 1));
            }
            let mut k: usize = 0;
            while k < r.len() && comes_before(r[k].as_slice(), x.as_slice())
                invariant
                    k <= r@.len(),
                    forall|i: int| 0 <= i < k ==> before(#[trigger] r.deep_view()[i], x@),
                decreases r.len() - k,
            {
                assert(r.deep_view()[k as int] == r@[k as int]@);
                k = k + 1;
            }
            let ghost old_r = r.deep_view();
            let ghost key = x@;
            proof {
                if k < r@.len() {
                    assert(old_r[k as int] == r@[k as int]@);
                    assert(!before(old_r[k as int], key));
                }
            }
            r.insert(k, x);
            proof {
                let now = r.deep_view();
                assert(now == old_r.insert(k as int, key));
                vstd::seq_lib::to_multiset_insert(old_r, k as int, key);
                assert(input.skip(n - 1) == rest.insert(0, key));
                vstd::seq_lib::to_multiset_insert(rest, 0, key);
                assert forall|i: int, j: int| 0 <= i < j < now.len() implies #[trigger] leq(
                    now[i],
                    now[j],
                ) by {
                    let a = if i < k { i } else { i - 1 };
                    let b = if j < k { j } else { j - 1 };
                    if i == k {
                        assert(now[j] == old_r[b]);
                        lemma_before_total(key, old_r[k as int]);
                        if b > k {
                            assert(leq(old_r[k as int], old_r[b]));
                        }
                        lemma_before(key, old_r[k as int], old_r[b]);
                    } else if j == k {
                        assert(before(old_r[a], key));
                    } else {
                        assert(leq(old_r[a], old_r[b]));
                    }
                }
            }
        }
    }
    proof {
        assert(input.skip(0) == input);
        lemma_total(leq);
        input.lemma_sort_by_ensures(leq);
        vstd::seq_lib::lemma_sorted_unique(r.deep_view(), sorted(input), leq);
    }
    r
}

/// One byte sequence comes before another if and only if it is a beginning of
/// the other, or has the lesser byte where they first differ.
pub proof fn law_before_is_lexicographic(a: Seq<u8>, b: Seq<u8>)
    ensures
        before(a, b) <==> exists|k: int|
            0 <= k <= a.len() && k < b.len() && #[trigger] a.take(k) == b.take(k) && (k == a.len()
                || a[k] < b[k]),
    decreases a.len(),
{
    if a.len() > 0 && b.len() > 0 {
        let x = a.drop_first();
        let y = b.drop_first();
        law_before_is_lexicographic(x, y);
        if before(a, b) {
            if a[0] == b[0] {
                let k = choose|k: int|
                    0 <= k <= x.len() && k < y.len() && #[trigger] x.take(k) == y.take(k) && (k
                        == x.len() || x[k] < y[k]);
                assert(a.take(k + 1) == b.take(k + 1)) by {
                    assert forall|i: int| 0 <= i < k + 1 implies a[i] == b[i] by {
                        if i > 0 {
                            assert(x.take(k)[i - 1] == y.take(k)[i - 1]);
                        }
                    }
                }
            } else {
                assert(a.take(0) == b.take(0));
            }
        }
        if exists|k: int|
            0 <= k <= a.len() && k < b.len() && #[trigger] a.take(k) == b.take(k) && (k == a.len()
                || a[k] < b[k]) {
            let k = choose|k: int|
                0 <= k <= a.len() && k < b.len() && #[trigger] a.take(k) == b.take(k) && (k
                    == a.len() || a[k] < b[k]);
            if k > 0 {
                assert(a.take(k)[0] == b.take(k)[0]);
                assert(x.take(k - 1) == y.take(k - 1)) by {
                    assert forall|i: int| 0 <= i < k - 1 implies x[i] == y[i] by {
                        assert(a.take(k)[i + 1] == b.take(k)[i + 1]);
                    }
                }
            }
        }
    } else if a.len() == 0 && b.len() > 0 {
        assert(a.take(0) == b.take(0));
    }
}

/// Sorting keeps everything that is sorted, and what is equal in rank stays in
/// the order in which it came.
pub proof fn law_equal_ranks_keep_their_order<T: Ranked>(input: Seq<T>, sorted: Seq<T>, x: T)
    requires
        stable_sort_of(input, sorted),
    ensures
        sorted.filter(|y: T| !x.ranks_before(&y) && !y.ranks_before(&x)) == input.filter(
            |y: T| !x.ranks_before(&y) && !y.ranks_before(&x),
        ),
        sorted.to_multiset() == input.to_multiset(),
        sorted.len() == input.len(),
        forall|i: int, j: int|
            #![trigger sorted[i], sorted[j]]
            0 <= i < j < sorted.len() ==> !sorted[j].ranks_before(&sorted[i]),
{
    let same = |y: T| same_rank(x, y);
    let plain = |y: T| !x.ranks_before(&y) && !y.ranks_before(&x);
    assert(same =~= plain);
    assert(of_rank(sorted, x) == of_rank(input, x));
    sorted.to_multiset_ensures();
    input.to_multiset_ensures();
}

} // verus!
