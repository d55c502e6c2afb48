//! Stable sorting.

use vstd::prelude::*;

verus! {

/// A total order on everything that is compared: the relation a sort goes by.
pub open spec fn total_order<T>(leq: spec_fn(T, T) -> bool) -> bool {
    &&& forall|x: T, y: T| #[trigger] leq(x, y) || #[trigger] leq(y, x)
    &&& forall|x: T, y: T, z: T| #[trigger] leq(x, y) && #[trigger] leq(y, z) ==> leq(x, z)
}

/// How many elements at the front stay when `x` is put in behind everything that
/// may stand before it.
pub open spec fn place<T>(s: Seq<T>, x: T, leq: spec_fn(T, T) -> bool) -> nat
    decreases s.len(),
{
    if s.len() == 0 || leq(s.last(), x) {
        s.len()
    } else {
        place(s.drop_last(), x, leq)
    }
}

/// The stable sort of `s`: each element in turn is put in behind those that may
/// stand before it.
pub open spec fn sorted<T>(s: Seq<T>, leq: spec_fn(T, T) -> bool) -> Seq<T>
    decreases s.len(),
{
    if s.len() == 0 {
        s
    } else {
        let front = sorted(s.drop_last(), leq);
        front.insert(place(front, s.last(), leq) as int, s.last())
    }
}

pub proof fn lemma_place<T>(s: Seq<T>, x: T, leq: spec_fn(T, T) -> bool)
    ensures
        place(s, x, leq) <= s.len(),
        place(s, x, leq) > 0 ==> leq(s[place(s, x, leq) - 1], x),
        forall|i: int| place(s, x, leq) <= i < s.len() ==> !leq(#[trigger] s[i], x),
    decreases s.len(),
{
    if s.len() > 0 && !leq(s.last(), x) {
        lemma_place(s.drop_last(), x, leq);
        assert forall|i: int| place(s, x, leq) <= i < s.len() implies !leq(
            #[trigger] s[i],
            x,
        ) by {
            if i < s.len() - 1 {
                assert(s[i] == s.drop_last()[i]);
            }
        }
    }
}

pub proof fn lemma_place_unique<T>(s: Seq<T>, x: T, leq: spec_fn(T, T) -> bool, k: int)
    requires
        0 <= k <= s.len(),
        k > 0 ==> leq(s[k - 1], x),
        forall|i: int| k <= i < s.len() ==> !leq(#[trigger] s[i], x),
    ensures
        place(s, x, leq) == k,
{
    lemma_place(s, x, leq);
    let p = place(s, x, leq) as int;
    if p < k {
        assert(!leq(s[k - 1], x));
    }
    if k < p {
        assert(!leq(s[p - 1], x));
    }
}

/// A sorted sequence holds the same elements as before, none of them before one
/// that must precede it.
pub proof fn lemma_sorted<T>(s: Seq<T>, leq: spec_fn(T, T) -> bool)
    requires
        total_order(leq),
    ensures
        sorted(s, leq).len() == s.len(),
        sorted(s, leq).to_multiset() == s.to_multiset(),
        forall|i: int, j: int|
            0 <= i <= j < s.len() ==> leq(
                #[trigger] sorted(s, leq)[i],
                #[trigger] sorted(s, leq)[j],
            ),
    decreases s.len(),
{
    if s.len() > 0 {
        let front = sorted(s.drop_last(), leq);
        let x = s.last();
        lemma_sorted(s.drop_last(), leq);
        lemma_place(front, x, leq);
        let k = place(front, x, leq) as int;
        let out = front.insert(k, x);
        vstd::seq_lib::to_multiset_insert(front, k, x);
        assert(s.drop_last().push(x) =~= s);
        vstd::seq_lib::to_multiset_build(s.drop_last(), x);
        assert forall|i: int, j: int| 0 <= i <= j < s.len() implies leq(
            #[trigger] out[i],
            #[trigger] out[j],
        ) by {
            assert(leq(x, x) || leq(x, x));
            let fi = if i < k {
                i
            } else {
                i - 1
            };
            let fj = if j < k {
                j
            } else {
                j - 1
            };
            if i == k && j == k {
            } else if j == k {
                assert(leq(front[i], front[k - 1]));
            } else if i == k {
                assert(leq(x, front[fj]) || leq(front[fj], x));
            } else {
                assert(leq(front[fi], front[fj]));
            }
        }
    }
}

/// What is in order stays as it is.
pub proof fn lemma_sorted_already<T>(s: Seq<T>, leq: spec_fn(T, T) -> bool)
    requires
        forall|i: int, j: int|
            0 <= i <= j < s.len() ==> leq(#[trigger] s[i], #[trigger] s[j]),
    ensures
        sorted(s, leq) == s,
    decreases s.len(),
{
    if s.len() > 0 {
        let front = s.drop_last();
        assert forall|i: int, j: int| 0 <= i <= j < front.len() implies leq(
            #[trigger] front[i],
            #[trigger] front[j],
        ) by {
            assert(leq(s[i], s[j]));
        }
        lemma_sorted_already(front, leq);
        if front.len() > 0 {
            assert(leq(s[front.len() - 1], s[front.len() as int]));
        }
        assert(front.insert(front.len() as int, s.last()) =~= s);
    }
}

/// Sorting keeps the relative order of the elements that satisfy `pick`, where no
/// two of those are ordered strictly.
pub proof fn lemma_sorted_stable<T>(
    s: Seq<T>,
    leq: spec_fn(T, T) -> bool,
    pick: spec_fn(T) -> bool,
)
    requires
        total_order(leq),
        forall|x: T, y: T| pick(x) && pick(y) ==> #[trigger] leq(x, y),
    ensures
        sorted(s, leq).filter(pick) == s.filter(pick),
    decreases s.len(),
{
    reveal(Seq::filter);
    if s.len() > 0 {
        let front = sorted(s.drop_last(), leq);
        let x = s.last();
        lemma_sorted_stable(s.drop_last(), leq, pick);
        lemma_sorted(s.drop_last(), leq);
        lemma_place(front, x, leq);
        let k = place(front, x, leq) as int;
        let head = front.take(k);
        let tail = front.skip(k);
        assert(front =~= head + tail);
        assert(front.insert(k, x) =~= head.push(x) + tail);
        Seq::filter_distributes_over_add(head, tail, pick);
        Seq::filter_distributes_over_add(head.push(x), tail, pick);
        assert(head.push(x).drop_last() =~= head);
        if pick(x) {
            assert forall|i: int| 0 <= i < tail.len() implies !pick(#[trigger] tail[i]) by {
                assert(tail[i] == front[k + i]);
            }
            lemma_filter_none(tail, pick);
            assert(head.push(x).filter(pick) =~= head.filter(pick).push(x));
        } else {
            assert(head.push(x).filter(pick) =~= head.filter(pick));
        }
    }
}

proof fn lemma_filter_none<T>(s: Seq<T>, pick: spec_fn(T) -> bool)
    requires
        forall|i: int| 0 <= i < s.len() ==> !pick(#[trigger] s[i]),
    ensures
        s.filter(pick) == Seq::<T>::empty(),
    decreases s.len(),
{
    reveal(Seq::filter);
    if s.len() > 0 {
        assert(!pick(s[s.len() - 1]));
        assert forall|i: int| 0 <= i < s.drop_last().len() implies !pick(
            #[trigger] s.drop_last()[i],
        ) by {
            assert(s.drop_last()[i] == s[i]);
        }
        lemma_filter_none(s.drop_last(), pick);
    }
    assert(s.filter(pick) =~= Seq::<T>::empty());
}

} // verus!
