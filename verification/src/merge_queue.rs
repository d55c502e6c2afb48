//! The queue of merge candidates: a binary heap in an array, the first candidate on
//! top.

use vstd::prelude::*;

verus! {

/// A pair that may be merged, with its priority and the frequency that the priority
/// was computed from.
#[derive(Debug, Clone, Copy)]
pub struct MergeCandidate {
    pub a: usize,
    pub b: usize,
    pub priority_key: (u8, u64),
    pub freq_snapshot: u64,
}

/// Whether a candidate comes before another: the greater priority first, and among
/// equals the smaller pair.
pub open spec fn precedes(x: MergeCandidate, y: MergeCandidate) -> bool {
    if x.priority_key.0 != y.priority_key.0 {
        x.priority_key.0 > y.priority_key.0
    } else if x.priority_key.1 != y.priority_key.1 {
        x.priority_key.1 > y.priority_key.1
    } else if x.a != y.a {
        x.a < y.a
    } else {
        x.b < y.b
    }
}

fn comes_before(x: &MergeCandidate, y: &MergeCandidate) -> (yes: bool)
    ensures
        yes == precedes(*x, *y),
{
    if x.priority_key.0 != y.priority_key.0 {
        x.priority_key.0 > y.priority_key.0
    } else if x.priority_key.1 != y.priority_key.1 {
        x.priority_key.1 > y.priority_key.1
    } else if x.a != y.a {
        x.a < y.a
    } else {
        x.b < y.b
    }
}

spec fn parent(i: int) -> int {
    (i - 1) / 2
}

/// No element comes before its parent, but for the children of `hole`.
spec fn ordered_but_below(s: Seq<MergeCandidate>, hole: int) -> bool {
    &&& forall|i: int|
        0 < i < s.len() && parent(i) != hole ==> !precedes(#[trigger] s[i], s[parent(i)])
    &&& hole > 0 ==> forall|i: int|
        0 < i < s.len() && parent(i) == hole ==> !precedes(#[trigger] s[i], s[parent(hole)])
}

/// No element comes before its parent, but for `hole` itself.
spec fn ordered_but_at(s: Seq<MergeCandidate>, hole: int) -> bool {
    &&& forall|i: int| 0 < i < s.len() && i != hole ==> !precedes(#[trigger] s[i], s[parent(i)])
    &&& hole > 0 ==> forall|i: int|
        0 < i < s.len() && parent(i) == hole ==> !precedes(#[trigger] s[i], s[parent(hole)])
}

spec fn ordered(s: Seq<MergeCandidate>) -> bool {
    forall|i: int| 0 < i < s.len() ==> !precedes(#[trigger] s[i], s[parent(i)])
}

proof fn lemma_top_is_first(s: Seq<MergeCandidate>, i: int)
    requires
        ordered(s),
        0 <= i < s.len(),
    ensures
        !precedes(s[i], s[0]),
    decreases i,
{
    if i > 0 {
        lemma_top_is_first(s, parent(i));
    }
}

proof fn lemma_swapped(s: Seq<MergeCandidate>, i: int, j: int, x: MergeCandidate)
    requires
        0 <= i < s.len(),
        0 <= j < s.len(),
    ensures
        s.update(i, s[j]).update(j, s[i]).contains(x) <==> s.contains(x),
{
    let t = s.update(i, s[j]).update(j, s[i]);
    if s.contains(x) {
        let k = choose|k: int| 0 <= k < s.len() && s[k] == x;
        let m = if k == i {
            j
        } else if k == j {
            i
        } else {
            k
        };
        assert(t[m] == x);
    }
    if t.contains(x) {
        let k = choose|k: int| 0 <= k < t.len() && t[k] == x;
        let m = if k == i {
            j
        } else if k == j {
            i
        } else {
            k
        };
        assert(s[m] == x);
    }
}

pub struct MergeQueue {
    items: Vec<MergeCandidate>,
}

impl MergeQueue {
    /// The candidates, in no particular order.
    pub closed spec fn view(&self) -> Seq<MergeCandidate> {
        self.items@
    }

    pub closed spec fn wf(&self) -> bool {
        ordered(self.items@)
    }

    pub fn new() -> (q: Self)
        ensures
            q.wf(),
            q@ == Seq::<MergeCandidate>::empty(),
    {
        Self { items: Vec::new() }
    }

    pub fn len(&self) -> (n: usize)
        ensures
            n == self@.len(),
    {
        self.items.len()
    }

    pub fn push(&mut self, c: MergeCandidate)
        requires
            old(self).wf(),
        ensures
            final(self).wf(),
            final(self)@.len() == old(self)@.len() + 1,
            forall|x: MergeCandidate| #[trigger]
                final(self)@.contains(x) <==> old(self)@.contains(x) || x == c,
    {
        let ghost before = self.items@;
        self.items.push(c);
        let ghost with = self.items@;
        assert forall|x: MergeCandidate| #[trigger]
            with.contains(x) <==> before.contains(x) || x == c by {
            crate::akshara::lemma_push_contains(before, c, x);
        }
        let mut i: usize = self.items.len() - 1;
        let mut placed = false;
        while i > 0 && !placed
            invariant
                i < self.items@.len(),
                self.items@.len() == before.len() + 1,
                ordered_but_at(self.items@, i as int),
                placed ==> ordered(self.items@),
                forall|x: MergeCandidate| #[trigger]
                    self.items@.contains(x) <==> with.contains(x),
            decreases i + (if placed {
                0int
            } else {
                1int
            }),
        {
            let up = (i - 1) / 2;
            if comes_before(&self.items[i], &self.items[up]) {
                let ghost s = self.items@;
                let x = self.items[i];
                let y = self.items[up];
                self.items.set(i, y);
                self.items.set(up, x);
                proof {
                    assert(self.items@ == s.update(i as int, s[up as int]).update(
                        up as int,
                        s[i as int],
                    ));
                    assert forall|z: MergeCandidate| #[trigger]
                        self.items@.contains(z) <==> with.contains(z) by {
                        lemma_swapped(s, i as int, up as int, z);
                        assert(s.contains(z) <==> with.contains(z));
                    }
                    lemma_sift_up(s, i as int);
                }
                i = up;
            } else {
                placed = true;
            }
        }
    }

    /// Takes out the first candidate.
    pub fn pop(&mut self) -> (c: Option<MergeCandidate>)
        requires
            old(self).wf(),
        ensures
            final(self).wf(),
            c is None <==> old(self)@.len() == 0,
            c is None ==> final(self)@.len() == 0,
            c is Some ==> {
                &&& final(self)@.len() == old(self)@.len() - 1
                &&& old(self)@.contains(c->0)
                &&& forall|x: MergeCandidate| #[trigger]
                    old(self)@.contains(x) ==> !precedes(x, c->0) && (x == c->0
                        || final(self)@.contains(x))
                &&& forall|x: MergeCandidate| #[trigger]
                    final(self)@.contains(x) ==> old(self)@.contains(x)
            },
    {
        let ghost before = self.items@;
        let n = self.items.len();
        if n == 0 {
            return None;
        }
        let top = self.items[0];
        assert(before.contains(top));
        let last = self.items[n - 1];
        self.items.pop();
        proof {
            assert forall|x: MergeCandidate| #[trigger] before.contains(x) implies !precedes(
                x,
                top,
            ) by {
                let k = choose|k: int| 0 <= k < before.len() && before[k] == x;
                lemma_top_is_first(before, k);
            }
        }
        if n == 1 {
            assert forall|x: MergeCandidate| #[trigger] before.contains(x) implies x == top by {
                let k = choose|k: int| 0 <= k < before.len() && before[k] == x;
                assert(k == 0);
            }
            assert(forall|x: MergeCandidate| !(#[trigger] self.items@.contains(x)));
            return Some(top);
        }
        self.items.set(0, last);
        let ghost moved = self.items@;
        proof {
            assert forall|x: MergeCandidate| #[trigger] before.contains(x) implies x == top
                || moved.contains(x) by {
                let k = choose|k: int| 0 <= k < before.len() && before[k] == x;
                if 0 < k < n - 1 {
                    assert(moved[k] == x);
                } else if k == n - 1 {
                    assert(moved[0] == x);
                }
            }
            assert forall|x: MergeCandidate| #[trigger] moved.contains(x) implies before.contains(
                x,
            ) by {
                let k = choose|k: int| 0 <= k < moved.len() && moved[k] == x;
                if k == 0 {
                    assert(before[n - 1] == x);
                } else {
                    assert(before[k] == x);
                }
            }
            assert forall|i: int|
                0 < i < moved.len() && parent(i) != 0 implies !precedes(
                #[trigger] moved[i],
                moved[parent(i)],
            ) by {
                assert(before[i] == moved[i]);
                assert(before[parent(i)] == moved[parent(i)]);
            }
        }
        self.sift_down();
        Some(top)
    }

    /// Moves the element at the top down to its place.
    fn sift_down(&mut self)
        requires
            ordered_but_below(old(self)@, 0),
            old(self)@.len() > 0,
        ensures
            final(self).wf(),
            final(self)@.len() == old(self)@.len(),
            forall|x: MergeCandidate| #[trigger]
                final(self)@.contains(x) <==> old(self)@.contains(x),
    {
        let n = self.items.len();
        let mut i: usize = 0;
        let mut placed = false;
        while !placed
            invariant
                n == self.items@.len(),
                n == old(self)@.len(),
                i < n,
                ordered_but_below(self.items@, i as int),
                placed ==> ordered(self.items@),
                forall|x: MergeCandidate| #[trigger]
                    self.items@.contains(x) <==> old(self)@.contains(x),
            decreases n - i + (if placed {
                0int
            } else {
                1int
            }),
        {
            let mut first = i;
            if i < n / 2 && 2 * i + 1 < n && comes_before(
                &self.items[2 * i + 1],
                &self.items[first],
            ) {
                first = 2 * i + 1;
            }
            if i < n / 2 && n - 2 > 2 * i && comes_before(
                &self.items[2 * i + 2],
                &self.items[first],
            ) {
                first = 2 * i + 2;
            }
            if first == i {
                assert(ordered(self.items@));
                placed = true;
            } else {
                let ghost s = self.items@;
                let x = self.items[i];
                let y = self.items[first];
                self.items.set(first, x);
                self.items.set(i, y);
                proof {
                    assert(self.items@ == s.update(first as int, s[i as int]).update(
                        i as int,
                        s[first as int],
                    ));
                    assert forall|z: MergeCandidate| #[trigger]
                        self.items@.contains(z) <==> old(self)@.contains(z) by {
                        lemma_swapped(s, first as int, i as int, z);
                        assert(s.contains(z) <==> old(self)@.contains(z));
                    }
                    lemma_sift_down(s, i as int, first as int);
                }
                i = first;
            }
        }
    }
}

proof fn lemma_sift_up(s: Seq<MergeCandidate>, i: int)
    requires
        0 < i < s.len(),
        ordered_but_at(s, i),
        precedes(s[i], s[parent(i)]),
    ensures
        ({
            let t = s.update(i, s[parent(i)]).update(parent(i), s[i]);
            &&& ordered_but_at(t, parent(i))
            &&& parent(i) == 0 ==> ordered(t)
        }),
{
    let up = parent(i);
    let t = s.update(i, s[up]).update(up, s[i]);
    assert forall|k: int| 0 < k < t.len() && k != up implies !precedes(
        #[trigger] t[k],
        t[parent(k)],
    ) by {
        assert(k != i ==> s[k] == t[k]);
        if k != i && parent(k) == i {
            assert(!precedes(s[k], s[up]));
        } else if k != i && parent(k) == up {
            assert(!precedes(s[k], s[up]));
        } else if k != i {
            assert(!precedes(s[k], s[parent(k)]));
        }
    }
    if up > 0 {
        assert forall|k: int| 0 < k < t.len() && parent(k) == up implies !precedes(
            #[trigger] t[k],
            t[parent(up)],
        ) by {
            assert(!precedes(s[up], s[parent(up)]));
            if k != i {
                assert(!precedes(s[k], s[up]));
            }
        }
    }
}

proof fn lemma_sift_down(s: Seq<MergeCandidate>, i: int, first: int)
    requires
        0 <= i < first < s.len(),
        parent(first) == i,
        ordered_but_below(s, i),
        precedes(s[first], s[i]),
        forall|k: int|
            0 < k < s.len() && parent(k) == i ==> !precedes(#[trigger] s[k], s[first]),
    ensures
        ordered_but_below(s.update(first, s[i]).update(i, s[first]), first),
{
    let t = s.update(first, s[i]).update(i, s[first]);
    assert forall|k: int| 0 < k < t.len() && parent(k) != first implies !precedes(
        #[trigger] t[k],
        t[parent(k)],
    ) by {
        if k == i {
            assert(!precedes(s[first], s[parent(i)]));
            assert(t[parent(i)] == s[parent(i)]);
        } else if k != first {
            assert(t[k] == s[k]);
            if parent(k) == i {
                assert(!precedes(s[k], s[first]));
            } else {
                assert(!precedes(s[k], s[parent(k)]));
            }
        }
    }
    assert forall|k: int| 0 < k < t.len() && parent(k) == first implies !precedes(
        #[trigger] t[k],
        t[parent(first)],
    ) by {
        assert(t[k] == s[k]);
        assert(!precedes(s[k], s[parent(k)]));
    }
}

} // verus!
