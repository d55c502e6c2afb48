//! Counting words, as sequences of tokens.

use crate::corpus::{counted_words, weight, WordModel};
use crate::pair_map::PairMap;
use crate::vocab::copy_ids;
use vstd::prelude::*;

verus! {

/// The place of a word in a list of counted words. A word is a sequence of tokens, or
/// whatever else is counted.
pub open spec fn place_of<T>(t: Seq<(T, u64)>, w: T) -> Option<int>
    decreases t.len(),
{
    if t.len() == 0 {
        None
    } else if t.last().0 == w {
        Some(t.len() - 1)
    } else {
        place_of(t.drop_last(), w)
    }
}

/// A list of counted words after one more occurrence of a word.
pub open spec fn counted_once_more<T>(t: Seq<(T, u64)>, w: T) -> Seq<(T, u64)> {
    match place_of(t, w) {
        Some(i) => t.update(i, (w, (t[i].1 + 1) as u64)),
        None => t.push((w, 1)),
    }
}

/// A list of counted words after more words, one after the other.
pub open spec fn tallied<T>(t: Seq<(T, u64)>, ws: Seq<T>) -> Seq<(T, u64)>
    decreases ws.len(),
{
    if ws.len() == 0 {
        t
    } else {
        counted_once_more(tallied(t, ws.drop_last()), ws.last())
    }
}

/// The places below `n` at which something holds.
pub open spec fn places(n: nat, holds: spec_fn(int) -> bool) -> Set<int> {
    Set::new(|i: int| 0 <= i < n && holds(i))
}

/// One more place: it counts if it holds there.
pub proof fn lemma_places(n: nat, holds: spec_fn(int) -> bool)
    ensures
        places(n, holds).finite(),
        places(0, holds).len() == 0,
        n > 0 ==> places(n, holds).len() == places((n - 1) as nat, holds).len() + if holds(n - 1) {
            1nat
        } else {
            0nat
        },
    decreases n,
{
    assert(places(0, holds) =~= Set::<int>::empty());
    if n > 0 {
        let front = places((n - 1) as nat, holds);
        lemma_places((n - 1) as nat, holds);
        if holds(n - 1) {
            assert(places(n, holds) =~= front.insert(n - 1));
        } else {
            assert(places(n, holds) =~= front);
        }
    }
}

/// Conditions that agree below `n` hold at as many places.
pub proof fn lemma_places_same(n: nat, p: spec_fn(int) -> bool, q: spec_fn(int) -> bool)
    requires
        forall|i: int| 0 <= i < n ==> #[trigger] p(i) == q(i),
    ensures
        places(n, p) == places(n, q),
{
    assert(places(n, p) =~= places(n, q));
}

/// The number of tokens in a list of words.
pub open spec fn total_len(ws: Seq<Seq<usize>>) -> nat
    decreases ws.len(),
{
    if ws.len() == 0 {
        0
    } else {
        total_len(ws.drop_last()) + ws.last().len()
    }
}

/// No word stands twice, and each has been counted.
pub open spec fn distinct_words<T>(t: Seq<(T, u64)>) -> bool {
    &&& forall|i: int, j: int|
        0 <= i < t.len() && 0 <= j < t.len() && i != j ==> (#[trigger] t[i]).0 != (
        #[trigger] t[j]).0
    &&& forall|i: int| 0 <= i < t.len() ==> (#[trigger] t[i]).1 > 0
}

pub proof fn lemma_place_of<T>(t: Seq<(T, u64)>, w: T)
    ensures
        match place_of(t, w) {
            Some(i) => 0 <= i < t.len() && t[i].0 == w,
            None => forall|i: int| 0 <= i < t.len() ==> (#[trigger] t[i]).0 != w,
        },
    decreases t.len(),
{
    if t.len() > 0 && t.last().0 != w {
        lemma_place_of(t.drop_last(), w);
        if place_of(t, w) is None {
            assert forall|i: int| 0 <= i < t.len() implies (#[trigger] t[i]).0 != w by {
                if i < t.len() - 1 {
                    assert(t.drop_last()[i] == t[i]);
                }
            }
        }
    }
}

proof fn lemma_weight_once_more_at(t: Seq<WordModel>, k: int)
    requires
        0 <= k < t.len(),
        t[k].1 < u64::MAX,
    ensures
        weight(t.update(k, (t[k].0, (t[k].1 + 1) as u64))) == weight(t) + t[k].0.len(),
    decreases t.len(),
{
    let u = t.update(k, (t[k].0, (t[k].1 + 1) as u64));
    let c = t[k].1 as nat;
    let l = t[k].0.len();
    assert((c + 1) * l == c * l + l) by (nonlinear_arith);
    if k == t.len() - 1 {
        assert(u.drop_last() =~= t.drop_last());
    } else {
        lemma_weight_once_more_at(t.drop_last(), k);
        assert(u.drop_last() =~= t.drop_last().update(k, (t[k].0, (t[k].1 + 1) as u64)));
    }
}

proof fn lemma_weight_at_least(t: Seq<WordModel>, k: int)
    requires
        0 <= k < t.len(),
    ensures
        weight(t) >= t[k].1 * t[k].0.len(),
    decreases t.len(),
{
    assert(t.last().1 * t.last().0.len() >= 0) by (nonlinear_arith)
        requires
            t.last().1 >= 0,
            t.last().0.len() >= 0,
    ;
    if k < t.len() - 1 {
        lemma_weight_at_least(t.drop_last(), k);
    }
}

/// One more occurrence of a word weighs as much as the word is long.
pub proof fn lemma_counted_once_more(t: Seq<WordModel>, w: Seq<usize>)
    requires
        w.len() > 0,
        weight(t) + w.len() <= u64::MAX,
    ensures
        weight(counted_once_more(t, w)) == weight(t) + w.len(),
        distinct_words(t) ==> distinct_words(counted_once_more(t, w)),
{
    lemma_place_of(t, w);
    match place_of(t, w) {
        Some(i) => {
            lemma_weight_at_least(t, i);
            let c = t[i].1 as int;
            let l = w.len() as int;
            assert(c <= c * l) by (nonlinear_arith)
                requires
                    c >= 0,
                    l >= 1,
            ;
            lemma_weight_once_more_at(t, i);
        },
        None => {
            let u = t.push((w, 1));
            assert(u.drop_last() =~= t);
        },
    }
}

pub proof fn lemma_tallied_concat(t: Seq<WordModel>, p: Seq<Seq<usize>>, q: Seq<Seq<usize>>)
    ensures
        tallied(t, p + q) == tallied(tallied(t, p), q),
        total_len(p + q) == total_len(p) + total_len(q),
    decreases q.len(),
{
    if q.len() == 0 {
        assert(p + q =~= p);
    } else {
        lemma_tallied_concat(t, p, q.drop_last());
        assert((p + q).drop_last() =~= p + q.drop_last());
    }
}

/// Counted words. They are found again through a tree of their tokens.
pub struct WordCounts {
    entries: Vec<(Vec<usize>, u64)>,
    total: u64,
    edges: PairMap<usize>,
    slots: Vec<Option<usize>>,
    paths: Ghost<Seq<Seq<usize>>>,
}

/// The tree: every edge leads from a path to a path that is one token longer, every
/// path but the empty one is reached, and no path stands twice.
spec fn is_tree(edges: Map<(usize, usize), usize>, paths: Seq<Seq<usize>>) -> bool {
    &&& paths.len() > 0
    &&& paths[0] == Seq::<usize>::empty()
    &&& paths.no_duplicates()
    &&& forall|n: usize, t: usize| #[trigger]
        edges.contains_key((n, t)) ==> n < paths.len() && edges[(n, t)] < paths.len()
            && paths[edges[(n, t)] as int] == paths[n as int].push(t)
    &&& forall|c: int|
        0 < c < paths.len() ==> (#[trigger] paths[c]).len() > 0 && reached(edges, paths, c)
}

/// An edge leads to the path at `c`.
spec fn reached(edges: Map<(usize, usize), usize>, paths: Seq<Seq<usize>>, c: int) -> bool {
    exists|n: usize|
        n < paths.len() && #[trigger] edges.contains_key((n, paths[c].last())) && edges[(
            n,
            paths[c].last(),
        )] == c
}

/// Whether the path is in the tree one step beyond a node decides whether the edge is
/// there.
proof fn lemma_edge(
    edges: Map<(usize, usize), usize>,
    paths: Seq<Seq<usize>>,
    n: usize,
    t: usize,
    c: int,
)
    requires
        is_tree(edges, paths),
        n < paths.len(),
        0 <= c < paths.len(),
        paths[c] == paths[n as int].push(t),
    ensures
        edges.contains_key((n, t)),
        edges[(n, t)] == c,
{
    assert(paths[c].len() > 0);
    assert(c > 0);
    assert(reached(edges, paths, c));
    let m = choose|m: usize|
        m < paths.len() && #[trigger] edges.contains_key((m, paths[c].last())) && edges[(
            m,
            paths[c].last(),
        )] == c;
    assert(paths[c] == paths[m as int].push(t));
    assert(paths[m as int] =~= paths[c].drop_last());
    assert(paths[n as int] =~= paths[c].drop_last());
    assert(m == n);
}

impl WordCounts {
    /// The words and their counts, in the order in which they first came.
    pub closed spec fn view(&self) -> Seq<WordModel> {
        counted_words(self.entries@)
    }

    pub closed spec fn wf(&self) -> bool {
        &&& distinct_words(self@)
        &&& self.total == weight(self@)
        &&& self.edges.wf()
        &&& is_tree(self.edges@, self.paths@)
        &&& self.slots@.len() == self.paths@.len()
        &&& forall|c: int|
            0 <= c < self.slots@.len() ==> (#[trigger] self.slots@[c] matches Some(i) ==> i
                < self.entries@.len() && self.entries@[i as int].0@ == self.paths@[c])
        &&& forall|i: int|
            0 <= i < self.entries@.len() ==> #[trigger] has_slot(
                self.slots@,
                self.paths@,
                self@[i].0,
                i,
            )
    }

    pub proof fn lemma_distinct(&self)
        requires
            self.wf(),
        ensures
            distinct_words(self@),
    {
    }

    pub fn new() -> (c: Self)
        ensures
            c.wf(),
            c@ == Seq::<WordModel>::empty(),
    {
        let mut slots: Vec<Option<usize>> = Vec::new();
        slots.push(None);
        let ghost root = seq![Seq::<usize>::empty()];
        let c = Self {
            entries: Vec::new(),
            total: 0,
            edges: PairMap::new(),
            slots,
            paths: Ghost(root),
        };
        assert(c@ =~= Seq::<WordModel>::empty());
        c
    }

    /// The number of different words.
    pub fn len(&self) -> (n: usize)
        ensures
            n == self@.len(),
    {
        self.entries.len()
    }

    /// The number of tokens counted so far.
    pub fn total(&self) -> (n: u64)
        requires
            self.wf(),
        ensures
            n == weight(self@),
    {
        self.total
    }

    /// The node of a word, with new nodes where the tree does not reach it.
    fn node_of(&mut self, w: &Vec<usize>) -> (node: usize)
        requires
            old(self).wf(),
        ensures
            final(self).wf(),
            final(self)@ == old(self)@,
            final(self).entries == old(self).entries,
            node < final(self).paths@.len(),
            final(self).paths@[node as int] == w@,
    {
        let mut node: usize = 0;
        assert(w@.take(0) =~= Seq::<usize>::empty());
        for k in 0..w.len()
            invariant
                self.wf(),
                self.entries == old(self).entries,
                node < self.paths@.len(),
                self.paths@[node as int] == w@.take(k as int),
        {
            let t = w[k];
            assert(w@.take(k + 1) =~= w@.take(k as int).push(t));
            match self.edges.get(node, t) {
                Some(next) => {
                    assert(self.edges@.contains_key((node, t)));
                    node = next;
                },
                None => {
                    let next = self.slots.len();
                    let ghost paths = self.paths@;
                    let ghost edges = self.edges@;
                    let ghost slots = self.slots@;
                    let ghost before = *self;
                    let ghost p = paths[node as int].push(t);
                    proof {
                        assert(!edges.contains_key((node, t)));
                        assert forall|c: int| 0 <= c < paths.len() implies #[trigger] paths[c]
                            != p by {
                            if paths[c] == p {
                                lemma_edge(edges, paths, node, t, c);
                            }
                        }
                    }
                    self.edges.insert(node, t, next);
                    self.slots.push(None);
                    self.paths = Ghost(paths.push(p));
                    proof {
                        lemma_grown_tree(edges, paths, node, t);
                        assert(self.edges@ == edges.insert((node, t), paths.len() as usize));
                        assert forall|i: int| 0 <= i < self.entries@.len() implies #[trigger] has_slot(
                            self.slots@,
                            self.paths@,
                            self@[i].0,
                            i,
                        ) by {
                            assert(self@[i] == before@[i]);
                            assert(has_slot(slots, paths, before@[i].0, i));
                            let c = choose|c: int|
                                0 <= c < paths.len() && #[trigger] paths[c] == before@[i].0
                                    && slots[c] == Some(i as usize);
                            assert(self.paths@[c] == self@[i].0);
                        }
                    }
                    node = next;
                },
            }
        }
        assert(w@.take(w@.len() as int) =~= w@);
        node
    }

    /// Counts one more occurrence of a word.
    pub fn add_word(&mut self, w: &Vec<usize>)
        requires
            old(self).wf(),
            w@.len() > 0,
            weight(old(self)@) + w@.len() <= u64::MAX,
        ensures
            final(self).wf(),
            final(self)@ == counted_once_more(old(self)@, w@),
    {
        let ghost t = self@;
        let node = self.node_of(w);
        let ghost slots = self.slots@;
        let ghost paths = self.paths@;
        proof {
            lemma_counted_once_more(t, w@);
            lemma_place_of(t, w@);
        }
        match self.slots[node] {
            Some(i) => {
                proof {
                    assert(slots[node as int] == Some(i));
                    assert(self.entries@[i as int].0@ == w@);
                    assert(t[i as int].0 == w@);
                    assert(place_of(t, w@) == Some(i as int));
                    lemma_weight_at_least(t, i as int);
                    let c = t[i as int].1 as int;
                    let l = w@.len() as int;
                    assert(c <= c * l) by (nonlinear_arith)
                        requires
                            c >= 0,
                            l >= 1,
                    ;
                }
                let word = copy_ids(&self.entries[i].0);
                let count = self.entries[i].1;
                let ghost entries = self.entries@;
                self.entries.set(i, (word, count + 1));
                self.total = self.total + w.len() as u64;
                proof {
                    assert(self@ =~= t.update(i as int, (w@, (count + 1) as u64)));
                    assert forall|j: int| 0 <= j < self.entries@.len() implies #[trigger] has_slot(
                        self.slots@,
                        self.paths@,
                        self@[j].0,
                        j,
                    ) by {
                        assert(has_slot(slots, paths, t[j].0, j));
                    }
                }
            },
            None => {
                let i = self.entries.len();
                proof {
                    if let Some(j) = place_of(t, w@) {
                        assert(has_slot(slots, paths, t[j].0, j));
                        let c = choose|c: int|
                            0 <= c < paths.len() && #[trigger] paths[c] == t[j].0 && slots[c]
                                == Some(j as usize);
                        assert(c == node);
                    }
                }
                self.entries.push((copy_ids(w), 1));
                self.slots.set(node, Some(i));
                self.total = self.total + w.len() as u64;
                proof {
                    assert(self@ =~= t.push((w@, 1)));
                    assert forall|j: int| 0 <= j < self.entries@.len() implies #[trigger] has_slot(
                        self.slots@,
                        self.paths@,
                        self@[j].0,
                        j,
                    ) by {
                        if j < t.len() {
                            assert(has_slot(slots, paths, t[j].0, j));
                            let c = choose|c: int|
                                0 <= c < paths.len() && #[trigger] paths[c] == t[j].0 && slots[c]
                                    == Some(j as usize);
                            assert(self.paths@[c] == self@[j].0);
                            assert(self.slots@[c] == Some(j as usize));
                        } else {
                            assert(self.paths@[node as int] == self@[j].0);
                        }
                    }
                    assert forall|c: int| 0 <= c < self.slots@.len() implies (
                    #[trigger] self.slots@[c] matches Some(x) ==> x < self.entries@.len()
                        && self.entries@[x as int].0@ == self.paths@[c]) by {
                        if c != node {
                            assert(self.slots@[c] == slots[c]);
                        }
                    }
                }
            },
        }
    }

    /// The words that were counted at least so often.
    pub fn at_least(&self, min_word_freq: u64) -> (counts: Vec<(Vec<usize>, u64)>)
        requires
            self.wf(),
        ensures
            counted_words(counts@) == kept(self@, min_word_freq),
            weight(counted_words(counts@)) <= u64::MAX,
    {
        let mut counts: Vec<(Vec<usize>, u64)> = Vec::new();
        let ghost t = self@;
        assert(counted_words(counts@) =~= kept(t.take(0), min_word_freq)) by {
            reveal(Seq::filter);
        }
        for i in 0..self.entries.len()
            invariant
                t == self@,
                t.len() == self.entries@.len(),
                counted_words(counts@) == kept(t.take(i as int), min_word_freq),
        {
            let ghost before = counted_words(counts@);
            proof {
                reveal(Seq::filter);
                assert(t.take(i + 1).drop_last() =~= t.take(i as int));
                assert(t[i as int] == (self.entries@[i as int].0@, self.entries@[i as int].1));
            }
            if self.entries[i].1 >= min_word_freq {
                counts.push((copy_ids(&self.entries[i].0), self.entries[i].1));
                assert(counted_words(counts@) =~= before.push(t[i as int]));
            }
        }
        assert(t.take(t.len() as int) =~= t);
        proof {
            lemma_weight_kept(t, min_word_freq);
        }
        counts
    }
}

/// The words that were counted at least so often.
pub open spec fn kept<T>(t: Seq<(T, u64)>, min: u64) -> Seq<(T, u64)> {
    t.filter(|w: (T, u64)| w.1 >= min)
}

pub proof fn lemma_weight_kept(t: Seq<WordModel>, min: u64)
    ensures
        weight(kept(t, min)) <= weight(t),
    decreases t.len(),
{
    reveal(Seq::filter);
    if t.len() > 0 {
        lemma_weight_kept(t.drop_last(), min);
        let front = kept(t.drop_last(), min);
        assert(front.push(t.last()).drop_last() =~= front);
        assert(t.last().1 * t.last().0.len() >= 0) by (nonlinear_arith)
            requires
                t.last().1 >= 0,
                t.last().0.len() >= 0,
        ;
    }
}

/// The node of a word knows the place of the word.
spec fn has_slot(slots: Seq<Option<usize>>, paths: Seq<Seq<usize>>, w: Seq<usize>, i: int) -> bool {
    exists|c: int|
        0 <= c < paths.len() && #[trigger] paths[c] == w && slots[c] == Some(i as usize)
}

proof fn lemma_grown_tree(
    edges: Map<(usize, usize), usize>,
    paths: Seq<Seq<usize>>,
    n: usize,
    t: usize,
)
    requires
        is_tree(edges, paths),
        n < paths.len(),
        paths.len() <= usize::MAX,
        forall|c: int| 0 <= c < paths.len() ==> #[trigger] paths[c] != paths[n as int].push(t),
    ensures
        is_tree(
            edges.insert((n, t), paths.len() as usize),
            paths.push(paths[n as int].push(t)),
        ),
{
    let p = paths[n as int].push(t);
    let e = edges.insert((n, t), paths.len() as usize);
    let q = paths.push(p);
    assert(!edges.contains_key((n, t))) by {
        if edges.contains_key((n, t)) {
            assert(paths[edges[(n, t)] as int] == p);
        }
    }
    assert forall|m: usize, u: usize| #[trigger] e.contains_key((m, u)) implies m < q.len() && e[(
        m,
        u,
    )] < q.len() && q[e[(m, u)] as int] == q[m as int].push(u) by {
        if (m, u) != (n, t) {
            assert(edges.contains_key((m, u)));
        }
    }
    assert forall|c: int| 0 < c < q.len() implies (#[trigger] q[c]).len() > 0 && reached(
        e,
        q,
        c,
    ) by {
        if c < paths.len() {
            assert(q[c] == paths[c]);
            assert(reached(edges, paths, c));
            let m = choose|m: usize|
                m < paths.len() && #[trigger] edges.contains_key((m, paths[c].last())) && edges[(
                    m,
                    paths[c].last(),
                )] == c;
            assert(e.contains_key((m, q[c].last())));
            assert((m, q[c].last()) != (n, t));
        } else {
            assert(q[c].last() == t);
            assert(e.contains_key((n, q[c].last())));
        }
    }
    assert forall|i: int, j: int| 0 <= i < q.len() && 0 <= j < q.len() && i != j implies q[i]
        != q[j] by {
        if i < paths.len() && j < paths.len() {
            assert(paths[i] != paths[j]);
        } else if i < paths.len() {
            assert(paths[i] != p);
        } else {
            assert(paths[j] != p);
        }
    }
}

/// How often a word stands in a list.
pub open spec fn occurrences<T>(ws: Seq<T>, w: T) -> nat
    decreases ws.len(),
{
    if ws.len() == 0 {
        0
    } else {
        occurrences(ws.drop_last(), w) + if ws.last() == w {
            1nat
        } else {
            0nat
        }
    }
}

/// The count of a word in a list of counted words; zero where it is not in it.
pub open spec fn count_of<T>(t: Seq<(T, u64)>, w: T) -> nat {
    match place_of(t, w) {
        Some(i) => t[i].1 as nat,
        None => 0,
    }
}

proof fn lemma_place_found<T>(t: Seq<(T, u64)>, i: int)
    requires
        distinct_words(t),
        0 <= i < t.len(),
    ensures
        place_of(t, t[i].0) == Some(i),
{
    lemma_place_of(t, t[i].0);
    let j = place_of(t, t[i].0)->0;
    if j != i {
        assert(t[j].0 != t[i].0);
    }
}

/// Counting counts: every word stands once, with the number of its occurrences.
pub proof fn law_counts_are_occurrences<T>(ws: Seq<T>, w: T)
    requires
        ws.len() <= u64::MAX,
    ensures
        distinct_words(tallied(Seq::<(T, u64)>::empty(), ws)),
        count_of(tallied(Seq::<(T, u64)>::empty(), ws), w) == occurrences(ws, w),
        occurrences(ws, w) <= ws.len(),
    decreases ws.len(),
{
    let none = Seq::<(T, u64)>::empty();
    if ws.len() > 0 {
        let x = ws.last();
        let front = tallied(none, ws.drop_last());
        let t = tallied(none, ws);
        law_counts_are_occurrences(ws.drop_last(), w);
        law_counts_are_occurrences(ws.drop_last(), x);
        lemma_place_of(front, x);
        lemma_place_of(front, w);
        lemma_place_of(t, w);
        match place_of(front, x) {
            Some(i) => {
                assert(t[i] == (x, (front[i].1 + 1) as u64));
                assert(distinct_words(t)) by {
                    assert forall|a: int, b: int|
                        0 <= a < t.len() && 0 <= b < t.len() && a != b implies (#[trigger] t[a]).0
                        != (#[trigger] t[b]).0 by {
                        assert(front[a].0 != front[b].0);
                    }
                }
                if w == x {
                    lemma_place_found(t, i);
                } else if let Some(j) = place_of(front, w) {
                    assert(t[j] == front[j]);
                    lemma_place_found(t, j);
                } else if let Some(j) = place_of(t, w) {
                    assert(front[j].0 == w);
                }
            },
            None => {
                assert(t == front.push((x, 1u64)));
                assert(distinct_words(t));
                if w == x {
                    lemma_place_found(t, front.len() as int);
                } else if let Some(j) = place_of(front, w) {
                    assert(t[j] == front[j]);
                    lemma_place_found(t, j);
                } else if let Some(j) = place_of(t, w) {
                    if j < front.len() {
                        assert(front[j].0 == w);
                    }
                }
            },
        }
    }
}

} // verus!
