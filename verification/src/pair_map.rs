//! A hash map whose keys are pairs of indices.

use std::collections::HashMap;
use vstd::prelude::*;

verus! {

pub const PAIR_BASE: u128 = 0x1_0000_0000_0000_0000;

/// The number under which a pair is stored.
pub open spec fn packed(a: usize, b: usize) -> u128 {
    (a * PAIR_BASE + b) as u128
}

pub proof fn lemma_packed(a: usize, b: usize)
    ensures
        packed(a, b) == a * PAIR_BASE + b,
        packed(a, b) / PAIR_BASE == a,
        packed(a, b) % PAIR_BASE == b,
{
    let x: int = a * PAIR_BASE + b;
    assert(0 <= x < 0x1_0000_0000_0000_0000_0000_0000_0000_0000) by (nonlinear_arith)
        requires
            x == a * PAIR_BASE + b,
            0 <= a < 0x1_0000_0000_0000_0000,
            0 <= b < 0x1_0000_0000_0000_0000,
            PAIR_BASE == 0x1_0000_0000_0000_0000,
    ;
    vstd::arithmetic::div_mod::lemma_fundamental_div_mod_converse(
        x,
        PAIR_BASE as int,
        a as int,
        b as int,
    );
}

pub proof fn lemma_packed_injective(a: usize, b: usize, c: usize, d: usize)
    requires
        packed(a, b) == packed(c, d),
    ensures
        a == c,
        b == d,
{
    lemma_packed(a, b);
    lemma_packed(c, d);
}

fn pack(a: usize, b: usize) -> (k: u128)
    ensures
        k == packed(a, b),
{
    proof {
        lemma_packed(a, b);
    }
    (a as u128) * PAIR_BASE + (b as u128)
}

/// A map from pairs of indices to values.
#[verifier::reject_recursive_types(V)]
pub struct PairMap<V> {
    slots: HashMap<u128, V>,
}

impl<V: Copy> PairMap<V> {
    /// Every stored number is the number of some pair.
    pub closed spec fn wf(&self) -> bool {
        forall|k: u128| #[trigger]
            self.slots@.contains_key(k) ==> k / PAIR_BASE <= usize::MAX && k % PAIR_BASE
                <= usize::MAX
    }

    pub closed spec fn view(&self) -> Map<(usize, usize), V> {
        Map::new(
            |p: (usize, usize)| self.slots@.contains_key(packed(p.0, p.1)),
            |p: (usize, usize)| self.slots@[packed(p.0, p.1)],
        )
    }

    pub fn new() -> (m: Self)
        ensures
            m.wf(),
            m@ == Map::<(usize, usize), V>::empty(),
    {
        let m = PairMap { slots: HashMap::new() };
        assert(m@ =~= Map::<(usize, usize), V>::empty());
        m
    }

    pub fn get(&self, a: usize, b: usize) -> (v: Option<V>)
        ensures
            v == (if self@.contains_key((a, b)) {
                Some(self@[(a, b)])
            } else {
                None
            }),
    {
        match self.slots.get(&pack(a, b)) {
            Some(v) => Some(*v),
            None => None,
        }
    }

    pub fn insert(&mut self, a: usize, b: usize, v: V)
        requires
            old(self).wf(),
        ensures
            final(self).wf(),
            final(self)@ == old(self)@.insert((a, b), v),
    {
        proof {
            lemma_packed(a, b);
        }
        self.slots.insert(pack(a, b), v);
        assert(self@ =~= old(self)@.insert((a, b), v)) by {
            assert forall|p: (usize, usize)|
                p != (a, b) implies packed(p.0, p.1) != packed(a, b) by {
                if packed(p.0, p.1) == packed(a, b) {
                    lemma_packed_injective(p.0, p.1, a, b);
                }
            }
        }
    }

    pub fn remove(&mut self, a: usize, b: usize)
        requires
            old(self).wf(),
        ensures
            final(self).wf(),
            final(self)@ == old(self)@.remove((a, b)),
    {
        self.slots.remove(&pack(a, b));
        assert(self@ =~= old(self)@.remove((a, b))) by {
            assert forall|p: (usize, usize)|
                p != (a, b) implies packed(p.0, p.1) != packed(a, b) by {
                if packed(p.0, p.1) == packed(a, b) {
                    lemma_packed_injective(p.0, p.1, a, b);
                }
            }
        }
    }

    pub fn is_empty(&self) -> (empty: bool)
        requires
            self.wf(),
        ensures
            empty == (self@ == Map::<(usize, usize), V>::empty()),
    {
        let empty = self.slots.is_empty();
        proof {
            if empty {
                assert(self@ =~= Map::<(usize, usize), V>::empty());
            } else {
                assert(exists|k: u128| self.slots@.contains_key(k)) by {
                    if forall|k: u128| !self.slots@.contains_key(k) {
                        assert(self.slots@ =~= Map::<u128, V>::empty());
                    }
                }
                let k = choose|k: u128| self.slots@.contains_key(k);
                self.lemma_stored(k);
                let p = ((k / PAIR_BASE) as usize, (k % PAIR_BASE) as usize);
                assert(self@.contains_key(p));
            }
        }
        empty
    }

    proof fn lemma_stored(&self, k: u128)
        requires
            self.wf(),
            self.slots@.contains_key(k),
        ensures
            packed((k / PAIR_BASE) as usize, (k % PAIR_BASE) as usize) == k,
    {
        let a = (k / PAIR_BASE) as usize;
        let b = (k % PAIR_BASE) as usize;
        lemma_packed(a, b);
        vstd::arithmetic::div_mod::lemma_fundamental_div_mod(k as int, PAIR_BASE as int);
    }

    /// The keys, each once, in no particular order.
    pub fn keys(&self) -> (out: Vec<(usize, usize)>)
        requires
            self.wf(),
        ensures
            out@.no_duplicates(),
            forall|p: (usize, usize)| #[trigger] out@.contains(p) <==> self@.contains_key(p),
    {
        let mut out: Vec<(usize, usize)> = Vec::new();
        let keys = self.slots.keys();
        let ghost all = vstd::std_specs::iter::IteratorSpec::remaining(&keys).unref();
        for k in it: keys
            invariant
                self.wf(),
                all == it.seq().unref(),
                all.no_duplicates(),
                all.to_set() == self.slots@.dom(),
                out@.len() == it.index(),
                forall|i: int|
                    0 <= i < out@.len() ==> packed((#[trigger] out@[i]).0, out@[i].1) == all[i],
        {
            proof {
                assert(all[it.index() as int] == *k);
                assert(all.to_set().contains(*k));
                self.lemma_stored(*k);
            }
            out.push(((*k / PAIR_BASE) as usize, (*k % PAIR_BASE) as usize));
        }
        proof {
            assert(out@.len() == all.len());
            assert forall|i: int, j: int|
                0 <= i < out@.len() && 0 <= j < out@.len() && i != j implies out@[i] != out@[j] by {
                assert(all[i] != all[j]);
            }
            assert forall|p: (usize, usize)| #[trigger]
                out@.contains(p) <==> self@.contains_key(p) by {
                if out@.contains(p) {
                    let i = choose|i: int| 0 <= i < out@.len() && out@[i] == p;
                    assert(all.to_set().contains(all[i]));
                }
                if self@.contains_key(p) {
                    assert(all.to_set().contains(packed(p.0, p.1)));
                    let i = choose|i: int| 0 <= i < all.len() && all[i] == packed(p.0, p.1);
                    assert(packed(out@[i].0, out@[i].1) == packed(p.0, p.1));
                    lemma_packed_injective(out@[i].0, out@[i].1, p.0, p.1);
                    assert(out@[i] == p);
                }
            }
        }
        out
    }
}

} // verus!
