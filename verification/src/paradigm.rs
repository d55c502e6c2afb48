//! Paradigms: which continuation a root allows after which prefix.

use crate::text::texts;
use std::collections::HashMap;
use vstd::hash_map::StringHashMap;
use vstd::hash_set::StringHashSet;
use vstd::prelude::*;

verus! {

/// A paradigm as a mathematical object.
pub struct ParadigmModel {
    pub root: usize,
    pub allowed: Map<Seq<char>, Set<Seq<char>>>,
}

impl ParadigmModel {
    pub open spec fn allows(self, prefix: Seq<char>, continuation: Seq<char>) -> bool {
        self.allowed.contains_key(prefix) && self.allowed[prefix].contains(continuation)
    }
}

/// The forms of one root.
pub struct Paradigm {
    pub root_id: usize,
    pub allowed_transitions: StringHashMap<StringHashSet>,
}

impl View for Paradigm {
    type V = ParadigmModel;

    open spec fn view(&self) -> ParadigmModel {
        ParadigmModel {
            root: self.root_id,
            allowed: self.allowed_transitions@.map_values(|s: StringHashSet| s@),
        }
    }
}

impl Paradigm {
    /// A paradigm that allows nothing.
    pub fn new(root_id: usize) -> (p: Self)
        ensures
            p@ == (ParadigmModel { root: root_id, allowed: Map::empty() }),
            p.root_id == root_id,
    {
        let p = Self { root_id, allowed_transitions: StringHashMap::new() };
        assert(p@.allowed =~= Map::<Seq<char>, Set<Seq<char>>>::empty());
        p
    }

    /// Sets what is allowed after `prefix`.
    pub fn set_allowed(&mut self, prefix: String, continuations: Vec<String>)
        ensures
            final(self)@.root == old(self)@.root,
            final(self)@.allowed == old(self)@.allowed.insert(
                prefix@,
                texts(continuations@).to_set(),
            ),
    {
        let mut set = StringHashSet::new();
        let ghost all = texts(continuations@);
        assert(set@ =~= all.take(0).to_set());
        for i in 0..continuations.len()
            invariant
                all == texts(continuations@),
                set@ == all.take(i as int).to_set(),
        {
            set.insert(continuations[i].clone());
            assert(all.take(i + 1) =~= all.take(i as int).push(all[i as int]));
            assert(set@ =~= all.take(i + 1).to_set()) by {
                assert forall|x: Seq<char>|
                    set@.contains(x) <==> all.take(i + 1).to_set().contains(x) by {
                    crate::akshara::lemma_push_contains(all.take(i as int), all[i as int], x);
                }
            }
        }
        assert(all.take(continuations@.len() as int) =~= all);
        self.allowed_transitions.insert(prefix, set);
        assert(self@.allowed =~= old(self)@.allowed.insert(prefix@, set@));
    }

    pub fn allows(&self, prefix: &str, continuation: &str) -> (yes: bool)
        ensures
            yes == self@.allows(prefix@, continuation@),
    {
        match self.allowed_transitions.get(prefix) {
            Some(set) => set.contains(continuation),
            None => false,
        }
    }

    pub fn has_prefix(&self, prefix: &str) -> (yes: bool)
        ensures
            yes == self@.allowed.contains_key(prefix@),
    {
        self.allowed_transitions.contains_key(prefix)
    }
}

/// The roots of the paradigms that know `prefix`, in the order of the paradigms.
pub open spec fn roots_with_prefix(ps: Seq<ParadigmModel>, prefix: Seq<char>) -> Seq<usize>
    decreases ps.len(),
{
    if ps.len() == 0 {
        Seq::empty()
    } else {
        let before = roots_with_prefix(ps.drop_last(), prefix);
        if ps.last().allowed.contains_key(prefix) {
            before.push(ps.last().root)
        } else {
            before
        }
    }
}

/// The last of the paradigms of `root`.
pub open spec fn paradigm_of(ps: Seq<ParadigmModel>, root: usize) -> Option<ParadigmModel>
    decreases ps.len(),
{
    if ps.len() == 0 {
        None
    } else if ps.last().root == root {
        Some(ps.last())
    } else {
        paradigm_of(ps.drop_last(), root)
    }
}

/// Whether the paradigm of `root` allows `continuation` after `prefix`.
pub open spec fn licensed(
    ps: Seq<ParadigmModel>,
    root: usize,
    prefix: Seq<char>,
    continuation: Seq<char>,
) -> bool {
    match paradigm_of(ps, root) {
        Some(p) => p.allows(prefix, continuation),
        None => false,
    }
}

/// All paradigms. Where a root has several, the last one decides.
pub struct ParadigmRegistry {
    paradigms: Vec<Paradigm>,
    root_to_paradigm: HashMap<usize, usize>,
}

impl ParadigmRegistry {
    pub closed spec fn view(&self) -> Seq<ParadigmModel> {
        self.paradigms@.map_values(|p: Paradigm| p@)
    }

    /// The index leads from each root to its last paradigm.
    pub closed spec fn wf(&self) -> bool {
        &&& forall|r: usize| #[trigger]
            self.root_to_paradigm@.contains_key(r) ==> self.root_to_paradigm@[r]
                < self.paradigms@.len() && paradigm_of(self@, r) == Some(
                self@[self.root_to_paradigm@[r] as int],
            )
        &&& forall|r: usize|
            !(#[trigger] self.root_to_paradigm@.contains_key(r)) ==> paradigm_of(self@, r) is None
    }

    pub fn new() -> (r: Self)
        ensures
            r.wf(),
            r@ == Seq::<ParadigmModel>::empty(),
    {
        let r = Self { paradigms: Vec::new(), root_to_paradigm: HashMap::new() };
        assert(r@ =~= Seq::<ParadigmModel>::empty());
        r
    }

    pub fn add_paradigm(&mut self, paradigm: Paradigm)
        requires
            old(self).wf(),
        ensures
            final(self).wf(),
            final(self)@ == old(self)@.push(paradigm@),
    {
        let idx = self.paradigms.len();
        self.root_to_paradigm.insert(paradigm.root_id, idx);
        self.paradigms.push(paradigm);
        assert(self@ =~= old(self)@.push(paradigm@));
        assert(self@.drop_last() =~= old(self)@);
        assert(self@.last().root == paradigm.root_id);
        assert forall|r: usize| #[trigger]
            self.root_to_paradigm@.contains_key(r) implies self.root_to_paradigm@[r]
            < self.paradigms@.len() && paradigm_of(self@, r) == Some(
            self@[self.root_to_paradigm@[r] as int],
        ) by {
            if r != paradigm.root_id {
                assert(old(self).root_to_paradigm@.contains_key(r));
                let i = old(self).root_to_paradigm@[r] as int;
                assert(self@[i] == old(self)@[i]);
            }
        }
        assert forall|r: usize|
            !(#[trigger] self.root_to_paradigm@.contains_key(r)) implies paradigm_of(
            self@,
            r,
        ) is None by {
            assert(!old(self).root_to_paradigm@.contains_key(r));
        }
    }

    /// The roots whose paradigms know `prefix`.
    pub fn get_root_set(&self, prefix: &str) -> (roots: Vec<usize>)
        ensures
            roots@ == roots_with_prefix(self@, prefix@),
    {
        let mut roots: Vec<usize> = Vec::new();
        let ghost ps = self@;
        for i in 0..self.paradigms.len()
            invariant
                ps == self@,
                ps.len() == self.paradigms@.len(),
                roots@ == roots_with_prefix(ps.take(i as int), prefix@),
        {
            assert(ps.take(i + 1).drop_last() =~= ps.take(i as int));
            assert(ps[i as int] == self.paradigms@[i as int]@);
            assert(self.paradigms@[i as int]@.root == self.paradigms@[i as int].root_id);
            if self.paradigms[i].has_prefix(prefix) {
                roots.push(self.paradigms[i].root_id);
            }
        }
        assert(ps.take(ps.len() as int) =~= ps);
        roots
    }

    pub fn check_allowed(&self, root_id: usize, prefix: &str, continuation: &str) -> (yes: bool)
        requires
            self.wf(),
        ensures
            yes == licensed(self@, root_id, prefix@, continuation@),
    {
        match self.root_to_paradigm.get(&root_id) {
            Some(idx) => {
                assert(self.root_to_paradigm@.contains_key(root_id));
                self.paradigms[*idx].allows(prefix, continuation)
            },
            None => {
                assert(!self.root_to_paradigm@.contains_key(root_id));
                false
            },
        }
    }

    /// The roots, one for each paradigm.
    pub fn roots(&self) -> (roots: Vec<usize>)
        ensures
            roots@ == self@.map_values(|p: ParadigmModel| p.root),
    {
        let mut roots: Vec<usize> = Vec::new();
        for i in 0..self.paradigms.len()
            invariant
                roots@.len() == i,
                forall|j: int| 0 <= j < i ==> roots@[j] == self@[j].root,
        {
            assert(self@[i as int].root == self.paradigms@[i as int].root_id);
            roots.push(self.paradigms[i].root_id);
        }
        assert(roots@ =~= self@.map_values(|p: ParadigmModel| p.root));
        roots
    }
}

} // verus!
