//! The automaton that cuts Devanagari text into aksharas.

use crate::pair_map::PairMap;
use crate::script::scalar;
use crate::text::{chars_of, string_of};
use std::collections::HashSet;
use vstd::prelude::*;

verus! {

pub const VIRAMA: char = '\u{094D}';

pub const NUKTA: char = '\u{093C}';

#[verifier::allow_in_spec]
pub fn is_dev_consonant(c: char) -> bool
    returns
        ('\u{0915}' <= c && c <= '\u{0939}') || ('\u{0958}' <= c && c <= '\u{095F}') || (
        '\u{0978}' <= c && c <= '\u{097F}'),
{
    ('\u{0915}' <= c && c <= '\u{0939}') || ('\u{0958}' <= c && c <= '\u{095F}') || ('\u{0978}' <= c
        && c <= '\u{097F}')
}

#[verifier::allow_in_spec]
pub fn is_dev_indep_vowel(c: char) -> bool
    returns
        ('\u{0904}' <= c && c <= '\u{0914}') || ('\u{0972}' <= c && c <= '\u{0977}'),
{
    ('\u{0904}' <= c && c <= '\u{0914}') || ('\u{0972}' <= c && c <= '\u{0977}')
}

#[verifier::allow_in_spec]
pub fn is_dev_matra(c: char) -> bool
    returns
        ('\u{093A}' <= c && c <= '\u{093B}') || ('\u{093E}' <= c && c <= '\u{094C}') || c
            == '\u{094E}' || c == '\u{094F}' || ('\u{0955}' <= c && c <= '\u{0957}') || c
            == '\u{0962}' || c == '\u{0963}',
{
    ('\u{093A}' <= c && c <= '\u{093B}') || ('\u{093E}' <= c && c <= '\u{094C}') || c == '\u{094E}'
        || c == '\u{094F}' || ('\u{0955}' <= c && c <= '\u{0957}') || c == '\u{0962}' || c
        == '\u{0963}'
}

#[verifier::allow_in_spec]
pub fn is_dev_nasal_mark(c: char) -> bool
    returns
        '\u{0900}' <= c && c <= '\u{0903}',
{
    '\u{0900}' <= c && c <= '\u{0903}'
}

#[verifier::allow_in_spec]
pub fn is_dev_digit(c: char) -> bool
    returns
        '\u{0966}' <= c && c <= '\u{096F}',
{
    '\u{0966}' <= c && c <= '\u{096F}'
}

#[verifier::allow_in_spec]
pub fn is_dev_standalone(c: char) -> bool
    returns
        c == '\u{093D}' || c == '\u{0950}' || c == '\u{0970}' || c == '\u{0971}',
{
    c == '\u{093D}' || c == '\u{0950}' || c == '\u{0970}' || c == '\u{0971}'
}

/// One unit of Devanagari writing, with the roots it may begin.
#[derive(Debug, Clone, PartialEq, Eq, Hash)]
pub struct Akshara {
    pub surface: String,
    pub root_set: Vec<usize>,
}

/// An automaton as a mathematical object.
pub struct DfaModel {
    pub moves: Map<(usize, char), usize>,
    pub accepting: Set<usize>,
    pub initial: usize,
}

impl DfaModel {
    /// The state after reading `c` in `state`.
    pub open spec fn step(self, state: usize, c: char) -> Option<usize> {
        if self.moves.contains_key((state, c)) {
            Some(self.moves[(state, c)])
        } else {
            None
        }
    }

    /// The length of the longest accepted text at the front of `t`, read from
    /// `state`; zero where none is accepted.
    pub open spec fn accepted_len(self, state: usize, t: Seq<char>) -> nat
        decreases t.len(),
    {
        if t.len() == 0 {
            0
        } else {
            match self.step(state, t[0]) {
                None => 0,
                Some(next) => {
                    let more = self.accepted_len(next, t.skip(1));
                    if more > 0 {
                        1 + more
                    } else if self.accepting.contains(next) {
                        1
                    } else {
                        0
                    }
                },
            }
        }
    }

    /// The length of the first unit of a text that is not empty: the longest
    /// accepted front, or one character where none is accepted.
    pub open spec fn unit_len(self, t: Seq<char>) -> nat {
        let k = self.accepted_len(self.initial, t);
        if k > 0 {
            k
        } else {
            1
        }
    }

    /// The text cut into units from left to right.
    pub open spec fn units(self, t: Seq<char>) -> Seq<Seq<char>>
        decreases t.len(),
    {
        if t.len() == 0 || self.unit_len(t) > t.len() {
            Seq::empty()
        } else {
            let k = self.unit_len(t) as int;
            seq![t.take(k)] + self.units(t.skip(k))
        }
    }
}

pub proof fn lemma_accepted_len(d: DfaModel, state: usize, t: Seq<char>)
    ensures
        d.accepted_len(state, t) <= t.len(),
    decreases t.len(),
{
    if t.len() > 0 {
        if let Some(next) = d.step(state, t[0]) {
            lemma_accepted_len(d, next, t.skip(1));
        }
    }
}

/// The units of a text, put together again, are the text; none of them is empty.
pub proof fn law_units_partition(d: DfaModel, t: Seq<char>)
    ensures
        d.units(t).flatten() == t,
        forall|i: int| 0 <= i < d.units(t).len() ==> (#[trigger] d.units(t)[i]).len() > 0,
        forall|i: int, j: int|
            0 <= i < d.units(t).len() && 0 <= j < d.units(t)[i].len() ==> t.contains(
                #[trigger] d.units(t)[i][j],
            ),
    decreases t.len(),
{
    if t.len() > 0 {
        lemma_accepted_len(d, d.initial, t);
        let k = d.unit_len(t) as int;
        let rest = t.skip(k);
        law_units_partition(d, rest);
        let u = d.units(t);
        assert(u.drop_first() =~= d.units(rest));
        assert(u.first() == t.take(k));
        assert(t.take(k) + rest =~= t);
        assert forall|i: int| 0 <= i < u.len() implies (#[trigger] u[i]).len() > 0 by {
            if i > 0 {
                assert(u[i] == d.units(rest)[i - 1]);
            }
        }
        assert forall|i: int, j: int| 0 <= i < u.len() && 0 <= j < u[i].len() implies t.contains(
            #[trigger] u[i][j],
        ) by {
            if i > 0 {
                assert(u[i] == d.units(rest)[i - 1]);
                assert(rest.contains(d.units(rest)[i - 1][j]));
                let m = choose|m: int| 0 <= m < rest.len() && rest[m] == u[i][j];
                assert(t[m + k] == u[i][j]);
            } else {
                assert(t[j] == u[i][j]);
            }
        }
    } else {
        assert(t =~= Seq::<char>::empty());
    }
}

/// Whether a boundary between consecutive parts, or the front, lies at `k`.
pub open spec fn cuts<T>(parts: Seq<Seq<T>>, k: int) -> bool
    decreases parts.len(),
{
    k == 0 || (parts.len() > 0 && cuts(parts.drop_first(), k - parts[0].len()))
}

/// The state that the Devanagari automaton moves to: 1 after a consonant, 2 after
/// a virama, 3 after a vowel, 4 after a nasal mark, 6 after a sign that stands
/// alone.
pub open spec fn default_step(state: usize, c: char) -> Option<usize> {
    if is_dev_consonant(c) {
        if state == 0 || state == 2 {
            Some(1)
        } else {
            None
        }
    } else if is_dev_indep_vowel(c) {
        if state == 0 {
            Some(3)
        } else {
            None
        }
    } else if is_dev_digit(c) || is_dev_standalone(c) {
        if state == 0 {
            Some(6)
        } else {
            None
        }
    } else if is_dev_matra(c) {
        if state == 1 || state == 3 {
            Some(3)
        } else {
            None
        }
    } else if is_dev_nasal_mark(c) {
        if state == 1 || state == 3 {
            Some(4)
        } else {
            None
        }
    } else if c == NUKTA && state == 1 {
        Some(1)
    } else if c == VIRAMA && state == 1 {
        Some(2)
    } else {
        None
    }
}

/// The automaton for Devanagari. A half consonant is complete, so state 2 accepts.
pub open spec fn default_dfa() -> DfaModel {
    DfaModel {
        moves: Map::new(
            |p: (usize, char)| default_step(p.0, p.1) is Some,
            |p: (usize, char)| default_step(p.0, p.1)->0,
        ),
        accepting: set![1usize, 2usize, 3usize, 4usize, 6usize],
        initial: 0,
    }
}

/// The signs that belong to a consonant before them.
pub open spec fn is_dependent(c: char) -> bool {
    is_dev_matra(c) || is_dev_nasal_mark(c) || c == NUKTA || c == VIRAMA
}

/// Whether the characters before and after `k` belong to one akshara: a consonant
/// and its sign, a vowel and its sign, a conjunct, a nukta consonant and its sign,
/// or a vowel sign and the nasal mark on it.
pub open spec fn joined(t: Seq<char>, k: int) -> bool {
    &&& 0 < k < t.len()
    &&& {
        ||| is_dev_consonant(t[k - 1]) && is_dependent(t[k])
        ||| is_dev_indep_vowel(t[k - 1]) && (is_dev_matra(t[k]) || is_dev_nasal_mark(t[k]))
        ||| k >= 2 && is_dev_consonant(t[k - 2]) && t[k - 1] == VIRAMA && is_dev_consonant(t[k])
        ||| k >= 2 && is_dev_consonant(t[k - 2]) && t[k - 1] == NUKTA && is_dependent(t[k])
        ||| k >= 2 && is_dev_consonant(t[k - 2]) && is_dev_matra(t[k - 1]) && is_dev_nasal_mark(
            t[k],
        )
    }
}

/// The state after reading the first `j` characters.
spec fn reach(d: DfaModel, state: usize, t: Seq<char>, j: nat) -> Option<usize>
    decreases j,
{
    if j == 0 {
        Some(state)
    } else if t.len() == 0 {
        None
    } else {
        match d.step(state, t[0]) {
            Some(next) => reach(d, next, t.skip(1), (j - 1) as nat),
            None => None,
        }
    }
}

proof fn lemma_reach_last(d: DfaModel, state: usize, t: Seq<char>, j: nat)
    requires
        0 < j <= t.len(),
    ensures
        reach(d, state, t, j) == match reach(d, state, t, (j - 1) as nat) {
            Some(q) => d.step(q, t[j - 1]),
            None => None,
        },
    decreases j,
{
    if j > 1 {
        if let Some(next) = d.step(state, t[0]) {
            lemma_reach_last(d, next, t.skip(1), (j - 1) as nat);
            assert(t.skip(1)[j - 2] == t[j - 1]);
        }
    } else {
        reveal_with_fuel(reach, 2);
    }
}

proof fn lemma_default_run(state: usize, t: Seq<char>)
    ensures
        ({
            let d = default_dfa();
            let n = d.accepted_len(state, t);
            &&& n <= t.len()
            &&& reach(d, state, t, n) is Some
            &&& n < t.len() ==> d.step(reach(d, state, t, n)->0, t[n as int]) is None
        }),
    decreases t.len(),
{
    let d = default_dfa();
    if t.len() > 0 {
        if let Some(next) = d.step(state, t[0]) {
            lemma_default_run(next, t.skip(1));
            assert(d.accepting.contains(next));
            let n = d.accepted_len(state, t);
            assert(n == 1 + d.accepted_len(next, t.skip(1)));
            assert(n < t.len() ==> t.skip(1)[n - 1] == t[n as int]);
        }
    }
}

proof fn lemma_default_unit_end(t: Seq<char>)
    requires
        t.len() > 0,
    ensures
        default_dfa().unit_len(t) <= t.len(),
        !joined(t, default_dfa().unit_len(t) as int),
{
    let d = default_dfa();
    lemma_default_run(0, t);
    let n = d.accepted_len(0, t);
    let m = d.unit_len(t);
    if n > 0 && m < t.len() {
        lemma_reach_last(d, 0, t, n);
        let q = reach(d, 0, t, (n - 1) as nat);
        assert(q is Some);
        if n >= 2 {
            lemma_reach_last(d, 0, t, (n - 1) as nat);
            let p = reach(d, 0, t, (n - 2) as nat);
            assert(p is Some);
        }
    }
}

/// The Devanagari automaton never cuts between characters that belong to one
/// akshara: no sign is parted from its consonant and no conjunct is broken.
pub proof fn law_default_units_whole(t: Seq<char>, k: int)
    requires
        cuts(default_dfa().units(t), k),
    ensures
        !joined(t, k),
    decreases t.len(),
{
    let d = default_dfa();
    if t.len() > 0 && k != 0 {
        lemma_default_unit_end(t);
        let m = d.unit_len(t) as int;
        let rest = t.skip(m);
        assert(d.units(t).drop_first() =~= d.units(rest));
        assert(d.units(t)[0].len() == m);
        law_default_units_whole(rest, k - m);
        if joined(t, k) && k > m {
            assert(t[k] == rest[k - m]);
            assert(t[k - 1] == rest[k - m - 1]);
            if k - m >= 2 {
                assert(t[k - 2] == rest[k - m - 2]);
                assert(joined(rest, k - m));
            } else {
                assert(k - 1 == m);
                assert(!joined(t, m));
            }
        }
        if k < m {
            lemma_cuts_nonneg(d.units(rest), k - m);
        }
    }
}

pub proof fn lemma_cuts_nonneg<T>(parts: Seq<Seq<T>>, k: int)
    requires
        cuts(parts, k),
    ensures
        0 <= k <= parts.flatten().len(),
    decreases parts.len(),
{
    if k != 0 {
        lemma_cuts_nonneg(parts.drop_first(), k - parts[0].len());
    }
}

pub proof fn lemma_cuts_concat<T>(p: Seq<Seq<T>>, q: Seq<Seq<T>>, k: int)
    ensures
        cuts(p + q, k) <==> cuts(p, k) || cuts(q, k - p.flatten().len()),
    decreases p.len(),
{
    if p.len() == 0 {
        assert(p + q =~= q);
    } else {
        assert((p + q).drop_first() =~= p.drop_first() + q);
        lemma_cuts_concat(p.drop_first(), q, k - p[0].len());
        assert(p.flatten().len() == p[0].len() + p.drop_first().flatten().len());
    }
}

/// Between single characters there is a boundary everywhere.
pub proof fn lemma_cuts_singles(t: Seq<char>, k: int)
    requires
        0 <= k <= t.len(),
    ensures
        cuts(t.map_values(|c: char| seq![c]), k),
    decreases t.len(),
{
    if k > 0 {
        lemma_cuts_singles(t.drop_first(), k - 1);
        assert(t.map_values(|c: char| seq![c]).drop_first() =~= t.drop_first().map_values(
            |c: char| seq![c],
        ));
    }
}

/// What stands behind a boundary between units is cut as it is on its own.
pub proof fn lemma_units_behind(d: DfaModel, t: Seq<char>, a: int, k: int)
    requires
        cuts(d.units(t), a),
        cuts(d.units(t.skip(a)), k),
    ensures
        cuts(d.units(t), a + k),
    decreases t.len(),
{
    if a == 0 {
        assert(t.skip(0) =~= t);
    } else {
        let n = d.unit_len(t) as int;
        let rest = t.skip(n);
        assert(d.units(t).drop_first() =~= d.units(rest));
        assert(d.units(t)[0].len() == n);
        lemma_cuts_nonneg(d.units(rest), a - n);
        law_units_partition(d, rest);
        assert(rest.skip(a - n) =~= t.skip(a));
        lemma_units_behind(d, rest, a - n, k);
    }
}

/// The index under which a character is stored.
pub open spec fn code_of(c: char) -> usize {
    c as u32 as usize
}

fn char_code(c: char) -> (code: usize)
    ensures
        code == code_of(c),
{
    c as u32 as usize
}

proof fn lemma_code_of(c: char, d: char)
    ensures
        code_of(c) as int == c as int,
        code_of(c) == code_of(d) ==> c == d,
{
}

/// The automaton.
pub struct AksharaDFA {
    transitions: PairMap<usize>,
    accepting_states: HashSet<usize>,
    initial_state: usize,
}

impl AksharaDFA {
    /// Every transition is on a character.
    pub closed spec fn wf(&self) -> bool {
        &&& self.transitions.wf()
        &&& forall|p: (usize, usize)| #[trigger]
            self.transitions@.contains_key(p) ==> p.1 < 0xD800 || 0xE000 <= p.1 <= 0x10FFFF
    }

    pub closed spec fn view(&self) -> DfaModel {
        DfaModel {
            moves: Map::new(
                |p: (usize, char)| self.transitions@.contains_key((p.0, code_of(p.1))),
                |p: (usize, char)| self.transitions@[(p.0, code_of(p.1))],
            ),
            accepting: self.accepting_states@,
            initial: self.initial_state,
        }
    }

    /// An automaton without transitions.
    pub fn new() -> (d: Self)
        ensures
            d.wf(),
            d@ == (DfaModel { moves: Map::empty(), accepting: Set::empty(), initial: 0 }),
    {
        let d = Self {
            transitions: PairMap::new(),
            accepting_states: HashSet::new(),
            initial_state: 0,
        };
        assert(d@.moves =~= Map::<(usize, char), usize>::empty());
        d
    }

    /// Adds or replaces a transition; `accepting` makes its target accept.
    pub fn add_transition(&mut self, state: usize, ch: char, next_state: usize, accepting: bool)
        requires
            old(self).wf(),
        ensures
            final(self).wf(),
            final(self)@.moves == old(self)@.moves.insert((state, ch), next_state),
            final(self)@.accepting == (if accepting {
                old(self)@.accepting.insert(next_state)
            } else {
                old(self)@.accepting
            }),
            final(self)@.initial == old(self)@.initial,
    {
        self.transitions.insert(state, char_code(ch), next_state);
        if accepting {
            self.accepting_states.insert(next_state);
        }
        assert(self@.moves =~= old(self)@.moves.insert((state, ch), next_state)) by {
            assert forall|c: char| code_of(c) == code_of(ch) implies c == ch by {
                lemma_code_of(c, ch);
            }
        }
    }

    /// The automaton for Devanagari.
    pub fn devanagari_default() -> (d: Self)
        ensures
            d.wf(),
            d@ == default_dfa(),
    {
        let mut d = Self::new();
        d.accepting_states.insert(1);
        d.accepting_states.insert(2);
        d.accepting_states.insert(3);
        d.accepting_states.insert(4);
        d.accepting_states.insert(6);
        let ghost goal = default_dfa().accepting;
        assert(d@.accepting =~= goal);
        for code in 0x0900u32..0x0980u32
            invariant
                d.wf(),
                goal == default_dfa().accepting,
                d@.accepting == goal,
                d@.initial == 0,
                forall|s: usize, c: char|
                    #![trigger d@.moves.contains_key((s, c))]
                    d@.moves.contains_key((s, c)) <==> ((c as u32) < code && c != NUKTA && c
                        != VIRAMA && default_step(s, c) is Some),
                forall|s: usize, c: char|
                    #![trigger d@.moves[(s, c)]]
                    d@.moves.contains_key((s, c)) ==> Some(d@.moves[(s, c)]) == default_step(s, c),
        {
            let c = scalar(code);
            if is_dev_consonant(c) {
                d.add_transition(0, c, 1, true);
                d.add_transition(2, c, 1, true);
            } else if is_dev_indep_vowel(c) {
                d.add_transition(0, c, 3, true);
            } else if is_dev_digit(c) || is_dev_standalone(c) {
                d.add_transition(0, c, 6, true);
            } else if is_dev_matra(c) {
                d.add_transition(1, c, 3, true);
                d.add_transition(3, c, 3, true);
            } else if is_dev_nasal_mark(c) {
                d.add_transition(1, c, 4, true);
                d.add_transition(3, c, 4, true);
            }
            assert(d@.accepting =~= goal);
        }
        d.add_transition(1, NUKTA, 1, true);
        d.add_transition(1, VIRAMA, 2, true);
        assert(d@.accepting =~= goal);
        assert(d@.moves =~= default_dfa().moves) by {
            assert forall|p: (usize, char)| #[trigger]
                d@.moves.contains_key(p) <==> default_dfa().moves.contains_key(p) by {
                assert(p == (p.0, p.1));
            }
            assert forall|p: (usize, char)|
                d@.moves.contains_key(p) implies #[trigger] d@.moves[p]
                == default_dfa().moves[p] by {
                assert(p == (p.0, p.1));
            }
        }
        d
    }

    pub fn is_empty(&self) -> (empty: bool)
        requires
            self.wf(),
        ensures
            empty == (self@.moves == Map::<(usize, char), usize>::empty()),
    {
        let empty = self.transitions.is_empty();
        proof {
            if empty {
                assert(self@.moves =~= Map::<(usize, char), usize>::empty());
            } else {
                assert(exists|p: (usize, usize)| self.transitions@.contains_key(p)) by {
                    if forall|p: (usize, usize)| !self.transitions@.contains_key(p) {
                        assert(self.transitions@ =~= Map::<(usize, usize), usize>::empty());
                    }
                }
                let p = choose|p: (usize, usize)| self.transitions@.contains_key(p);
                let c = p.1 as char;
                assert(code_of(c) == p.1);
                assert(self@.moves.contains_key((p.0, c)));
            }
        }
        empty
    }

    pub fn has_transition(&self, state: usize, ch: char) -> (next: Option<usize>)
        ensures
            next == self@.step(state, ch),
    {
        self.transitions.get(state, char_code(ch))
    }

    /// The transitions out of a state, each once, in no particular order: the
    /// character, the target and whether the target accepts.
    pub fn get_transitions_from(&self, state: usize) -> (out: Vec<(char, usize, bool)>)
        requires
            self.wf(),
        ensures
            out@.no_duplicates(),
            forall|c: char, n: usize, acc: bool| #[trigger]
                out@.contains((c, n, acc)) <==> self@.step(state, c) == Some(n) && acc
                    == self@.accepting.contains(n),
    {
        let keys = self.transitions.keys();
        let mut out: Vec<(char, usize, bool)> = Vec::new();
        for i in 0..keys.len()
            invariant
                self.wf(),
                keys@.no_duplicates(),
                forall|p: (usize, usize)| #[trigger]
                    keys@.contains(p) <==> self.transitions@.contains_key(p),
                out@.no_duplicates(),
                forall|c: char, n: usize, acc: bool| #[trigger]
                    out@.contains((c, n, acc)) <==> (self@.step(state, c) == Some(n) && acc
                        == self@.accepting.contains(n) && keys@.take(i as int).contains(
                        (state, code_of(c)),
                    )),
        {
            let ghost before = out@;
            let p = keys[i];
            assert(keys@.contains(p));
            assert(keys@.take(i + 1) =~= keys@.take(i as int).push(p));
            assert(!keys@.take(i as int).contains(p));
            if p.0 == state {
                if let Some(ch) = char::from_u32(p.1 as u32) {
                    assert(code_of(ch) == p.1);
                    if let Some(n) = self.transitions.get(p.0, p.1) {
                        let acc = self.accepting_states.contains(&n);
                        assert(self@.step(state, ch) == Some(n));
                        let ghost item = (ch, n, acc);
                        assert(!before.contains(item));
                        out.push((ch, n, acc));
                        assert forall|c: char, m: usize, a: bool| #[trigger]
                            out@.contains((c, m, a)) <==> (self@.step(state, c) == Some(m) && a
                                == self@.accepting.contains(m) && keys@.take(i + 1).contains(
                                (state, code_of(c)),
                            )) by {
                            lemma_push_contains(before, item, (c, m, a));
                            lemma_code_of(c, ch);
                            lemma_push_contains(keys@.take(i as int), p, (state, code_of(c)));
                        }
                    }
                }
            } else {
                assert forall|c: char, m: usize, acc: bool| #[trigger]
                    out@.contains((c, m, acc)) <==> (self@.step(state, c) == Some(m) && acc
                        == self@.accepting.contains(m) && keys@.take(i + 1).contains(
                        (state, code_of(c)),
                    )) by {
                    lemma_push_contains(keys@.take(i as int), p, (state, code_of(c)));
                }
            }
        }
        assert(keys@.take(keys@.len() as int) =~= keys@);
        assert forall|c: char, n: usize, acc: bool| #[trigger]
            out@.contains((c, n, acc)) <==> self@.step(state, c) == Some(n) && acc
                == self@.accepting.contains(n) by {
            if self@.step(state, c) == Some(n) {
                assert(self.transitions@.contains_key((state, code_of(c))));
                assert(keys@.contains((state, code_of(c))));
            }
        }
        out
    }

    /// Cuts a text into units by maximal munch. A character that begins no accepted
    /// text is a unit of its own.
    pub fn tokenize(&self, dev_text: &str) -> (aksharas: Vec<Akshara>)
        ensures
            aksharas@.map_values(|a: Akshara| a.surface@) == self@.units(dev_text@),
            forall|i: int|
                0 <= i < aksharas@.len() ==> (#[trigger] aksharas@[i]).root_set@ == Seq::<
                    usize,
                >::empty(),
    {
        let chars = chars_of(dev_text);
        let n = chars.len();
        let ghost d = self@;
        let ghost t = dev_text@;
        let mut aksharas: Vec<Akshara> = Vec::new();
        let ghost view = |a: Akshara| a.surface@;
        let mut i: usize = 0;
        assert(t.skip(0) =~= t);
        assert(aksharas@.map_values(view) + d.units(t) =~= d.units(t));
        while i < n
            invariant
                i <= n,
                n == t.len(),
                chars@ == t,
                d == self@,
                view == (|a: Akshara| a.surface@),
                aksharas@.map_values(view) + d.units(t.skip(i as int)) == d.units(t),
                forall|i: int|
                    0 <= i < aksharas@.len() ==> (#[trigger] aksharas@[i]).root_set@ == Seq::<
                        usize,
                    >::empty(),
            decreases n - i,
        {
            let ghost rest = t.skip(i as int);
            let mut state: usize = self.initial_state;
            let mut best: usize = i;
            let mut j: usize = i;
            let mut stuck = false;
            while j < n && !stuck
                invariant
                    i <= best <= j <= n,
                    i < n,
                    n == t.len(),
                    chars@ == t,
                    d == self@,
                    rest == t.skip(i as int),
                    d.accepted_len(d.initial, rest) == (if !stuck && d.accepted_len(
                        state,
                        t.skip(j as int),
                    ) > 0 {
                        (j - i) + d.accepted_len(state, t.skip(j as int))
                    } else {
                        best - i
                    }),
                decreases n - j + (if stuck {
                    0int
                } else {
                    1int
                }),
            {
                assert(t.skip(j as int)[0] == chars@[j as int]);
                assert(t.skip(j as int).skip(1) =~= t.skip(j + 1));
                match self.has_transition(state, chars[j]) {
                    Some(next) => {
                        state = next;
                        j = j + 1;
                        if self.accepting_states.contains(&state) {
                            best = j;
                        }
                    },
                    None => {
                        stuck = true;
                    },
                }
            }
            assert(t.skip(n as int) =~= Seq::<char>::empty());
            let end = if best > i {
                best
            } else {
                i + 1
            };
            assert(rest.take(end - i) =~= t.subrange(i as int, end as int));
            assert(rest.skip(end - i) =~= t.skip(end as int));
            let ghost before = aksharas@.map_values(view);
            let a = Akshara { surface: string_of(&chars, i, end), root_set: Vec::new() };
            aksharas.push(a);
            assert(aksharas@.map_values(view) =~= before.push(a.surface@));
            assert(before.push(a.surface@) + d.units(t.skip(end as int)) =~= before + (seq![
                a.surface@,
            ] + d.units(t.skip(end as int))));
            i = end;
        }
        assert(t.skip(i as int) =~= Seq::<char>::empty());
        assert(aksharas@.map_values(view) + d.units(t.skip(i as int)) =~= aksharas@.map_values(
            view,
        ));
        aksharas
    }
}

pub proof fn lemma_push_contains<T>(s: Seq<T>, x: T, y: T)
    ensures
        s.push(x).contains(y) <==> s.contains(y) || x == y,
{
    if s.contains(y) {
        let i = choose|i: int| 0 <= i < s.len() && s[i] == y;
        assert(s.push(x)[i] == y);
    }
    assert(s.push(x)[s.len() as int] == x);
    if s.push(x).contains(y) && x != y {
        let i = choose|i: int| 0 <= i < s.push(x).len() && s.push(x)[i] == y;
        assert(s[i] == y);
    }
}

} // verus!
