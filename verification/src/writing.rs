//! Where the Devanagari automaton parts a text, told from the letters alone.

use crate::akshara::{
    cuts, default_dfa, default_step, lemma_accepted_len, lemma_cuts_nonneg, DfaModel,
};
use vstd::prelude::*;

verus! {

/// The consonant letters.
pub open spec fn consonant(c: char) -> bool {
    '\u{0915}' <= c <= '\u{0939}' || '\u{0958}' <= c <= '\u{095F}' || '\u{0978}' <= c <= '\u{097F}'
}

/// The letters of vowels that stand on their own.
pub open spec fn vowel_letter(c: char) -> bool {
    '\u{0904}' <= c <= '\u{0914}' || '\u{0972}' <= c <= '\u{0977}'
}

/// The digits, and the signs that stand on their own.
pub open spec fn lone_sign(c: char) -> bool {
    '\u{0966}' <= c <= '\u{096F}' || c == '\u{093D}' || c == '\u{0950}' || c == '\u{0970}' || c
        == '\u{0971}'
}

/// The signs of vowels that follow a consonant.
pub open spec fn vowel_sign(c: char) -> bool {
    c == '\u{093A}' || c == '\u{093B}' || '\u{093E}' <= c <= '\u{094C}' || c == '\u{094E}' || c
        == '\u{094F}' || '\u{0955}' <= c <= '\u{0957}' || c == '\u{0962}' || c == '\u{0963}'
}

/// The nasal marks and the visarga.
pub open spec fn nasal_mark(c: char) -> bool {
    '\u{0900}' <= c <= '\u{0903}'
}

/// Whether a consonant, with or without nuktas, stands just before `k`.
pub open spec fn after_consonant(t: Seq<char>, k: int) -> bool
    decreases k,
{
    0 < k <= t.len() && (consonant(t[k - 1]) || (t[k - 1] == '\u{093C}' && after_consonant(
        t,
        k - 1,
    )))
}

/// Whether a vowel stands just before `k`: its letter, or signs that belong to a
/// consonant or to a vowel before them.
pub open spec fn after_vowel(t: Seq<char>, k: int) -> bool
    decreases k,
{
    0 < k <= t.len() && (vowel_letter(t[k - 1]) || (vowel_sign(t[k - 1]) && (after_consonant(
        t,
        k - 1,
    ) || after_vowel(t, k - 1))))
}

/// Whether a consonant and a virama stand just before `k`.
pub open spec fn after_half_consonant(t: Seq<char>, k: int) -> bool {
    0 < k <= t.len() && t[k - 1] == '\u{094D}' && after_consonant(t, k - 1)
}

/// Whether the character at `k` belongs to what stands before it: a consonant to a half
/// consonant, a nukta or a virama to a consonant, and a vowel sign or a nasal mark to a
/// consonant or a vowel.
pub open spec fn goes_on(t: Seq<char>, k: int) -> bool {
    &&& 0 < k < t.len()
    &&& {
        ||| consonant(t[k]) && after_half_consonant(t, k)
        ||| (t[k] == '\u{093C}' || t[k] == '\u{094D}') && after_consonant(t, k)
        ||| (vowel_sign(t[k]) || nasal_mark(t[k])) && (after_consonant(t, k) || after_vowel(t, k))
    }
}

/// The state of the automaton after the first `k` characters, where all of them are one
/// unit.
spec fn state_at(t: Seq<char>, k: int) -> usize {
    if k == 0 {
        0
    } else if after_consonant(t, k) {
        1
    } else if after_half_consonant(t, k) {
        2
    } else if after_vowel(t, k) {
        3
    } else if nasal_mark(t[k - 1]) {
        4
    } else {
        6
    }
}

/// Inside the first unit each character goes on, and behind it none does.
proof fn lemma_first_unit(t: Seq<char>, k: int)
    requires
        0 <= k <= t.len(),
        forall|i: int| 0 < i < k ==> #[trigger] goes_on(t, i),
        k > 0 ==> default_step(0, t[0]) is Some,
    ensures
        ({
            let n = k + default_dfa().accepted_len(state_at(t, k), t.skip(k));
            &&& n <= t.len()
            &&& forall|i: int| k < i < n ==> #[trigger] goes_on(t, i)
            &&& k > 0 && n > k ==> goes_on(t, k)
            &&& n > 0 ==> !goes_on(t, n)
            &&& k == 0 && t.len() > 0 ==> (n > 0 <==> default_step(0, t[0]) is Some)
        }),
    decreases t.len() - k,
{
    let d = default_dfa();
    let rest = t.skip(k);
    let q = state_at(t, k);
    lemma_accepted_len(d, q, rest);
    if rest.len() > 0 {
        assert(rest[0] == t[k]);
        reveal_with_fuel(after_consonant, 2);
        reveal_with_fuel(after_vowel, 2);
        assert(k > 1 ==> goes_on(t, k - 1));
        assert(k > 0 ==> (d.step(q, t[k]) is Some <==> goes_on(t, k)));
        if let Some(next) = d.step(q, t[k]) {
            assert(next == state_at(t, k + 1));
            assert(rest.skip(1) =~= t.skip(k + 1));
            lemma_first_unit(t, k + 1);
            assert(d.accepting.contains(next));
        }
    }
}

/// Where nothing goes on at `n`, what is behind it is as if it stood alone.
proof fn lemma_fresh_start(t: Seq<char>, n: int, k: int)
    requires
        0 < n < t.len(),
        !goes_on(t, n),
        n <= k <= t.len(),
    ensures
        k > n ==> after_consonant(t, k) == after_consonant(t.skip(n), k - n),
        k > n ==> after_vowel(t, k) == after_vowel(t.skip(n), k - n),
        k > n ==> after_half_consonant(t, k) == after_half_consonant(t.skip(n), k - n),
        k > n ==> goes_on(t, k) == goes_on(t.skip(n), k - n),
    decreases k,
{
    let u = t.skip(n);
    if k > n {
        lemma_fresh_start(t, n, k - 1);
        assert(t[k - 1] == u[k - n - 1]);
        if k < t.len() {
            assert(t[k] == u[k - n]);
        }
        reveal_with_fuel(after_consonant, 2);
        reveal_with_fuel(after_vowel, 2);
    }
}

/// The Devanagari automaton parts a text exactly where a character does not belong to
/// what stands before it.
pub proof fn law_units_begin_where_nothing_goes_on(t: Seq<char>, k: int)
    requires
        0 < k < t.len(),
    ensures
        cuts(default_dfa().units(t), k) <==> !goes_on(t, k),
    decreases t.len(),
{
    let d = default_dfa();
    lemma_first_unit(t, 0);
    assert(t.skip(0) =~= t);
    let n = d.unit_len(t) as int;
    let rest = t.skip(n);
    lemma_accepted_len(d, 0, t);
    assert(d.units(t).drop_first() =~= d.units(rest));
    assert(d.units(t)[0].len() == n);
    if d.accepted_len(0, t) == 0 {
        assert(default_step(0, t[0]) is None);
        reveal_with_fuel(after_consonant, 2);
        reveal_with_fuel(after_vowel, 2);
        assert(!goes_on(t, 1));
    }
    if k < n {
        if cuts(d.units(t), k) {
            lemma_cuts_nonneg(d.units(rest), k - n);
        }
        assert(goes_on(t, k));
    } else if k == n {
        assert(cuts(d.units(rest), 0));
    } else {
        lemma_fresh_start(t, n, k);
        law_units_begin_where_nothing_goes_on(rest, k - n);
    }
}

/// A unit begins before every vowel letter, digit and sign that stands on its own, and
/// before every consonant that does not follow a half consonant.
pub proof fn law_letters_begin_units(t: Seq<char>, k: int)
    requires
        0 < k < t.len(),
        vowel_letter(t[k]) || lone_sign(t[k]) || (consonant(t[k]) && !(t[k - 1] == '\u{094D}'
            && after_consonant(t, k - 1))),
    ensures
        cuts(default_dfa().units(t), k),
{
    law_units_begin_where_nothing_goes_on(t, k);
}

/// What is neither a letter nor a sign of Devanagari is a unit of its own.
pub proof fn law_other_characters_stand_alone(t: Seq<char>, k: int)
    requires
        0 <= k < t.len(),
        !consonant(t[k]),
        !vowel_letter(t[k]),
        !lone_sign(t[k]),
        !vowel_sign(t[k]),
        !nasal_mark(t[k]),
        t[k] != '\u{093C}',
        t[k] != '\u{094D}',
    ensures
        cuts(default_dfa().units(t), k),
        k + 1 < t.len() ==> cuts(default_dfa().units(t), k + 1),
{
    if k > 0 {
        law_units_begin_where_nothing_goes_on(t, k);
    }
    if k + 1 < t.len() {
        law_units_begin_where_nothing_goes_on(t, k + 1);
        reveal_with_fuel(after_consonant, 2);
        reveal_with_fuel(after_vowel, 2);
    }
}

/// Whether `states` is a run of an automaton over the front of a text.
pub open spec fn is_run(d: DfaModel, states: Seq<usize>, t: Seq<char>) -> bool {
    &&& 0 < states.len() <= t.len() + 1
    &&& states[0] == d.initial
    &&& forall|i: int|
        0 <= i < states.len() - 1 ==> d.moves.contains_key((#[trigger] states[i], t[i]))
            && d.moves[(states[i], t[i])] == states[i + 1]
}

/// The first unit that any automaton cuts off is not shorter than any front of the text
/// that it accepts, and the rest of the text is cut in the same way.
pub proof fn law_no_longer_front_is_accepted(d: DfaModel, states: Seq<usize>, t: Seq<char>)
    requires
        t.len() > 0,
        is_run(d, states, t),
        d.accepting.contains(states.last()),
    ensures
        d.unit_len(t) >= states.len() - 1,
        d.units(t).len() > 0,
        d.units(t)[0].len() == d.unit_len(t),
        d.units(t)[0].is_prefix_of(t),
        d.units(t).skip(1) == d.units(t.skip(d.unit_len(t) as int)),
{
    lemma_accepted_len(d, d.initial, t);
    assert(d.units(t).skip(1) =~= d.units(t.skip(d.unit_len(t) as int)));
    lemma_run_accepted(d, states, t, states.len() - 1);
    assert(t.skip(0) =~= t);
    assert(states.skip(0) =~= states);
}

proof fn lemma_run_accepted(d: DfaModel, states: Seq<usize>, t: Seq<char>, left: int)
    requires
        is_run(d, states, t),
        d.accepting.contains(states.last()),
        0 <= left < states.len(),
    ensures
        ({
            let at = states.len() - 1 - left;
            d.accepted_len(states[at], t.skip(at)) >= left
        }),
    decreases left,
{
    if left > 0 {
        let at = states.len() - 1 - left;
        lemma_run_accepted(d, states, t, left - 1);
        assert(t.skip(at)[0] == t[at]);
        assert(t.skip(at).skip(1) =~= t.skip(at + 1));
        assert(d.moves.contains_key((states[at], t[at])));
    }
}

/// The first unit is accepted as a whole, unless it is a single character.
pub proof fn law_first_unit_is_accepted(d: DfaModel, t: Seq<char>)
    requires
        t.len() > 0,
    ensures
        d.unit_len(t) == 1 || exists|states: Seq<usize>| #[trigger]
            is_run(d, states, t) && states.len() == d.unit_len(t) + 1 && d.accepting.contains(
                states.last(),
            ),
{
    let n = d.accepted_len(d.initial, t);
    if n > 0 {
        let states = lemma_accepted_run(d, d.initial, t);
        assert(is_run(d, states, t));
    }
}

proof fn lemma_accepted_run(d: DfaModel, state: usize, t: Seq<char>) -> (states: Seq<usize>)
    requires
        d.accepted_len(state, t) > 0,
    ensures
        states.len() == d.accepted_len(state, t) + 1,
        states.len() <= t.len() + 1,
        states[0] == state,
        forall|i: int|
            0 <= i < states.len() - 1 ==> d.moves.contains_key((#[trigger] states[i], t[i]))
                && d.moves[(states[i], t[i])] == states[i + 1],
        d.accepting.contains(states.last()),
    decreases t.len(),
{
    let next = d.moves[(state, t[0])];
    if d.accepted_len(next, t.skip(1)) > 0 {
        let more = lemma_accepted_run(d, next, t.skip(1));
        let states = seq![state] + more;
        assert forall|i: int| 0 <= i < states.len() - 1 implies d.moves.contains_key(
            (#[trigger] states[i], t[i]),
        ) && d.moves[(states[i], t[i])] == states[i + 1] by {
            if i > 0 {
                assert(states[i] == more[i - 1]);
                assert(t[i] == t.skip(1)[i - 1]);
            }
        }
        states
    } else {
        seq![state, next]
    }
}

/// Where no front of a text is accepted, its first character is a unit of its own, and
/// the rest is cut in the same way; the empty text has no units.
pub proof fn law_unaccepted_character_stands_alone(d: DfaModel, t: Seq<char>)
    requires
        forall|states: Seq<usize>| #[trigger]
            is_run(d, states, t) && states.len() > 1 ==> !d.accepting.contains(states.last()),
    ensures
        t.len() > 0 ==> d.units(t) == seq![seq![t[0]]] + d.units(t.skip(1)),
        d.units(Seq::<char>::empty()) == Seq::<Seq<char>>::empty(),
{
    if t.len() > 0 {
        if d.accepted_len(d.initial, t) > 0 {
            let states = lemma_accepted_run(d, d.initial, t);
            assert(is_run(d, states, t));
        }
        assert(t.take(1) =~= seq![t[0]]);
    }
}

/// A step of an automaton goes where its moves lead, and there is none where they do not.
pub proof fn law_steps_follow_the_moves(d: DfaModel, q: usize, c: char, n: usize)
    ensures
        d.step(q, c) == Some(n) <==> d.moves.contains_key((q, c)) && d.moves[(q, c)] == n,
        d.step(q, c) is None <==> !d.moves.contains_key((q, c)),
{
}

/// The states of the Devanagari automaton: it begins in 0; a consonant leads to 1, a
/// virama to 2, a vowel to 3, a nasal mark to 4, and a sign that stands alone to 6; all
/// but the first are accepting.
pub proof fn law_states_of_the_devanagari_automaton(q: usize, c: char)
    ensures
        default_dfa().initial == 0,
        default_dfa().accepting.contains(q) <==> q == 1 || q == 2 || q == 3 || q == 4 || q == 6,
        ({
            let next = if default_dfa().moves.contains_key((q, c)) {
                Some(default_dfa().moves[(q, c)])
            } else {
                None
            };
            &&& next == Some(1usize) <==> (consonant(c) && (q == 0 || q == 2)) || (c == '\u{093C}'
                && q == 1)
            &&& next == Some(2usize) <==> c == '\u{094D}' && q == 1
            &&& next == Some(3usize) <==> (vowel_letter(c) && q == 0) || (vowel_sign(c) && (q == 1
                || q == 3))
            &&& next == Some(4usize) <==> nasal_mark(c) && (q == 1 || q == 3)
            &&& next == Some(6usize) <==> lone_sign(c) && q == 0
            &&& next is Some ==> next->0 == 1 || next->0 == 2 || next->0 == 3 || next->0 == 4
                || next->0 == 6
        }),
{
}

} // verus!
