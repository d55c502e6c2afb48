//! What folding makes of a text, told from the table of rules.

use crate::counting::{lemma_places, places};
use crate::external::nfc;
use crate::normalize::{
    ascii_upper, complaint, complaints, folded, law_longest_pattern_wins, lemma_match_from,
    lemma_one_joiner, lemma_without_joiners_concat, longer_first, match_from, mode_of_tag, occurs,
    rule_texts, stands_at, trim_back, trim_front, without_joiners, FoldMode, Normalizer, RuleText,
};
use crate::sorting::{lemma_sorted, lemma_sorted_stable, sorted, total_order};
use crate::text::is_white_space;
use vstd::prelude::*;

verus! {

/// Whether a rule of the table has something to replace at the front of a text.
pub open spec fn applies(rule: RuleText, t: Seq<char>) -> bool {
    &&& 0 < rule.0.len() <= t.len()
    &&& forall|i: int| 0 <= i < rule.0.len() ==> #[trigger] rule.0[i] == t[i]
}

proof fn lemma_applies(rule: RuleText, t: Seq<char>)
    ensures
        applies(rule, t) <==> rule.0.len() > 0 && rule.0.is_prefix_of(t),
{
    if applies(rule, t) {
        assert(rule.0 =~= t.subrange(0, rule.0.len() as int));
    }
    if rule.0.is_prefix_of(t) {
        assert forall|i: int| 0 <= i < rule.0.len() implies #[trigger] rule.0[i] == t[i] by {
            assert(t.subrange(0, rule.0.len() as int)[i] == t[i]);
        }
    }
}

proof fn lemma_first_picked<T>(s: Seq<T>, pick: spec_fn(T) -> bool, k: int)
    requires
        0 <= k < s.len(),
        pick(s[k]),
        forall|i: int| 0 <= i < k ==> !pick(#[trigger] s[i]),
    ensures
        s.filter(pick).len() > 0,
        s.filter(pick)[0] == s[k],
    decreases s.len(),
{
    reveal(Seq::filter);
    let front = s.drop_last();
    if k < front.len() {
        assert(front[k] == s[k]);
        assert forall|i: int| 0 <= i < k implies !pick(#[trigger] front[i]) by {
            assert(front[i] == s[i]);
        }
        lemma_first_picked(front, pick, k);
    } else {
        lemma_none_picked(front, pick);
    }
}

proof fn lemma_none_picked<T>(s: Seq<T>, pick: spec_fn(T) -> bool)
    requires
        forall|i: int| 0 <= i < s.len() ==> !pick(#[trigger] s[i]),
    ensures
        s.filter(pick).len() == 0,
    decreases s.len(),
{
    reveal(Seq::filter);
    if s.len() > 0 {
        assert(!pick(s[s.len() - 1]));
        assert forall|i: int| 0 <= i < s.drop_last().len() implies !pick(
            #[trigger] s.drop_last()[i],
        ) by {
            assert(s.drop_last()[i] == s[i]);
        }
        lemma_none_picked(s.drop_last(), pick);
    }
}

/// At the front of a text, of all rules of the table that apply there, the one with the
/// longest pattern replaces it, of several the one that the table lists first; and
/// folding goes on behind the pattern.
pub proof fn law_longest_rule_of_the_table_applies(table: Seq<RuleText>, t: Seq<char>, j: int)
    requires
        0 <= j < table.len(),
        applies(table[j], t),
        forall|i: int|
            0 <= i < table.len() && applies(#[trigger] table[i], t) ==> table[i].0.len()
                < table[j].0.len() || (table[i].0.len() == table[j].0.len() && i >= j),
    ensures
        folded(sorted(table, longer_first()), t) == table[j].1 + folded(
            sorted(table, longer_first()),
            t.skip(table[j].0.len() as int),
        ),
{
    let leq = longer_first();
    let s = sorted(table, leq);
    let rule = table[j];
    assert(total_order(leq));
    lemma_sorted(table, leq);
    lemma_applies(rule, t);
    law_longest_pattern_wins(table, t, j);
    lemma_match_from(s, t, 0);
    let m = match_from(s, t, 0)->0;
    lemma_applies(s[m], t);
    vstd::seq_lib::to_multiset_contains(table, s[m]);
    vstd::seq_lib::to_multiset_contains(s, s[m]);
    assert(s.contains(s[m]));
    let i = choose|i: int| 0 <= i < table.len() && table[i] == s[m];
    assert(applies(table[i], t));
    assert(s[m].0.len() == rule.0.len());
    assert(s[m].0 =~= rule.0);
    let pick = |r: RuleText| r.0 == rule.0;
    assert(forall|x: RuleText, y: RuleText| pick(x) && pick(y) ==> #[trigger] leq(x, y));
    lemma_sorted_stable(table, leq, pick);
    assert forall|i: int| 0 <= i < j implies !pick(#[trigger] table[i]) by {
        if pick(table[i]) {
            assert(applies(table[i], t));
        }
    }
    lemma_first_picked(table, pick, j);
    assert forall|i: int| 0 <= i < m implies !pick(#[trigger] s[i]) by {
        if pick(s[i]) {
            assert(s[i].0.len() > 0 && s[i].0.is_prefix_of(t));
        }
    }
    lemma_first_picked(s, pick, m);
    assert(s[m] == rule);
}

/// Where no rule of the table applies, the first character stays, and folding goes on
/// behind it; and there is nothing to fold in the empty text.
pub proof fn law_other_characters_stay(table: Seq<RuleText>, t: Seq<char>)
    requires
        forall|i: int| 0 <= i < table.len() ==> !applies(#[trigger] table[i], t),
    ensures
        t.len() > 0 ==> folded(sorted(table, longer_first()), t) == seq![t[0]] + folded(
            sorted(table, longer_first()),
            t.skip(1),
        ),
        folded(sorted(table, longer_first()), Seq::<char>::empty()) == Seq::<char>::empty(),
{
    let leq = longer_first();
    let s = sorted(table, leq);
    assert(total_order(leq));
    lemma_sorted(table, leq);
    lemma_match_from(s, t, 0);
    if let Some(m) = match_from(s, t, 0) {
        lemma_applies(s[m], t);
        vstd::seq_lib::to_multiset_contains(table, s[m]);
        vstd::seq_lib::to_multiset_contains(s, s[m]);
        assert(s.contains(s[m]));
        let i = choose|i: int| 0 <= i < table.len() && table[i] == s[m];
        assert(!applies(table[i], t));
    }
}

/// What a normaliser does: it composes, folds, drops the zero-width joiners where the
/// mode is `LM` and keeps them where it is `OCR`, and composes again.
pub proof fn law_normalizing(n: &Normalizer, t: Seq<char>, p: Seq<char>, c: char)
    ensures
        n.fold_mode() == FoldMode::OCR ==> n.normalized(t) == nfc(folded(n.rules(), nfc(t))),
        n.fold_mode() == FoldMode::LM ==> n.normalized(t) == nfc(
            without_joiners(true, folded(n.rules(), nfc(t))),
        ),
        without_joiners(true, Seq::<char>::empty()) == Seq::<char>::empty(),
        without_joiners(true, p.push(c)) == if c == '\u{200D}' {
            without_joiners(true, p)
        } else {
            without_joiners(true, p).push(c)
        },
{
    reveal(Seq::filter);
    lemma_without_joiners_concat(true, p, seq![c]);
    lemma_one_joiner(true, c);
    assert(p + seq![c] =~= p.push(c));
    assert(without_joiners(true, p) + seq![c] =~= without_joiners(true, p).push(c));
    assert(without_joiners(true, p) + Seq::<char>::empty() =~= without_joiners(true, p));
    assert(without_joiners(true, Seq::<char>::empty()) =~= Seq::<char>::empty());
}

/// Whether a text holds another, beginning at `k`.
pub open spec fn holds_at(text: Seq<char>, part: Seq<char>, k: int) -> bool {
    &&& 0 <= k
    &&& k + part.len() <= text.len()
    &&& text.subrange(k, k + part.len()) == part
}

proof fn lemma_holds(text: Seq<char>, part: Seq<char>)
    ensures
        occurs(part, text) <==> exists|k: int| #[trigger] holds_at(text, part, k),
{
    if occurs(part, text) {
        let k = choose|k: int| #[trigger] stands_at(part, text, k);
        assert(text.skip(k).subrange(0, part.len() as int) =~= text.subrange(k, k + part.len()));
        assert(holds_at(text, part, k));
    }
    if exists|k: int| #[trigger] holds_at(text, part, k) {
        let k = choose|k: int| #[trigger] holds_at(text, part, k);
        assert(text.skip(k).subrange(0, part.len() as int) =~= text.subrange(k, k + part.len()));
        assert(stands_at(part, text, k));
    }
}

/// Of each rule and each pattern that its replacement holds there is a message, and of
/// nothing else.
pub proof fn law_each_retriggering_rule_is_reported(rules: Seq<RuleText>, msg: Seq<char>)
    ensures
        complaints(rules, rules.len() as int, 0).contains(msg) <==> exists|i: int, j: int|
            #![trigger rules[i], rules[j]]
            0 <= i < rules.len() && 0 <= j < rules.len() && rules[j].0.len() > 0 && (exists|k: int|
                #[trigger] holds_at(rules[i].1, rules[j].0, k)) && msg == rules[i].0 + " -> "@
                + rules[i].1 + " re-triggers "@ + rules[j].0,
{
    lemma_reported(rules, rules.len() as int, 0, msg);
}

spec fn reports(rules: Seq<RuleText>, msg: Seq<char>, i: int, j: int) -> bool {
    &&& rules[j].0.len() > 0
    &&& occurs(rules[j].0, rules[i].1)
    &&& msg == complaint(rules[i], rules[j].0)
}

proof fn lemma_reported(rules: Seq<RuleText>, i: int, j: int, msg: Seq<char>)
    requires
        0 <= i <= rules.len(),
        0 <= j <= rules.len(),
    ensures
        complaints(rules, i, j).contains(msg) <==> exists|p: int, q: int|
            #![trigger rules[p], rules[q]]
            0 <= p <= i && 0 <= q < rules.len() && (p < i || q < j) && rules[q].0.len() > 0 && (
            exists|k: int| #[trigger] holds_at(rules[p].1, rules[q].0, k)) && msg == rules[p].0
                + " -> "@ + rules[p].1 + " re-triggers "@ + rules[q].0,
    decreases i, j,
{
    if j > 0 {
        lemma_reported(rules, i, j - 1, msg);
        lemma_holds(rules[i].1, rules[j - 1].0);
        let before = complaints(rules, i, j - 1);
        crate::akshara::lemma_push_contains(before, complaint(rules[i], rules[j - 1].0), msg);
        if complaints(rules, i, j).contains(msg) && !before.contains(msg) {
            assert(reports(rules, msg, i, j - 1));
            let p = i;
            let q = j - 1;
            assert(0 <= p <= i && 0 <= q < rules.len() && (p < i || q < j) && rules[q].0.len() > 0
                && msg == rules[p].0 + " -> "@ + rules[p].1 + " re-triggers "@ + rules[q].0);
        }
    } else if i > 0 {
        lemma_reported(rules, i - 1, rules.len() as int, msg);
    }
}

/// The capital form of a small ASCII letter stands 32 places before it, and any other
/// character stays.
pub proof fn law_capital_letters(c: char)
    ensures
        'a' <= c <= 'z' ==> ascii_upper(c) as int == c as int - 32,
        !('a' <= c <= 'z') ==> ascii_upper(c) == c,
{
}

/// A tag names a mode in capital or in small letters; any other tag names none.
pub proof fn law_tags(t: Seq<char>)
    requires
        t.len() > 0,
        !is_white_space(t[0]),
        !is_white_space(t.last()),
    ensures
        mode_of_tag(t) == Some(FoldMode::LM) <==> t.len() == 2 && (t[0] == 'L' || t[0] == 'l') && (
        t[1] == 'M' || t[1] == 'm'),
        mode_of_tag(t) == Some(FoldMode::OCR) <==> t.len() == 3 && (t[0] == 'O' || t[0] == 'o') && (
        t[1] == 'C' || t[1] == 'c') && (t[2] == 'R' || t[2] == 'r'),
{
    let name = t.map_values(|x: char| ascii_upper(x));
    assert(trim_back(trim_front(t)) == t);
    if t.len() == 2 {
        assert(name =~= seq![ascii_upper(t[0]), ascii_upper(t[1])]);
        assert(seq!['L', 'M'][0] == 'L' && seq!['L', 'M'][1] == 'M');
        assert(name == seq!['L', 'M'] <==> name[0] == 'L' && name[1] == 'M') by {
            if name[0] == 'L' && name[1] == 'M' {
                assert(name =~= seq!['L', 'M']);
            }
        }
    } else if t.len() == 3 {
        let ocr = seq!['O', 'C', 'R'];
        assert(ocr[0] == 'O' && ocr[1] == 'C' && ocr[2] == 'R');
        assert(name == ocr <==> name[0] == 'O' && name[1] == 'C' && name[2] == 'R') by {
            if name[0] == 'O' && name[1] == 'C' && name[2] == 'R' {
                assert(name =~= ocr);
            }
        }
    }
    assert(seq!['L', 'M'].len() == 2 && seq!['O', 'C', 'R'].len() == 3);
}

/// White space before or behind a tag does not count.
pub proof fn law_white_space_around_tags(t: Seq<char>, c: char)
    requires
        is_white_space(c),
    ensures
        mode_of_tag(seq![c] + t) == mode_of_tag(t),
        mode_of_tag(t.push(c)) == mode_of_tag(t),
{
    assert((seq![c] + t).skip(1) =~= t);
    assert((seq![c] + t)[0] == c);
    lemma_trim_push(t, c);
}

proof fn lemma_trim_push(t: Seq<char>, c: char)
    requires
        is_white_space(c),
    ensures
        trim_back(trim_front(t.push(c))) == trim_back(trim_front(t)),
    decreases t.len(),
{
    if t.len() == 0 {
        assert(t.push(c).skip(1) =~= t);
    } else if is_white_space(t[0]) {
        assert(t.push(c).skip(1) =~= t.skip(1).push(c));
        lemma_trim_push(t.skip(1), c);
    } else {
        assert(t.push(c).drop_last() =~= t);
    }
}

/// There are as many messages as there are patterns in replacements: the messages about a
/// rule come in the order of the patterns, behind those about the rules before it.
pub proof fn law_number_of_reports(
    rules: Seq<RuleText>,
    i: int,
    j: int,
    held: spec_fn(int) -> bool,
)
    requires
        0 <= i < rules.len(),
        0 <= j <= rules.len(),
        forall|q: int|
            0 <= q < rules.len() ==> (#[trigger] held(q) <==> rules[q].0.len() > 0 && exists|k: int|
                #[trigger] holds_at(rules[i].1, rules[q].0, k)),
    ensures
        complaints(rules, 0, 0).len() == 0,
        complaints(rules, i, j).len() == complaints(rules, i, 0).len() + places(
            j as nat,
            held,
        ).len(),
        complaints(rules, i, 0).is_prefix_of(complaints(rules, i, j)),
        complaints(rules, i + 1, 0) == complaints(rules, i, rules.len() as int),
    decreases j,
{
    lemma_places(j as nat, held);
    if j > 0 {
        law_number_of_reports(rules, i, j - 1, held);
        lemma_holds(rules[i].1, rules[j - 1].0);
        assert(held(j - 1) <==> rules[j - 1].0.len() > 0 && occurs(rules[j - 1].0, rules[i].1));
        let front = complaints(rules, i, 0);
        let all = complaints(rules, i, j);
        let before = complaints(rules, i, j - 1);
        assert(all.subrange(0, front.len() as int) =~= before.subrange(0, front.len() as int));
    } else {
        assert(complaints(rules, i, 0).subrange(0, complaints(rules, i, 0).len() as int)
            =~= complaints(rules, i, 0));
    }
}

/// A table as texts: each rule with its pattern and its replacement, in order.
pub proof fn law_tables_as_texts(rules: Seq<(String, String)>, i: int)
    requires
        0 <= i < rules.len(),
    ensures
        rule_texts(rules).len() == rules.len(),
        rule_texts(rules)[i] == (rules[i].0@, rules[i].1@),
{
}

} // verus!
