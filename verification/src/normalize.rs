//! Normalisation: composition, orthographic folding and the treatment of joiners.

use crate::external::{compose, nfc};
use crate::script::ZWJ;
use crate::sorting::{
    lemma_place_unique, lemma_sorted, lemma_sorted_stable, place, sorted, total_order,
};
use crate::text::{chars_of, is_white_space, push_text, string_of};
use vstd::prelude::*;

verus! {

/// Which folding table is in force, and whether the zero-width joiner survives.
#[derive(Debug, Clone, Copy, PartialEq, Eq, Structural)]
pub enum FoldMode {
    /// The full table; the zero-width joiner is dropped.
    LM,
    /// The minimal table; the zero-width joiner is kept.
    OCR,
}

/// The upper-case form of an ASCII letter; any other character as it is.
#[verifier::allow_in_spec]
pub fn ascii_upper(c: char) -> char
    returns
        (if 'a' <= c && c <= 'z' {
            ((c as u8) - 32) as u8 as char
        } else {
            c
        }),
{
    if 'a' <= c && c <= 'z' {
        ((c as u8) - 32) as char
    } else {
        c
    }
}

/// A text without the white space at its front.
pub open spec fn trim_front(t: Seq<char>) -> Seq<char>
    decreases t.len(),
{
    if t.len() > 0 && is_white_space(t[0]) {
        trim_front(t.skip(1))
    } else {
        t
    }
}

/// A text without the white space at its back.
pub open spec fn trim_back(t: Seq<char>) -> Seq<char>
    decreases t.len(),
{
    if t.len() > 0 && is_white_space(t.last()) {
        trim_back(t.drop_last())
    } else {
        t
    }
}

/// The mode that a tag names: `LM` or `OCR` in either case, white space around it
/// left aside.
pub open spec fn mode_of_tag(t: Seq<char>) -> Option<FoldMode> {
    let name = trim_back(trim_front(t)).map_values(|c: char| ascii_upper(c));
    if name == seq!['L', 'M'] {
        Some(FoldMode::LM)
    } else if name == seq!['O', 'C', 'R'] {
        Some(FoldMode::OCR)
    } else {
        None
    }
}

impl FoldMode {
    pub open spec fn tag_text(&self) -> Seq<char> {
        match *self {
            FoldMode::LM => seq!['L', 'M'],
            FoldMode::OCR => seq!['O', 'C', 'R'],
        }
    }

    /// The name under which a vocabulary carries the mode.
    pub fn tag(&self) -> (s: &'static str)
        ensures
            s@ == self.tag_text(),
    {
        proof {
            reveal_strlit("LM");
            reveal_strlit("OCR");
        }
        match *self {
            FoldMode::LM => {
                assert("LM"@ =~= seq!['L', 'M']);
                "LM"
            },
            FoldMode::OCR => {
                assert("OCR"@ =~= seq!['O', 'C', 'R']);
                "OCR"
            },
        }
    }

    /// Reads a mode from its name.
    pub fn from_tag(s: &str) -> (mode: Option<FoldMode>)
        ensures
            mode == mode_of_tag(s@),
    {
        let t = chars_of(s);
        let mut i: usize = 0;
        assert(t@.skip(0) =~= t@);
        while i < t.len() && is_white_space(t[i])
            invariant
                i <= t@.len(),
                trim_front(t@) == trim_front(t@.skip(i as int)),
            decreases t@.len() - i,
        {
            assert(t@.skip(i as int).skip(1) =~= t@.skip(i + 1));
            i = i + 1;
        }
        let ghost front = t@.skip(i as int);
        let mut j: usize = t.len();
        assert(t@.subrange(i as int, j as int) =~= front);
        while j > i && is_white_space(t[j - 1])
            invariant
                i <= j <= t@.len(),
                trim_back(front) == trim_back(t@.subrange(i as int, j as int)),
            decreases j,
        {
            assert(t@.subrange(i as int, j as int).drop_last() =~= t@.subrange(i as int, j - 1));
            j = j - 1;
        }
        let ghost core = t@.subrange(i as int, j as int);
        let ghost name = core.map_values(|c: char| ascii_upper(c));
        assert(core.len() > 0 ==> core.last() == t@[j - 1]);
        assert(trim_back(trim_front(t@)) == core);
        if j - i == 2 {
            if ascii_upper(t[i]) == 'L' && ascii_upper(t[i + 1]) == 'M' {
                assert(name =~= seq!['L', 'M']);
                return Some(FoldMode::LM);
            }
            assert(name[0] != 'L' || name[1] != 'M');
        } else if j - i == 3 {
            if ascii_upper(t[i]) == 'O' && ascii_upper(t[i + 1]) == 'C' && ascii_upper(t[i + 2])
                == 'R' {
                assert(name =~= seq!['O', 'C', 'R']);
                return Some(FoldMode::OCR);
            }
            assert(name[0] != 'O' || name[1] != 'C' || name[2] != 'R');
        }
        assert(name.len() == j - i);
        assert(name != seq!['L', 'M'] && name != seq!['O', 'C', 'R']) by {
            assert(seq!['L', 'M'].len() == 2 && seq!['O', 'C', 'R'].len() == 3);
            if j - i == 2 {
                assert(seq!['L', 'M'][0] == 'L' && seq!['L', 'M'][1] == 'M');
            }
            if j - i == 3 {
                assert(seq!['O', 'C', 'R'][0] == 'O' && seq!['O', 'C', 'R'][1] == 'C' && seq![
                    'O',
                    'C',
                    'R',
                ][2] == 'R');
            }
        }
        None
    }

    #[verifier::allow_in_spec]
    pub fn strips_zwj(&self) -> bool
        returns
            *self == FoldMode::LM,
    {
        match *self {
            FoldMode::LM => true,
            FoldMode::OCR => false,
        }
    }
}

/// Reading a mode's own name gives the mode back.
pub proof fn law_tag_round_trip(mode: FoldMode)
    ensures
        mode_of_tag(mode.tag_text()) == Some(mode),
{
    let t = mode.tag_text();
    assert(trim_back(trim_front(t)) == t);
    let name = t.map_values(|c: char| ascii_upper(c));
    assert(name =~= t);
    if mode == FoldMode::OCR {
        assert(name.len() != seq!['L', 'M'].len());
    }
}

/// A folding rule: the pattern and what replaces it.
pub type RuleText = (Seq<char>, Seq<char>);

/// Longer patterns come first.
pub open spec fn longer_first() -> spec_fn(RuleText, RuleText) -> bool {
    |x: RuleText, y: RuleText| x.0.len() >= y.0.len()
}

/// The rules of a table as texts.
pub open spec fn rule_texts(rules: Seq<(String, String)>) -> Seq<RuleText> {
    rules.map_values(|r: (String, String)| (r.0@, r.1@))
}

/// The first rule from `k` on whose pattern stands at the front of `t`.
pub open spec fn match_from(rules: Seq<RuleText>, t: Seq<char>, k: int) -> Option<int>
    decreases rules.len() - k,
{
    if k < 0 || k >= rules.len() {
        None
    } else if rules[k].0.len() > 0 && rules[k].0.is_prefix_of(t) {
        Some(k)
    } else {
        match_from(rules, t, k + 1)
    }
}

/// The text after one pass of the rules from left to right: at each place the
/// first rule that matches replaces its pattern, and what it wrote is not looked
/// at again.
pub open spec fn folded(rules: Seq<RuleText>, t: Seq<char>) -> Seq<char>
    decreases t.len(),
{
    if t.len() == 0 {
        Seq::empty()
    } else {
        match match_from(rules, t, 0) {
            Some(k) => {
                let n = rules[k].0.len();
                if 0 < n <= t.len() {
                    rules[k].1 + folded(rules, t.skip(n as int))
                } else {
                    Seq::empty()
                }
            },
            None => seq![t[0]] + folded(rules, t.skip(1)),
        }
    }
}

pub open spec fn not_joiner() -> spec_fn(char) -> bool {
    |c: char| c != ZWJ
}

/// A text without its zero-width joiners, where `strip` says so.
pub open spec fn without_joiners(strip: bool, t: Seq<char>) -> Seq<char> {
    if strip {
        t.filter(not_joiner())
    } else {
        t
    }
}

pub proof fn lemma_without_joiners_concat(strip: bool, p: Seq<char>, q: Seq<char>)
    ensures
        without_joiners(strip, p + q) == without_joiners(strip, p) + without_joiners(strip, q),
{
    Seq::filter_distributes_over_add(p, q, not_joiner());
}

proof fn lemma_without_joiners(t: Seq<char>)
    ensures
        !without_joiners(true, t).contains(ZWJ),
        !t.contains(ZWJ) ==> without_joiners(true, t) == t,
    decreases t.len(),
{
    reveal(Seq::filter);
    if t.len() > 0 {
        let front = t.drop_last();
        lemma_without_joiners(front);
        crate::akshara::lemma_push_contains(front.filter(not_joiner()), t.last(), ZWJ);
        crate::akshara::lemma_push_contains(front, t.last(), ZWJ);
        assert(front.push(t.last()) =~= t);
    } else {
        assert(without_joiners(true, t) =~= t);
    }
}

/// Whether `needle` stands in `text`, beginning at `i`.
pub open spec fn stands_at(needle: Seq<char>, text: Seq<char>, i: int) -> bool {
    0 <= i <= text.len() && needle.is_prefix_of(text.skip(i))
}

/// Whether `needle` stands somewhere in `text`.
pub open spec fn occurs(needle: Seq<char>, text: Seq<char>) -> bool {
    exists|i: int| #[trigger] stands_at(needle, text, i)
}

/// No rule has anything to replace in `t`.
pub open spec fn untriggered(rules: Seq<RuleText>, t: Seq<char>) -> bool {
    forall|k: int|
        0 <= k < rules.len() && (#[trigger] rules[k]).0.len() > 0 ==> !occurs(rules[k].0, t)
}

/// No replacement contains a pattern.
pub open spec fn trigger_free(rules: Seq<RuleText>) -> bool {
    forall|i: int, j: int|
        0 <= i < rules.len() && 0 <= j < rules.len() && (#[trigger] rules[j]).0.len() > 0
            ==> !occurs(rules[j].0, (#[trigger] rules[i]).1)
}

pub proof fn lemma_match_from(rules: Seq<RuleText>, t: Seq<char>, k: int)
    requires
        0 <= k <= rules.len(),
    ensures
        match match_from(rules, t, k) {
            Some(m) => {
                &&& k <= m < rules.len()
                &&& rules[m].0.len() > 0
                &&& rules[m].0.is_prefix_of(t)
                &&& forall|j: int|
                    k <= j < m ==> !((#[trigger] rules[j]).0.len() > 0 && rules[j].0.is_prefix_of(
                        t,
                    ))
            },
            None => forall|j: int|
                k <= j < rules.len() ==> !((#[trigger] rules[j]).0.len() > 0
                    && rules[j].0.is_prefix_of(t)),
        },
    decreases rules.len() - k,
{
    if k < rules.len() && !(rules[k].0.len() > 0 && rules[k].0.is_prefix_of(t)) {
        lemma_match_from(rules, t, k + 1);
    }
}

/// A text in which nothing is left to fold stays as it is.
pub proof fn lemma_untriggered(rules: Seq<RuleText>, t: Seq<char>)
    requires
        untriggered(rules, t),
    ensures
        folded(rules, t) == t,
    decreases t.len(),
{
    if t.len() > 0 {
        lemma_match_from(rules, t, 0);
        assert(t.skip(0) =~= t);
        if let Some(m) = match_from(rules, t, 0) {
            assert(stands_at(rules[m].0, t, 0));
        }
        let rest = t.skip(1);
        assert forall|k: int|
            0 <= k < rules.len() && (#[trigger] rules[k]).0.len() > 0 implies !occurs(
            rules[k].0,
            rest,
        ) by {
            if occurs(rules[k].0, rest) {
                let i = choose|i: int| stands_at(rules[k].0, rest, i);
                assert(rest.skip(i) =~= t.skip(i + 1));
                assert(stands_at(rules[k].0, t, i + 1));
            }
        }
        lemma_untriggered(rules, rest);
        assert(seq![t[0]] + rest =~= t);
    } else {
        assert(t =~= Seq::<char>::empty());
    }
}

/// Whether `q`, laid so that it begins `d` places behind the beginning of `r`, agrees
/// with `r` wherever both have a character.
pub open spec fn fits(q: Seq<char>, r: Seq<char>, d: int) -> bool {
    forall|x: int| 0 <= x < q.len() && 0 <= x + d < r.len() ==> #[trigger] q[x] == r[x + d]
}

/// No replacement is empty, and no pattern fits over any part of a replacement.
pub open spec fn seamless(rules: Seq<RuleText>) -> bool {
    &&& forall|i: int| 0 <= i < rules.len() ==> (#[trigger] rules[i]).1.len() > 0
    &&& forall|i: int, j: int, d: int|
        0 <= i < rules.len() && 0 <= j < rules.len() && rules[j].0.len() > 0 && -(
        rules[j].0.len() as int) < d < rules[i].1.len() ==> !#[trigger] fits(
            rules[j].0,
            rules[i].1,
            d,
        )
}

/// The first characters of a folded text are those of the text, or a replacement
/// stands among them.
proof fn lemma_folded_front(rules: Seq<RuleText>, t: Seq<char>, n: int)
    requires
        0 <= n <= folded(rules, t).len(),
    ensures
        (n <= t.len() && folded(rules, t).take(n) == t.take(n)) || exists|k: int, i: int|
            0 <= k < n && 0 <= i < rules.len() && #[trigger] rules[i].1.is_prefix_of(
                #[trigger] folded(rules, t).skip(k),
            ),
    decreases t.len(),
{
    let f = folded(rules, t);
    if n == 0 {
        assert(f.take(0) =~= t.take(0));
    } else {
        lemma_match_from(rules, t, 0);
        match match_from(rules, t, 0) {
            Some(m) => {
                assert(f.skip(0) =~= f);
                assert(rules[m].1.is_prefix_of(f.skip(0)));
            },
            None => {
                let rest = folded(rules, t.skip(1));
                lemma_folded_front(rules, t.skip(1), n - 1);
                if rest.take(n - 1) == t.skip(1).take(n - 1) && n - 1 <= t.skip(1).len() {
                    assert(f.take(n) =~= seq![t[0]] + rest.take(n - 1));
                    assert(t.take(n) =~= seq![t[0]] + t.skip(1).take(n - 1));
                } else {
                    let (k, i) = choose|k: int, i: int|
                        0 <= k < n - 1 && 0 <= i < rules.len()
                            && #[trigger] rules[i].1.is_prefix_of(#[trigger] rest.skip(k));
                    assert(f.skip(k + 1) =~= rest.skip(k));
                    assert(rules[i].1.is_prefix_of(f.skip(k + 1)));
                }
            },
        }
    }
}

/// In what seamless rules have folded, no pattern stands.
proof fn lemma_seamless(rules: Seq<RuleText>, t: Seq<char>, j: int, p: int)
    requires
        seamless(rules),
        0 <= j < rules.len(),
        rules[j].0.len() > 0,
    ensures
        !stands_at(rules[j].0, folded(rules, t), p),
    decreases t.len(),
{
    let q = rules[j].0;
    let f = folded(rules, t);
    if stands_at(q, f, p) {
        assert forall|x: int| 0 <= x < q.len() implies #[trigger] q[x] == f[p + x] by {
            assert(f.skip(p)[x] == f[p + x]);
        }
        assert(q.len() <= f.skip(p).len());
        lemma_match_from(rules, t, 0);
        match match_from(rules, t, 0) {
            Some(m) => {
                let r = rules[m].1;
                let rest = t.skip(rules[m].0.len() as int);
                if p < r.len() {
                    assert(fits(q, r, p));
                } else {
                    assert(f.skip(p) =~= folded(rules, rest).skip(p - r.len()));
                    lemma_seamless(rules, rest, j, p - r.len());
                    assert(stands_at(q, folded(rules, rest), p - r.len()));
                }
            },
            None => {
                let rest = t.skip(1);
                if p > 0 {
                    assert(f.skip(p) =~= folded(rules, rest).skip(p - 1));
                    lemma_seamless(rules, rest, j, p - 1);
                    assert(stands_at(q, folded(rules, rest), p - 1));
                } else {
                    let n = q.len() as int;
                    lemma_folded_front(rules, t, n);
                    if n <= t.len() && f.take(n) == t.take(n) {
                        assert forall|x: int| 0 <= x < n implies #[trigger] q[x] == t[x] by {
                            assert(f.take(n)[x] == f[x]);
                            assert(t.take(n)[x] == t[x]);
                        }
                        assert(q.is_prefix_of(t));
                    } else {
                        let (k, i) = choose|k: int, i: int|
                            0 <= k < n && 0 <= i < rules.len()
                                && #[trigger] rules[i].1.is_prefix_of(#[trigger] f.skip(k));
                        let r = rules[i].1;
                        assert forall|x: int|
                            0 <= x < q.len() && 0 <= x - k < r.len() implies #[trigger] q[x] == r[x
                            - k] by {
                            assert(f.skip(k)[x - k] == f[x]);
                        }
                        assert(fits(q, r, -k));
                    }
                }
            },
        }
    }
}

/// The message about a rule whose replacement contains a pattern.
pub open spec fn complaint(rule: RuleText, other: Seq<char>) -> Seq<char> {
    rule.0 + " -> "@ + rule.1 + " re-triggers "@ + other
}

/// The messages about the rules before `i` and about rule `i` against the
/// patterns before `j`.
pub open spec fn complaints(rules: Seq<RuleText>, i: int, j: int) -> Seq<Seq<char>>
    decreases i, j,
{
    if i < 0 || j < 0 {
        Seq::empty()
    } else if j > 0 {
        let before = complaints(rules, i, j - 1);
        if rules[j - 1].0.len() > 0 && occurs(rules[j - 1].0, rules[i].1) {
            before.push(complaint(rules[i], rules[j - 1].0))
        } else {
            before
        }
    } else if i > 0 {
        complaints(rules, i - 1, rules.len() as int)
    } else {
        Seq::empty()
    }
}

proof fn lemma_no_complaints(rules: Seq<RuleText>, i: int, j: int)
    requires
        0 <= i <= rules.len(),
        0 <= j <= rules.len(),
    ensures
        complaints(rules, i, j).len() == 0 <==> {
            &&& forall|p: int, q: int|
                0 <= p < i && 0 <= q < rules.len() && (#[trigger] rules[q]).0.len() > 0 ==> !occurs(
                    rules[q].0,
                    (#[trigger] rules[p]).1,
                )
            &&& forall|q: int|
                0 <= q < j && (#[trigger] rules[q]).0.len() > 0 ==> !occurs(rules[q].0, rules[i].1)
        },
    decreases i, j,
{
    if j > 0 {
        lemma_no_complaints(rules, i, j - 1);
        if !occurs(rules[j - 1].0, rules[i].1) || rules[j - 1].0.len() == 0 {
        } else {
            assert(complaints(rules, i, j).len() > 0);
        }
    } else if i > 0 {
        lemma_no_complaints(rules, i - 1, rules.len() as int);
        if complaints(rules, i, j).len() == 0 {
            assert forall|p: int, q: int|
                0 <= p < i && 0 <= q < rules.len() && (#[trigger] rules[q]).0.len()
                    > 0 implies !occurs(rules[q].0, (#[trigger] rules[p]).1) by {
                if p == i - 1 {
                    assert(!occurs(rules[q].0, rules[i - 1].1));
                }
            }
        }
    }
}

struct Rule {
    pattern: Vec<char>,
    replacement: String,
}

/// The active rules and the mode they belong to.
pub struct Normalizer {
    mode: FoldMode,
    fold_rules: Vec<Rule>,
}

impl Normalizer {
    /// The rules in force, longest pattern first.
    pub closed spec fn rules(&self) -> Seq<RuleText> {
        self.fold_rules@.map_values(|r: Rule| (r.pattern@, r.replacement@))
    }

    pub closed spec fn fold_mode(&self) -> FoldMode {
        self.mode
    }

    /// What the normaliser makes of a text: composed, folded, without joiners where
    /// the mode drops them, and composed again.
    pub open spec fn normalized(&self, t: Seq<char>) -> Seq<char> {
        nfc(without_joiners(self.fold_mode().strips_zwj(), folded(self.rules(), nfc(t))))
    }

    /// A normaliser with the table that belongs to `mode`: the full one for `LM`,
    /// the minimal one for `OCR`.
    pub fn new_with_mode(
        mode: FoldMode,
        full_rules: Vec<(String, String)>,
        minimal_rules: Vec<(String, String)>,
    ) -> (n: Self)
        ensures
            n.fold_mode() == mode,
            n.rules() == sorted(
                rule_texts(
                    if mode == FoldMode::LM {
                        full_rules@
                    } else {
                        minimal_rules@
                    },
                ),
                longer_first(),
            ),
    {
        let chosen = match mode {
            FoldMode::LM => full_rules,
            FoldMode::OCR => minimal_rules,
        };
        let mut rules: Vec<Rule> = Vec::new();
        let ghost view = |r: Rule| (r.pattern@, r.replacement@);
        let ghost all = rule_texts(chosen@);
        assert(rules@.map_values(view) =~= sorted(all.take(0), longer_first()));
        for i in 0..chosen.len()
            invariant
                all == rule_texts(chosen@),
                view == (|r: Rule| (r.pattern@, r.replacement@)),
                rules@.map_values(view) == sorted(all.take(i as int), longer_first()),
        {
            let pattern = chars_of(chosen[i].0.as_str());
            let replacement = chosen[i].1.clone();
            let ghost front = rules@.map_values(view);
            let ghost x = all[i as int];
            let mut k: usize = rules.len();
            while k > 0 && rules[k - 1].pattern.len() < pattern.len()
                invariant
                    k <= rules@.len(),
                    view == (|r: Rule| (r.pattern@, r.replacement@)),
                    front == rules@.map_values(view),
                    x.0 == pattern@,
                    forall|j: int|
                        k <= j < front.len() ==> !longer_first()(#[trigger] front[j], x),
                decreases k,
            {
                assert(front[k - 1].0.len() == rules@[k - 1].pattern@.len());
                k = k - 1;
            }
            proof {
                if k > 0 {
                    assert(front[k - 1].0.len() == rules@[k - 1].pattern@.len());
                }
                lemma_place_unique(front, x, longer_first(), k as int);
                assert(all.take(i + 1).drop_last() =~= all.take(i as int));
                assert(all.take(i + 1).last() == x);
            }
            let rule = Rule { pattern, replacement };
            rules.insert(k, rule);
            assert(rules@.map_values(view) =~= front.insert(k as int, x));
        }
        assert(all.take(chosen@.len() as int) =~= all);
        Self { mode, fold_rules: rules }
    }

    /// A normaliser in mode `LM`.
    pub fn new(fold_rules: Vec<(String, String)>) -> (n: Self)
        ensures
            n.fold_mode() == FoldMode::LM,
            n.rules() == sorted(rule_texts(fold_rules@), longer_first()),
    {
        Self::new_with_mode(FoldMode::LM, fold_rules, Vec::new())
    }

    pub fn mode(&self) -> (m: FoldMode)
        ensures
            m == self.fold_mode(),
    {
        self.mode
    }

    fn matches_at(&self, k: usize, t: &Vec<char>, i: usize) -> (yes: bool)
        requires
            k < self.rules().len(),
            i <= t@.len(),
        ensures
            yes == (self.rules()[k as int].0.len() > 0 && self.rules()[k as int].0.is_prefix_of(
                t@.skip(i as int),
            )),
    {
        let p = &self.fold_rules[k].pattern;
        let ghost rest = t@.skip(i as int);
        assert(self.rules()[k as int].0 == p@);
        if p.len() == 0 || p.len() > t.len() - i {
            return false;
        }
        let n = t.len();
        for j in 0..p.len()
            invariant
                i + p@.len() <= n == t@.len(),
                rest == t@.skip(i as int),
                k < self.rules().len(),
                p@ == self.rules()[k as int].0,
                forall|m: int| 0 <= m < j ==> p@[m] == rest[m],
        {
            if p[j] != t[i + j] {
                assert(p@[j as int] != rest[j as int]);
                assert(p@.is_prefix_of(rest) ==> rest.take(p@.len() as int)[j as int]
                    == p@[j as int]);
                return false;
            }
        }
        assert(p@ =~= rest.take(p@.len() as int));
        true
    }

    fn find_match(&self, t: &Vec<char>, i: usize) -> (found: Option<usize>)
        requires
            i <= t@.len(),
        ensures
            match found {
                Some(k) => match_from(self.rules(), t@.skip(i as int), 0) == Some(k as int),
                None => match_from(self.rules(), t@.skip(i as int), 0) is None,
            },
    {
        let mut k: usize = 0;
        while k < self.fold_rules.len()
            invariant
                i <= t@.len(),
                k <= self.rules().len() == self.fold_rules@.len(),
                match_from(self.rules(), t@.skip(i as int), 0) == match_from(
                    self.rules(),
                    t@.skip(i as int),
                    k as int,
                ),
            decreases self.fold_rules@.len() - k,
        {
            if self.matches_at(k, t, i) {
                return Some(k);
            }
            k = k + 1;
        }
        None
    }

    /// One pass of the folding rules over a text that is already composed, with the
    /// joiners dropped where the mode says so.
    pub fn fold(&self, composed: &str) -> (out: String)
        ensures
            out@ == without_joiners(
                self.fold_mode().strips_zwj(),
                folded(self.rules(), composed@),
            ),
    {
        let t = chars_of(composed);
        let mut out = String::new();
        let mut i: usize = 0;
        let strip = self.mode.strips_zwj();
        let ghost rules = self.rules();
        let ghost all = without_joiners(strip, folded(rules, composed@));
        assert(t@.skip(0) =~= t@);
        assert(Seq::<char>::empty() + all =~= all);
        while i < t.len()
            invariant
                i <= t@.len(),
                t@ == composed@,
                rules == self.rules(),
                out@ + without_joiners(strip, folded(rules, t@.skip(i as int))) == all,
            decreases t@.len() - i,
        {
            let ghost rest = t@.skip(i as int);
            let ghost before = out@;
            match self.find_match(&t, i) {
                Some(k) => {
                    proof {
                        lemma_match_from(rules, rest, 0);
                        assert(rules[k as int].0 == self.fold_rules@[k as int].pattern@);
                        assert(rules[k as int].1 == self.fold_rules@[k as int].replacement@);
                    }
                    let rule = &self.fold_rules[k];
                    push_folded(&mut out, rule.replacement.as_str(), strip);
                    proof {
                        let end = i + rule.pattern@.len();
                        let tail = folded(rules, t@.skip(end));
                        assert(rest.skip(rule.pattern@.len() as int) =~= t@.skip(end));
                        lemma_without_joiners_concat(strip, rules[k as int].1, tail);
                        assert(out@ + without_joiners(strip, tail) =~= before + (without_joiners(
                            strip,
                            rules[k as int].1,
                        ) + without_joiners(strip, tail)));
                    }
                    i = i + rule.pattern.len();
                },
                None => {
                    let ch = t[i];
                    assert(rest[0] == ch);
                    assert(rest.skip(1) =~= t@.skip(i + 1));
                    proof {
                        let tail = folded(rules, t@.skip(i + 1));
                        lemma_without_joiners_concat(strip, seq![ch], tail);
                        lemma_one_joiner(strip, ch);
                        assert(before.push(ch) + without_joiners(strip, tail) =~= before + (seq![ch]
                            + without_joiners(strip, tail)));
                        assert(before + (Seq::<char>::empty() + without_joiners(strip, tail))
                            =~= before + without_joiners(strip, tail));
                    }
                    if !(ch == ZWJ && strip) {
                        out.push(ch);
                    }
                    i = i + 1;
                },
            }
        }
        proof {
            assert(t@.skip(i as int) =~= Seq::<char>::empty());
            reveal(Seq::filter);
            assert(without_joiners(strip, Seq::<char>::empty()) =~= Seq::<char>::empty());
            assert(out@ + Seq::<char>::empty() =~= out@);
        }
        out
    }

    /// Normalises a text. The result is composed and, where the mode drops joiners,
    /// holds none; and where folding changes nothing in it, which is so where no
    /// pattern stands in it, normalising it once more leaves it as it is.
    pub fn normalize(&self, s: &str) -> (out: String)
        ensures
            out@ == self.normalized(s@),
            nfc(out@) == out@,
            self.fold_mode().strips_zwj() ==> !out@.contains(ZWJ),
            folded(self.rules(), out@) == out@ ==> self.normalized(out@) == out@,
            untriggered(self.rules(), out@) ==> self.normalized(out@) == out@,
    {
        let composed = compose(s);
        let folded_text = self.fold(composed.as_str());
        proof {
            lemma_without_joiners(folded(self.rules(), composed@));
        }
        let out = compose(folded_text.as_str());
        proof {
            if untriggered(self.rules(), out@) {
                lemma_untriggered(self.rules(), out@);
            }
            if folded(self.rules(), out@) == out@ {
                law_settled_text_is_fixed(self, out@);
            }
        }
        out
    }

    /// One message for each rule whose replacement contains a pattern, and for each
    /// such pattern; none exactly where no replacement triggers a rule.
    pub fn validate_rules(&self) -> (bad: Vec<String>)
        ensures
            bad@.map_values(|s: String| s@) == complaints(
                self.rules(),
                self.rules().len() as int,
                0,
            ),
            bad@.len() == 0 <==> trigger_free(self.rules()),
    {
        let mut bad: Vec<String> = Vec::new();
        let ghost rules = self.rules();
        let n = self.fold_rules.len();
        assert(bad@.map_values(|s: String| s@) =~= complaints(rules, 0, 0));
        for i in 0..n
            invariant
                rules == self.rules(),
                n == rules.len(),
                n == self.fold_rules@.len(),
                bad@.map_values(|s: String| s@) == complaints(rules, i as int, 0),
        {
            for j in 0..n
                invariant
                    rules == self.rules(),
                    n == rules.len(),
                    n == self.fold_rules@.len(),
                    0 <= i < n,
                    bad@.map_values(|s: String| s@) == complaints(rules, i as int, j as int),
            {
                let rule = &self.fold_rules[i];
                let other = &self.fold_rules[j].pattern;
                assert(rules[i as int] == (rule.pattern@, rule.replacement@));
                assert(rules[j as int].0 == other@);
                if other.len() > 0 && contains_chars(&chars_of(rule.replacement.as_str()), other) {
                    let mut msg = string_of(&rule.pattern, 0, rule.pattern.len());
                    assert(msg@ =~= rule.pattern@);
                    push_text(&mut msg, " -> ");
                    push_text(&mut msg, rule.replacement.as_str());
                    push_text(&mut msg, " re-triggers ");
                    let tail = string_of(other, 0, other.len());
                    assert(tail@ =~= other@);
                    push_text(&mut msg, tail.as_str());
                    assert(msg@ == complaint(rules[i as int], rules[j as int].0));
                    let ghost before = bad@.map_values(|s: String| s@);
                    bad.push(msg);
                    assert(bad@.map_values(|s: String| s@) =~= before.push(msg@));
                }
            }
        }
        proof {
            lemma_no_complaints(rules, n as int, 0);
            assert(bad@.map_values(|s: String| s@).len() == bad@.len());
        }
        bad
    }
}

/// A composed text in which folding changes nothing, and which holds no joiner that the
/// mode drops, is a fixed point of the normaliser.
pub proof fn law_settled_text_is_fixed(n: &Normalizer, t: Seq<char>)
    requires
        nfc(t) == t,
        folded(n.rules(), t) == t,
        n.fold_mode().strips_zwj() ==> !t.contains(ZWJ),
    ensures
        n.normalized(t) == t,
{
    lemma_without_joiners(t);
}

/// Folding twice is folding once, for every text, where no rule deletes its pattern
/// and no pattern fits over any part of a replacement: what was folded triggers no
/// rule.
pub proof fn law_seamless_rules_fold_once(rules: Seq<RuleText>, t: Seq<char>)
    requires
        seamless(rules),
    ensures
        untriggered(rules, folded(rules, t)),
        folded(rules, folded(rules, t)) == folded(rules, t),
{
    let f = folded(rules, t);
    assert forall|j: int|
        0 <= j < rules.len() && (#[trigger] rules[j]).0.len() > 0 implies !occurs(
        rules[j].0,
        f,
    ) by {
        if occurs(rules[j].0, f) {
            let p = choose|p: int| stands_at(rules[j].0, f, p);
            lemma_seamless(rules, t, j, p);
        }
    }
    lemma_untriggered(rules, f);
}

/// With such rules normalising is idempotent on every text whose folded form is
/// composed and holds no joiner that the mode drops.
pub proof fn law_seamless_rules_normalize_once(n: &Normalizer, s: Seq<char>)
    requires
        seamless(n.rules()),
        nfc(folded(n.rules(), nfc(s))) == folded(n.rules(), nfc(s)),
        n.fold_mode().strips_zwj() ==> !folded(n.rules(), nfc(s)).contains(ZWJ),
    ensures
        n.normalized(n.normalized(s)) == n.normalized(s),
{
    let f = folded(n.rules(), nfc(s));
    law_seamless_rules_fold_once(n.rules(), nfc(s));
    lemma_without_joiners(f);
    law_settled_text_is_fixed(n, f);
}

pub proof fn lemma_one_joiner(strip: bool, c: char)
    ensures
        without_joiners(strip, seq![c]) == (if strip && c == ZWJ {
            Seq::<char>::empty()
        } else {
            seq![c]
        }),
{
    reveal(Seq::filter);
    reveal_with_fuel(Seq::filter, 2);
    assert(seq![c].drop_last() =~= Seq::<char>::empty());
    assert(without_joiners(true, seq![c]) =~= (if c == ZWJ {
        Seq::<char>::empty()
    } else {
        seq![c]
    }));
}

/// Appends what a rule wrote, without its joiners where `strip` says so.
fn push_folded(out: &mut String, text: &str, strip: bool)
    ensures
        final(out)@ == old(out)@ + without_joiners(strip, text@),
{
    let chars = chars_of(text);
    proof {
        reveal(Seq::filter);
    }
    assert(old(out)@ + without_joiners(strip, text@.take(0)) =~= old(out)@);
    for i in 0..chars.len()
        invariant
            chars@ == text@,
            out@ == old(out)@ + without_joiners(strip, text@.take(i as int)),
    {
        let c = chars[i];
        let ghost before = out@;
        proof {
            reveal(Seq::filter);
            assert(text@.take(i + 1) =~= text@.take(i as int).push(c));
            assert(text@.take(i + 1).drop_last() =~= text@.take(i as int));
        }
        if !(c == ZWJ && strip) {
            out.push(c);
        }
        assert(out@ =~= old(out)@ + without_joiners(strip, text@.take(i + 1)));
    }
    assert(text@.take(chars@.len() as int) =~= text@);
}

/// At each place the longest pattern that matches wins: the rules of a normaliser
/// that was made from a table are tried longest first.
pub proof fn law_longest_pattern_wins(table: Seq<RuleText>, t: Seq<char>, j: int)
    requires
        0 <= j < table.len(),
        table[j].0.len() > 0,
        table[j].0.is_prefix_of(t),
    ensures
        match_from(sorted(table, longer_first()), t, 0) is Some,
        sorted(table, longer_first())[match_from(
            sorted(table, longer_first()),
            t,
            0,
        )->0].0.len() >= table[j].0.len(),
{
    let leq = longer_first();
    let s = sorted(table, leq);
    assert(total_order(leq));
    lemma_sorted(table, leq);
    vstd::seq_lib::to_multiset_contains(table, table[j]);
    vstd::seq_lib::to_multiset_contains(s, table[j]);
    assert(table.contains(table[j]));
    assert(s.contains(table[j]));
    let i = choose|i: int| 0 <= i < s.len() && s[i] == table[j];
    lemma_match_from(s, t, 0);
    match match_from(s, t, 0) {
        Some(m) => {
            if m > i {
                assert(false);
            }
            assert(leq(s[m], s[i]));
        },
        None => {
            assert(false);
        },
    }
}

/// Rules whose patterns have the same length stay in the order of the table.
pub proof fn law_rules_of_one_length_keep_their_order(table: Seq<RuleText>, n: nat)
    ensures
        sorted(table, longer_first()).filter(|r: RuleText| r.0.len() == n) == table.filter(
            |r: RuleText| r.0.len() == n,
        ),
{
    let pick = |r: RuleText| r.0.len() == n;
    assert(total_order(longer_first()));
    lemma_sorted_stable(table, longer_first(), pick);
}

fn contains_chars(text: &Vec<char>, needle: &Vec<char>) -> (yes: bool)
    ensures
        yes == occurs(needle@, text@),
{
    if needle.len() > text.len() {
        assert forall|i: int| !stands_at(needle@, text@, i) by {}
        return false;
    }
    let last = text.len() - needle.len();
    let mut i: usize = 0;
    while i <= last
        invariant
            last == text@.len() - needle@.len(),
            i <= last + 1,
            forall|m: int| m < i ==> !stands_at(needle@, text@, m),
        decreases last + 1 - i,
    {
        let mut j: usize = 0;
        let ghost rest = text@.skip(i as int);
        let n = text.len();
        while j < needle.len() && needle[j] == text[i + j]
            invariant
                i <= last,
                n == text@.len(),
                last == text@.len() - needle@.len(),
                rest == text@.skip(i as int),
                j <= needle@.len(),
                forall|m: int| 0 <= m < j ==> needle@[m] == rest[m],
            decreases needle@.len() - j,
        {
            j = j + 1;
        }
        if j == needle.len() {
            assert(needle@ =~= rest.take(needle@.len() as int));
            assert(stands_at(needle@, text@, i as int));
            return true;
        }
        assert(!stands_at(needle@, text@, i as int)) by {
            if needle@.is_prefix_of(rest) {
                assert(rest.take(needle@.len() as int)[j as int] == needle@[j as int]);
            }
        }
        if i == last {
            assert forall|m: int| !stands_at(needle@, text@, m) by {
                if m > last && stands_at(needle@, text@, m) {
                    assert(text@.skip(m).len() < needle@.len());
                }
            }
            return false;
        }
        i = i + 1;
    }
    false
}

} // verus!
