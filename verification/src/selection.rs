//! Which pairs training merges, in what order, and what a merge does to the words.

use crate::corpus::{freq, merged_word, pair_count, touched_in, touched_pairs, WordModel};
use crate::counting::{lemma_places, lemma_places_same, places};
use crate::merge_queue::precedes;
use crate::paradigm::{licensed, ParadigmModel};
use crate::script::Script;
use crate::trainer::{prior_mass, TrainingRules};
use crate::training::Training;
use crate::vocab::VocabModel;
use vstd::prelude::*;

verus! {

/// Of several paradigms of one root the last one decides: it allows what it lists
/// behind the prefix, and nothing else is allowed.
pub proof fn law_last_paradigm_decides(
    ps: Seq<ParadigmModel>,
    root: usize,
    prefix: Seq<char>,
    next: Seq<char>,
)
    ensures
        licensed(ps, root, prefix, next) <==> exists|i: int|
            0 <= i < ps.len() && (#[trigger] ps[i]).root == root && (forall|j: int|
                i < j < ps.len() ==> (#[trigger] ps[j]).root != root)
                && ps[i].allowed.contains_key(prefix) && ps[i].allowed[prefix].contains(next),
    decreases ps.len(),
{
    if ps.len() > 0 {
        let front = ps.drop_last();
        let n = front.len() as int;
        law_last_paradigm_decides(front, root, prefix, next);
        if ps.last().root == root {
            assert(ps[n].root == root);
            if licensed(ps, root, prefix, next) {
                assert(ps[n].allowed.contains_key(prefix));
            }
        } else {
            if licensed(front, root, prefix, next) {
                let i = choose|i: int|
                    0 <= i < front.len() && (#[trigger] front[i]).root == root && (forall|j: int|
                        i < j < front.len() ==> (#[trigger] front[j]).root != root)
                        && front[i].allowed.contains_key(prefix)
                        && front[i].allowed[prefix].contains(next);
                assert(ps[i].root == root);
                assert forall|j: int| i < j < ps.len() implies (#[trigger] ps[j]).root != root by {
                    if j < n {
                        assert(front[j].root != root);
                    }
                }
            }
            if exists|i: int|
                0 <= i < ps.len() && (#[trigger] ps[i]).root == root && (forall|j: int|
                    i < j < ps.len() ==> (#[trigger] ps[j]).root != root)
                    && ps[i].allowed.contains_key(prefix) && ps[i].allowed[prefix].contains(next) {
                let i = choose|i: int|
                    0 <= i < ps.len() && (#[trigger] ps[i]).root == root && (forall|j: int|
                        i < j < ps.len() ==> (#[trigger] ps[j]).root != root)
                        && ps[i].allowed.contains_key(prefix) && ps[i].allowed[prefix].contains(
                        next,
                    );
                assert(front[i].root == root);
                assert forall|j: int| i < j < front.len() implies (#[trigger] front[j]).root
                    != root by {
                    assert(ps[j].root != root);
                }
            }
        }
    }
}

/// Admission is complete and sound. Outside the Latin pass two tokens may be merged
/// exactly if both are Devanagari or both punctuation, the second is no seed, the first
/// is no strict seed and, if it is an ambiguous one, the pair is frequent enough, and
/// the first has no roots or one that allows the second. In the Latin pass they may be
/// merged exactly if both are Latin.
pub proof fn law_admission_is_complete(
    rules: TrainingRules,
    v: VocabModel,
    a: usize,
    b: usize,
    f: nat,
)
    requires
        v.valid(),
        a < v.scripts.len(),
        b < v.scripts.len(),
    ensures
        rules.latin_pass ==> (rules.legal(v, a, b, f) <==> v.scripts[a as int] == Script::LAT
            && v.scripts[b as int] == Script::LAT),
        !rules.latin_pass ==> (rules.legal(v, a, b, f) <==> {
            &&& (v.scripts[a as int] == Script::DEV && v.scripts[b as int] == Script::DEV) || (
            v.scripts[a as int] == Script::PUN && v.scripts[b as int] == Script::PUN)
            &&& !v.strict.contains(b) && !v.ambiguous.contains(b)
            &&& !v.strict.contains(a)
            &&& v.ambiguous.contains(a) ==> f >= rules.theta
            &&& v.roots[a as int].len() == 0 || exists|r: usize, i: int|
                v.roots[a as int].contains(r) && 0 <= i < rules.paradigms.len()
                    && #[trigger] paradigm_decides(rules.paradigms, i, r)
                    && rules.paradigms[i].allowed.contains_key(v.surfaces[a as int])
                    && rules.paradigms[i].allowed[v.surfaces[a as int]].contains(
                    v.surfaces[b as int],
                )
        }),
{
    let x = v.surfaces[a as int];
    let y = v.surfaces[b as int];
    let ps = rules.paradigms;
    assert(v.surface_of(a) == x && v.surface_of(b) == y && v.roots_of(a) == v.roots[a as int]);
    assert forall|r: usize| licensed(ps, r, x, y) <==> exists|i: int|
        0 <= i < ps.len() && #[trigger] paradigm_decides(ps, i, r)
            && ps[i].allowed.contains_key(x) && ps[i].allowed[x].contains(y) by {
        law_last_paradigm_decides(ps, r, x, y);
        if licensed(ps, r, x, y) {
            let i = choose|i: int|
                0 <= i < ps.len() && (#[trigger] ps[i]).root == r && (forall|j: int|
                    i < j < ps.len() ==> (#[trigger] ps[j]).root != r)
                    && ps[i].allowed.contains_key(x) && ps[i].allowed[x].contains(y);
            assert(paradigm_decides(ps, i, r));
        }
        if exists|i: int|
            0 <= i < ps.len() && #[trigger] paradigm_decides(ps, i, r)
                && ps[i].allowed.contains_key(x) && ps[i].allowed[x].contains(y) {
            let i = choose|i: int|
                0 <= i < ps.len() && #[trigger] paradigm_decides(ps, i, r)
                    && ps[i].allowed.contains_key(x) && ps[i].allowed[x].contains(y);
            assert(ps[i].root == r);
        }
    }
    if !rules.latin_pass && rules.legal(v, a, b, f) && v.roots[a as int].len() > 0 {
        let r = choose|r: usize|
            v.roots_of(a).contains(r) && #[trigger] licensed(
                ps,
                r,
                v.surface_of(a),
                v.surface_of(b),
            );
        assert(licensed(ps, r, x, y));
        let i = choose|i: int|
            0 <= i < ps.len() && #[trigger] paradigm_decides(ps, i, r)
                && ps[i].allowed.contains_key(x) && ps[i].allowed[x].contains(y);
        assert(v.roots[a as int].contains(r) && paradigm_decides(ps, i, r));
    }
    if exists|r: usize, i: int|
        v.roots[a as int].contains(r) && 0 <= i < ps.len() && #[trigger] paradigm_decides(
            ps,
            i,
            r,
        ) && ps[i].allowed.contains_key(x) && ps[i].allowed[x].contains(y) {
        let (r, i) = choose|r: usize, i: int|
            v.roots[a as int].contains(r) && 0 <= i < ps.len() && #[trigger] paradigm_decides(
                ps,
                i,
                r,
            ) && ps[i].allowed.contains_key(x) && ps[i].allowed[x].contains(y);
        assert(licensed(ps, r, x, y));
        assert(v.roots_of(a).contains(r));
        assert(licensed(ps, r, v.surface_of(a), v.surface_of(b)));
        assert(rules.morph(v, a, b));
    }
}

/// The paradigm at `i` is the last one of its root.
pub open spec fn paradigm_decides(ps: Seq<ParadigmModel>, i: int, root: usize) -> bool {
    &&& ps[i].root == root
    &&& forall|j: int| i < j < ps.len() ==> (#[trigger] ps[j]).root != root
}

/// How often a pair stands in a word is the number of places where its first token
/// stands before its second.
pub proof fn law_pair_count_is_the_number_of_places(s: Seq<usize>, a: usize, b: usize)
    ensures
        pair_count(s, a, b) == places(
            s.len(),
            |i: int| i + 1 < s.len() && s[i] == a && s[i + 1] == b,
        ).len(),
    decreases s.len(),
{
    let holds = |i: int| i + 1 < s.len() && s[i] == a && s[i + 1] == b;
    lemma_places(s.len(), holds);
    if s.len() >= 1 {
        let t = s.drop_last();
        let held = |i: int| i + 1 < t.len() && t[i] == a && t[i + 1] == b;
        law_pair_count_is_the_number_of_places(t, a, b);
        assert(t + seq![s.last()] =~= s);
        crate::corpus::lemma_pair_count_concat(t, seq![s.last()], a, b);
        crate::corpus::lemma_pair_count_small(seq![s.last()], a, b);
        lemma_places((s.len() - 1) as nat, holds);
        lemma_places((s.len() - 1) as nat, held);
        if s.len() >= 2 {
            let n = (s.len() - 2) as nat;
            lemma_places_same(n, holds, held);
            lemma_places((n + 1) as nat, holds);
            lemma_places((n + 1) as nat, held);
        }
    }
}

/// One more word type adds to a frequency what the word holds of the pair, as often as
/// the word occurs.
pub proof fn law_frequency_adds_up(words: Seq<WordModel>, w: WordModel, a: usize, b: usize)
    ensures
        freq(Seq::<WordModel>::empty(), a, b) == 0,
        freq(words.push(w), a, b) == freq(words, a, b) + w.1 * places(
            w.0.len(),
            |i: int| i + 1 < w.0.len() && w.0[i] == a && w.0[i + 1] == b,
        ).len(),
{
    law_pair_count_is_the_number_of_places(w.0, a, b);
    assert(words.push(w).drop_last() =~= words);
}

/// A pair that stands in a word which occurs has at least the frequency of that word.
proof fn lemma_pair_in_word(words: Seq<WordModel>, k: int, j: int)
    requires
        0 <= k < words.len(),
        0 <= j,
        j + 1 < words[k].0.len(),
    ensures
        freq(words, words[k].0[j], words[k].0[j + 1]) >= words[k].1,
{
    let s = words[k].0;
    crate::corpus::lemma_pair_count_at(s, j);
    crate::corpus::lemma_freq_at_least(words, k, s[j], s[j + 1]);
    let c = words[k].1 as int;
    let m = pair_count(s, s[j], s[j + 1]) as int;
    assert(c <= c * m) by (nonlinear_arith)
        requires
            c >= 0,
            m >= 1,
    ;
}

/// All pairs that stand in the words, with repetitions.
spec fn standing(words: Seq<WordModel>) -> Seq<(usize, usize)>
    decreases words.len(),
{
    if words.len() == 0 {
        Seq::empty()
    } else {
        let s = words.last().0;
        standing(words.drop_last()) + Seq::new(
            if s.len() > 0 {
                (s.len() - 1) as nat
            } else {
                0
            },
            |i: int| (s[i], s[i + 1]),
        )
    }
}

proof fn lemma_standing(words: Seq<WordModel>, a: usize, b: usize)
    requires
        freq(words, a, b) > 0,
    ensures
        standing(words).contains((a, b)),
    decreases words.len(),
{
    let s = words.last().0;
    let front = standing(words.drop_last());
    if pair_count(s, a, b) > 0 {
        let i = crate::corpus::lemma_pair_stands(s, a, b);
        assert(standing(words)[front.len() + i] == (a, b));
    } else {
        assert(words.last().1 * 0 == 0) by (nonlinear_arith);
        lemma_standing(words.drop_last(), a, b);
        let i = choose|i: int| 0 <= i < front.len() && front[i] == (a, b);
        assert(standing(words)[i] == (a, b));
    }
}

/// Of the candidates in a list one comes before all others.
proof fn lemma_first_of(t: Training, rules: TrainingRules, ps: Seq<(usize, usize)>) -> (best: (
    usize,
    usize,
))
    requires
        exists|i: int| 0 <= i < ps.len() && t.candidate(rules, #[trigger] ps[i]),
    ensures
        ps.contains(best),
        t.candidate(rules, best),
        forall|i: int|
            0 <= i < ps.len() && t.candidate(rules, #[trigger] ps[i]) && ps[i] != best
                ==> precedes(t.entry(rules, best), t.entry(rules, ps[i])),
    decreases ps.len(),
{
    let front = ps.drop_last();
    let x = ps.last();
    assert(ps[ps.len() - 1] == x);
    if exists|i: int| 0 <= i < front.len() && t.candidate(rules, #[trigger] front[i]) {
        let y = lemma_first_of(t, rules, front);
        let k = choose|k: int| 0 <= k < front.len() && front[k] == y;
        assert(ps[k] == y);
        let best = if t.candidate(rules, x) && x != y && precedes(
            t.entry(rules, x),
            t.entry(rules, y),
        ) {
            x
        } else {
            y
        };
        assert forall|i: int|
            0 <= i < ps.len() && t.candidate(rules, #[trigger] ps[i]) && ps[i]
                != best implies precedes(t.entry(rules, best), t.entry(rules, ps[i])) by {
            if i < front.len() {
                assert(front[i] == ps[i]);
            }
        }
        best
    } else {
        assert forall|i: int| 0 <= i < ps.len() && t.candidate(rules, #[trigger] ps[i]) implies ps[i]
            == x by {
            if i < front.len() {
                assert(front[i] == ps[i]);
            }
        }
        x
    }
}

/// Where there is a candidate, there is a next merge.
pub proof fn lemma_next_merge(t: Training, rules: TrainingRules, p: (usize, usize))
    requires
        t.candidate(rules, p),
    ensures
        t.next_merge(rules) is Some,
{
    let ps = standing(t.words);
    lemma_standing(t.words, p.0, p.1);
    let k = choose|k: int| 0 <= k < ps.len() && ps[k] == (p.0, p.1);
    assert(ps[k] == p);
    let best = lemma_first_of(t, rules, ps);
    assert forall|q: (usize, usize)| #[trigger]
        t.candidate(rules, q) && q != best implies precedes(
        t.entry(rules, best),
        t.entry(rules, q),
    ) by {
        lemma_standing(t.words, q.0, q.1);
        let i = choose|i: int| 0 <= i < ps.len() && ps[i] == (q.0, q.1);
        assert(ps[i] == q);
    }
    assert(t.best(rules, best));
}

proof fn lemma_trained_is_done(t: Training, rules: TrainingRules, budget: nat, p: (usize, usize))
    requires
        t.trained(rules, budget).vocab.len() < budget,
    ensures
        !t.trained(rules, budget).candidate(rules, p),
    decreases crate::corpus::token_count(t.words),
{
    match t.next_merge(rules) {
        Some(q) => {
            assert(t.best(rules, q));
            crate::corpus::lemma_merged_words_shrink(t.words, q.0, q.1, t.grown(rules, q).1);
            lemma_trained_is_done(t.step(rules, q), rules, budget, p);
        },
        None => {
            if t.candidate(rules, p) {
                lemma_next_merge(t, rules, p);
            }
        },
    }
}

/// Training stops below the budget only if nothing is left to merge: no two tokens that
/// stand side by side in a word which occurs are admissible. Two tokens are, outside
/// the Latin pass, if both are Devanagari or both punctuation, none is a seed, and the
/// first has no roots; also if the first is an ambiguous seed and the word alone is
/// frequent enough; also if the first has a root whose deciding paradigm allows the
/// second. In the Latin pass they are if both are Latin.
pub proof fn law_training_stops_only_when_done(
    t: Training,
    rules: TrainingRules,
    budget: nat,
    k: int,
    j: int,
    r: usize,
    i: int,
)
    requires
        t.vocab.valid(),
        budget <= usize::MAX,
        t.trained(rules, budget).vocab.len() < budget,
        0 <= k < t.trained(rules, budget).words.len(),
        t.trained(rules, budget).words[k].1 > 0,
        0 <= j,
        j + 1 < t.trained(rules, budget).words[k].0.len(),
        t.trained(rules, budget).words[k].0[j] < t.trained(rules, budget).vocab.len(),
        t.trained(rules, budget).words[k].0[j + 1] < t.trained(rules, budget).vocab.len(),
    ensures
        ({
            let v = t.trained(rules, budget).vocab;
            let w = t.trained(rules, budget).words[k];
            let a = w.0[j];
            let b = w.0[j + 1];
            let x = v.surfaces[a as int];
            let y = v.surfaces[b as int];
            &&& rules.latin_pass ==> !(v.scripts[a as int] == Script::LAT && v.scripts[b as int]
                == Script::LAT)
            &&& !rules.latin_pass && !v.strict.contains(a) && !v.strict.contains(b)
                && !v.ambiguous.contains(b) && (v.ambiguous.contains(a) ==> w.1 >= rules.theta)
                && (v.roots[a as int].len() == 0 || (v.roots[a as int].contains(r) && 0 <= i
                < rules.paradigms.len() && rules.paradigms[i].root == r && (forall|m: int|
                i < m < rules.paradigms.len() ==> (#[trigger] rules.paradigms[m]).root != r)
                && rules.paradigms[i].allowed.contains_key(x)
                && rules.paradigms[i].allowed[x].contains(y))) ==> {
                &&& !(v.scripts[a as int] == Script::DEV && v.scripts[b as int] == Script::DEV)
                &&& !(v.scripts[a as int] == Script::PUN && v.scripts[b as int] == Script::PUN)
            }
        }),
{
    let u = t.trained(rules, budget);
    let v = u.vocab;
    let w = u.words[k];
    let a = w.0[j];
    let b = w.0[j + 1];
    crate::training::law_training_adds_admissible_merges(t, rules, budget);
    lemma_pair_in_word(u.words, k, j);
    lemma_trained_is_done(t, rules, budget, (a, b));
    law_admission_is_complete(rules, v, a, b, freq(u.words, a, b));
    if v.roots[a as int].contains(r) && 0 <= i < rules.paradigms.len() && rules.paradigms[i].root
        == r && (forall|m: int|
        i < m < rules.paradigms.len() ==> (#[trigger] rules.paradigms[m]).root != r) {
        assert(paradigm_decides(rules.paradigms, i, r));
    }
}

/// A training that ends below its budget has merged all that was admissible at the
/// frequencies it ends with.
pub proof fn law_every_frequent_pair_is_merged(
    t: Training,
    rules: TrainingRules,
    budget: nat,
    a: usize,
    b: usize,
)
    requires
        t.trained(rules, budget).vocab.len() < budget,
    ensures
        ({
            let u = t.trained(rules, budget);
            freq(u.words, a, b) == 0 || !rules.legal(u.vocab, a, b, freq(u.words, a, b))
        }),
{
    lemma_trained_is_done(t, rules, budget, (a, b));
}

/// The same for any pair that still occurs, with its frequency in the whole running text:
/// below the budget, it lacks one of the conditions under which two tokens are merged.
pub proof fn law_no_admissible_pair_is_left(
    t: Training,
    rules: TrainingRules,
    budget: nat,
    a: usize,
    b: usize,
    r: usize,
    i: int,
)
    requires
        t.vocab.valid(),
        budget <= usize::MAX,
        t.trained(rules, budget).vocab.len() < budget,
        a < t.trained(rules, budget).vocab.len(),
        b < t.trained(rules, budget).vocab.len(),
        freq(t.trained(rules, budget).words, a, b) > 0,
        ({
            let v = t.trained(rules, budget).vocab;
            v.roots[a as int].len() == 0 || (v.roots[a as int].contains(r) && 0 <= i
                < rules.paradigms.len() && rules.paradigms[i].root == r && (forall|m: int|
                i < m < rules.paradigms.len() ==> (#[trigger] rules.paradigms[m]).root != r)
                && rules.paradigms[i].allowed.contains_key(v.surfaces[a as int])
                && rules.paradigms[i].allowed[v.surfaces[a as int]].contains(v.surfaces[b as int]))
        }),
    ensures
        ({
            let v = t.trained(rules, budget).vocab;
            let x = v.scripts[a as int];
            let y = v.scripts[b as int];
            if rules.latin_pass {
                x != Script::LAT || y != Script::LAT
            } else {
                ||| x != y
                ||| x != Script::DEV && x != Script::PUN
                ||| v.strict.contains(a)
                ||| v.strict.contains(b)
                ||| v.ambiguous.contains(b)
                ||| v.ambiguous.contains(a) && freq(t.trained(rules, budget).words, a, b)
                    < rules.theta
            }
        }),
{
    let u = t.trained(rules, budget);
    crate::training::law_training_adds_admissible_merges(t, rules, budget);
    lemma_trained_is_done(t, rules, budget, (a, b));
    law_admission_is_complete(rules, u.vocab, a, b, freq(u.words, a, b));
    if u.vocab.roots[a as int].len() > 0 {
        assert(paradigm_decides(rules.paradigms, i, r));
    }
}

/// Without scores, the next merge is, among the admissible pairs of its script, one with
/// the greatest frequency, and of those the one with the smallest numbers; and no pair
/// of a script of greater weight is admissible. Frequencies beyond the range of the
/// priorities count as equal.
pub proof fn law_most_frequent_pair_is_merged_first(
    t: Training,
    rules: TrainingRules,
    p: (usize, usize),
    q: (usize, usize),
)
    requires
        !rules.probabilistic,
        t.next_merge(rules) == Some(p),
        freq(t.words, q.0, q.1) > 0,
        rules.legal(t.vocab, q.0, q.1, freq(t.words, q.0, q.1)),
        q != p,
    ensures
        t.vocab.script_of(p.0) == Script::PUN ==> t.vocab.script_of(q.0) != Script::DEV,
        t.vocab.script_of(p.0) == t.vocab.script_of(q.0) && freq(t.words, p.0, p.1)
            <= 0x3F_FFFF_FFFF_FFFF ==> {
            ||| freq(t.words, q.0, q.1) < freq(t.words, p.0, p.1)
            ||| freq(t.words, q.0, q.1) == freq(t.words, p.0, p.1) && (p.0 < q.0 || (p.0 == q.0
                && p.1 < q.1))
        },
{
    assert(t.best(rules, p));
    assert(t.candidate(rules, q));
    crate::trainer::law_plain_key(rules, t.vocab, p.0, p.1, t.freq(p));
    crate::trainer::law_plain_key(rules, t.vocab, q.0, q.1, t.freq(q));
}

/// A merge goes through a word from left to right: what stands before the first place of
/// the pair stays, the pair becomes the new token, and the merge goes on from there.
pub proof fn law_merge_goes_from_left_to_right(
    p: Seq<usize>,
    q: Seq<usize>,
    a: usize,
    b: usize,
    n: usize,
)
    requires
        forall|j: int|
            0 <= j < p.len() ==> !(#[trigger] p[j] == a && (if j + 1 < p.len() {
                p[j + 1]
            } else {
                a
            }) == b),
    ensures
        merged_word(p + seq![a, b] + q, a, b, n) == p + merged_word(seq![n] + q, a, b, n),
    decreases p.len(),
{
    let s = p + seq![a, b] + q;
    if p.len() == 0 {
        assert(s.skip(2) =~= q);
        assert(s[0] == a && s[1] == b);
        assert(p + merged_word(seq![n] + q, a, b, n) =~= merged_word(seq![n] + q, a, b, n));
    } else {
        let t = p.skip(1);
        assert(!(p[0] == a && (if 1 < p.len() {
            p[1]
        } else {
            a
        }) == b));
        assert forall|j: int| 0 <= j < t.len() implies !(#[trigger] t[j] == a && (if j + 1
            < t.len() {
            t[j + 1]
        } else {
            a
        }) == b) by {
            assert(t[j] == p[j + 1]);
            if j + 1 < t.len() {
                assert(t[j + 1] == p[j + 2]);
            }
        }
        law_merge_goes_from_left_to_right(t, q, a, b, n);
        assert(s.skip(1) =~= t + seq![a, b] + q);
        assert(s[0] == p[0]);
        assert(s[1] == (if 1 < p.len() {
            p[1]
        } else {
            a
        }));
        assert(seq![p[0]] + (t + merged_word(seq![n] + q, a, b, n)) =~= p + merged_word(
            seq![n] + q,
            a,
            b,
            n,
        ));
    }
}

/// A word in which the pair does not stand stays as it is; and where the new token is
/// none of the pair, the pair stands nowhere after the merge.
pub proof fn law_merge_takes_every_place(s: Seq<usize>, a: usize, b: usize, n: usize, j: int)
    ensures
        (forall|i: int| 0 <= i < s.len() - 1 ==> !(#[trigger] s[i] == a && s[i + 1] == b))
            ==> merged_word(s, a, b, n) == s,
        n != a && n != b && 0 <= j && j + 1 < merged_word(s, a, b, n).len() ==> !(merged_word(
            s,
            a,
            b,
            n,
        )[j] == a && merged_word(s, a, b, n)[j + 1] == b),
{
    if forall|i: int| 0 <= i < s.len() - 1 ==> !(#[trigger] s[i] == a && s[i + 1] == b) {
        crate::corpus::lemma_no_pair(None, s, a, b, n);
    }
    if n != a && n != b {
        lemma_no_place_left(s, a, b, n, j);
    }
}

proof fn lemma_no_place_left(s: Seq<usize>, a: usize, b: usize, n: usize, j: int)
    requires
        n != a,
        n != b,
    ensures
        s.len() > 0 ==> merged_word(s, a, b, n).len() > 0,
        s.len() > 0 ==> merged_word(s, a, b, n)[0] == s[0] || merged_word(s, a, b, n)[0] == n,
        0 <= j && j + 1 < merged_word(s, a, b, n).len() ==> !(merged_word(s, a, b, n)[j] == a
            && merged_word(s, a, b, n)[j + 1] == b),
    decreases s.len(),
{
    if s.len() >= 2 {
        if s[0] == a && s[1] == b {
            lemma_no_place_left(seq![n] + s.skip(2), a, b, n, j);
        } else {
            lemma_no_place_left(s.skip(1), a, b, n, j - 1);
            lemma_no_place_left(s.skip(1), a, b, n, 0);
            assert(s.skip(1)[0] == s[1]);
        }
    }
}

/// What one merge adds: the joined surface under the next number, in the script of the
/// first part, with those of its roots that allow the second; all places of the pair in
/// the words take the new number. A surface that is known takes its own number instead.
pub proof fn law_next_merge_is_carried_out(
    t: Training,
    rules: TrainingRules,
    p: (usize, usize),
    r: usize,
    k: int,
)
    requires
        t.vocab.valid(),
        t.vocab.len() < usize::MAX,
        t.next_merge(rules) == Some(p),
        0 <= k < t.words.len(),
    ensures
        ({
            let v = t.vocab;
            let n = v.len();
            let joined = v.surfaces[p.0 as int] + v.surfaces[p.1 as int];
            let u = t.step(rules, p);
            &&& p.0 < n && p.1 < n
            &&& t.trained(rules, n + 1) == u || v.index.contains_key(joined)
            &&& !v.index.contains_key(joined) ==> {
                &&& u.vocab.len() == n + 1
                &&& u.vocab.surfaces == v.surfaces.push(joined)
                &&& u.vocab.scripts == v.scripts.push(v.scripts[p.0 as int])
                &&& u.vocab.index == v.index.insert(joined, n as usize)
                &&& u.vocab.roots.drop_last() == v.roots
                &&& u.vocab.roots.last().contains(r) <==> !rules.latin_pass
                    && v.roots[p.0 as int].contains(r) && licensed(
                    rules.paradigms,
                    r,
                    v.surfaces[p.0 as int],
                    v.surfaces[p.1 as int],
                )
                &&& u.words[k] == (merged_word(t.words[k].0, p.0, p.1, n as usize), t.words[k].1)
            }
            &&& v.index.contains_key(joined) ==> {
                &&& u.vocab == v
                &&& u.words[k] == (
                    merged_word(t.words[k].0, p.0, p.1, v.index[joined]),
                    t.words[k].1,
                )
            }
            &&& u.words.len() == t.words.len()
        }),
{
    let v = t.vocab;
    let n = v.len();
    let u = t.step(rules, p);
    assert(t.best(rules, p));
    let joined = v.surfaces[p.0 as int] + v.surfaces[p.1 as int];
    assert(v.surface_of(p.0) + v.surface_of(p.1) == joined);
    if !v.index.contains_key(joined) {
        assert(u.vocab.roots.drop_last() =~= v.roots);
        reveal_with_fuel(Training::trained, 2);
        let keep = |x: usize|
            licensed(rules.paradigms, x, v.surface_of(p.0), v.surface_of(p.1));
        crate::training::lemma_filter_holds(v.roots_of(p.0), keep, r);
    }
}

/// The mass of roots adds up: each root brings its prior, one if it has none, and
/// nothing if that is negative.
pub proof fn law_mass_adds_up(roots: Seq<usize>, r: usize, prior: Map<usize, i64>)
    ensures
        prior_mass(Seq::<usize>::empty(), prior) == 0,
        prior_mass(roots.push(r), prior) == prior_mass(roots, prior) + if prior.contains_key(r) {
            if prior[r] > 0 {
                prior[r] as int
            } else {
                0int
            }
        } else {
            0x1_0000_0000int
        },
{
    assert(roots.push(r).drop_last() =~= roots);
}

proof fn lemma_mass_split(roots: Seq<usize>, prior: Map<usize, i64>, keep: spec_fn(usize) -> bool)
    ensures
        prior_mass(roots.filter(keep), prior) + prior_mass(
            roots.filter(|r: usize| !keep(r)),
            prior,
        ) == prior_mass(roots, prior),
    decreases roots.len(),
{
    reveal(Seq::filter);
    let drop = |r: usize| !keep(r);
    if roots.len() > 0 {
        let front = roots.drop_last();
        lemma_mass_split(front, prior, keep);
        assert(front.filter(keep).push(roots.last()).drop_last() =~= front.filter(keep));
        assert(front.filter(drop).push(roots.last()).drop_last() =~= front.filter(drop));
    }
}

/// The score is the share of the mass of the roots that allow the second token in the
/// mass of all roots that are looked at: as many of the first as the cap says, all of
/// them where it is zero.
pub proof fn law_score_is_the_share_of_the_allowing_roots(
    rules: TrainingRules,
    v: VocabModel,
    a: usize,
    b: usize,
    seen: Seq<usize>,
    allows: spec_fn(usize) -> bool,
)
    requires
        v.valid(),
        a < v.len(),
        b < v.len(),
        !rules.latin_pass,
        rules.probabilistic,
        seen.len() <= v.roots[a as int].len(),
        seen == v.roots[a as int].take(seen.len() as int),
        seen.len() == v.roots[a as int].len() || (rules.cap > 0 && seen.len() == rules.cap),
        rules.cap > 0 ==> seen.len() <= rules.cap,
        forall|r: usize| #[trigger]
            allows(r) <==> licensed(
                rules.paradigms,
                r,
                v.surfaces[a as int],
                v.surfaces[b as int],
            ),
    ensures
        prior_mass(seen, rules.prior) == 0 ==> rules.morph_score(v, a, b) == (1nat, 1nat),
        prior_mass(seen, rules.prior) > 0 ==> rules.morph_score(v, a, b) == (
            prior_mass(seen.filter(allows), rules.prior),
            prior_mass(seen, rules.prior),
        ),
        (forall|i: int| 0 <= i < seen.len() ==> allows(#[trigger] seen[i])) ==> rules.morph_score(
            v,
            a,
            b,
        ).0 == rules.morph_score(v, a, b).1,
        prior_mass(seen, rules.prior) > 0 && (forall|i: int|
            0 <= i < seen.len() ==> !allows(#[trigger] seen[i])) ==> rules.morph_score(v, a, b).0
            == 0,
{
    let all = v.roots[a as int];
    let other = |r: usize| licensed(rules.paradigms, r, v.surface_of(a), v.surface_of(b));
    assert(allows =~= other);
    assert(all.take(all.len() as int) =~= all);
    assert(seen == rules.scored_roots(v, a));
    lemma_mass_split(seen, rules.prior, allows);
    assert(rules.morph_score(v, a, b).0 == if prior_mass(seen, rules.prior) == 0 {
        1
    } else {
        prior_mass(seen.filter(allows), rules.prior)
    });
    if forall|i: int| 0 <= i < seen.len() ==> allows(#[trigger] seen[i]) {
        lemma_filter_every(seen, allows);
    }
    if forall|i: int| 0 <= i < seen.len() ==> !allows(#[trigger] seen[i]) {
        lemma_filter_every(seen, |r: usize| !allows(r));
    }
}

proof fn lemma_filter_every(s: Seq<usize>, keep: spec_fn(usize) -> bool)
    requires
        forall|i: int| 0 <= i < s.len() ==> keep(#[trigger] s[i]),
    ensures
        s.filter(keep) == s,
    decreases s.len(),
{
    reveal(Seq::filter);
    if s.len() > 0 {
        assert forall|i: int| 0 <= i < s.drop_last().len() implies keep(
            #[trigger] s.drop_last()[i],
        ) by {
            assert(s.drop_last()[i] == s[i]);
        }
        lemma_filter_every(s.drop_last(), keep);
        assert(keep(s[s.len() - 1]));
        assert(s.drop_last().push(s.last()) =~= s);
    } else {
        assert(s.filter(keep) =~= s);
    }
}

/// The priority of a pair is the greatest whole number that is not above the score times
/// the weight of the first token times the frequency times 1024, cut off at the end of
/// the range. Weights are multiples of two to the power of minus 32; a token without one
/// has the weight one, and a negative weight counts as zero.
pub proof fn law_priority_is_the_scaled_score(
    rules: TrainingRules,
    v: VocabModel,
    a: usize,
    b: usize,
    f: nat,
    k: nat,
)
    requires
        v.valid(),
        a < v.len(),
        ({
            let (l, t) = rules.morph_score(v, a, b);
            let w = if rules.probabilistic && rules.weights.contains_key(a) {
                if rules.weights[a] > 0 {
                    rules.weights[a] as int
                } else {
                    0int
                }
            } else {
                0x1_0000_0000int
            };
            k * (t * 0x1_0000_0000) <= l * w * f * 1024 < (k + 1) * (t * 0x1_0000_0000)
        }),
    ensures
        rules.priority_key(v, a, b, f).1 == if k > u64::MAX {
            u64::MAX as nat
        } else {
            k
        },
        v.scripts[a as int] == Script::DEV ==> rules.priority_key(v, a, b, f).0 == 2,
        v.scripts[a as int] == Script::PUN ==> rules.priority_key(v, a, b, f).0 == 1,
        v.scripts[a as int] == Script::LAT ==> rules.priority_key(v, a, b, f).0 == 0,
{
    let (l, t) = rules.morph_score(v, a, b);
    let w = rules.weight_of(a);
    crate::trainer::law_score_at_most_one(rules, v, a, b);
    let x = (l * w * f * 1024) as int;
    let d = (t * 0x1_0000_0000) as int;
    let rest = x - k * d;
    assert((k + 1) * d == k * d + d) by (nonlinear_arith);
    assert(x == k * d + rest);
    vstd::arithmetic::div_mod::lemma_fundamental_div_mod_converse(x, d, k as int, rest);
}

/// Scripts and seeds alone: which pairs they admit, whatever roots the tokens have. A
/// number that is no token is never admitted.
pub proof fn law_gate(rules: TrainingRules, v: VocabModel, a: usize, b: usize, f: nat)
    requires
        v.valid(),
    ensures
        a >= v.len() || b >= v.len() ==> !rules.gate(v, a, b, f) && !rules.script_compat(v, a, b),
        a < v.len() && b < v.len() ==> {
            let x = v.scripts[a as int];
            let y = v.scripts[b as int];
            &&& rules.latin_pass ==> {
                &&& rules.script_compat(v, a, b) <==> x == Script::LAT && y == Script::LAT
                &&& rules.gate(v, a, b, f) <==> x == Script::LAT && y == Script::LAT
            }
            &&& !rules.latin_pass ==> {
                &&& rules.script_compat(v, a, b) <==> (x == Script::DEV && y == Script::DEV) || (x
                    == Script::PUN && y == Script::PUN)
                &&& rules.gate(v, a, b, f) <==> {
                    &&& (x == Script::DEV && y == Script::DEV) || (x == Script::PUN && y
                        == Script::PUN)
                    &&& !v.strict.contains(b) && !v.ambiguous.contains(b) && !v.strict.contains(a)
                    &&& v.ambiguous.contains(a) ==> f >= rules.theta
                }
            }
        },
{
}

/// The morphology alone: in the Latin pass, and where the first token has no roots, every
/// second token is allowed, and else those that one of its roots allows.
pub proof fn law_morphology(rules: TrainingRules, v: VocabModel, a: usize, b: usize)
    requires
        v.valid(),
        a < v.len(),
        b < v.len(),
    ensures
        rules.latin_pass ==> rules.morph(v, a, b),
        v.roots[a as int].len() == 0 ==> rules.morph(v, a, b),
        !rules.latin_pass && v.roots[a as int].len() > 0 ==> (rules.morph(v, a, b) <==> exists|
            r: usize,
        |
            v.roots[a as int].contains(r) && #[trigger] licensed(
                rules.paradigms,
                r,
                v.surfaces[a as int],
                v.surfaces[b as int],
            )),
{
    assert(v.surface_of(a) == v.surfaces[a as int] && v.surface_of(b) == v.surfaces[b as int]);
    assert(v.roots_of(a) == v.roots[a as int]);
}

/// The roots of a merge are those roots of the first token that allow the second, in
/// their order; in the Latin pass there are none.
pub proof fn law_roots_of_a_merge(
    rules: TrainingRules,
    v: VocabModel,
    a: usize,
    b: usize,
    allows: spec_fn(usize) -> bool,
)
    requires
        v.valid(),
        a < v.len(),
        b < v.len(),
        forall|r: usize| #[trigger]
            allows(r) <==> licensed(
                rules.paradigms,
                r,
                v.surfaces[a as int],
                v.surfaces[b as int],
            ),
    ensures
        rules.latin_pass ==> rules.narrowed(v, a, b) == Seq::<usize>::empty(),
        !rules.latin_pass ==> rules.narrowed(v, a, b) == v.roots[a as int].filter(allows),
{
    let other = |r: usize| licensed(rules.paradigms, r, v.surface_of(a), v.surface_of(b));
    assert(allows =~= other);
}

/// The score is one in the Latin pass and where scores are off.
pub proof fn law_score_is_neutral(rules: TrainingRules, v: VocabModel, a: usize, b: usize)
    requires
        rules.latin_pass || !rules.probabilistic,
    ensures
        rules.morph_score(v, a, b) == (1nat, 1nat),
{
}

/// The next merge is the admissible pair that occurs with the greatest priority: first
/// the rank of the script, then the scaled score; and of equals the pair with the
/// smaller numbers.
pub proof fn law_order_of_merges(
    t: Training,
    rules: TrainingRules,
    p: (usize, usize),
    q: (usize, usize),
)
    requires
        t.next_merge(rules) == Some(p),
    ensures
        freq(t.words, p.0, p.1) > 0,
        rules.legal(t.vocab, p.0, p.1, freq(t.words, p.0, p.1)),
        q != p && freq(t.words, q.0, q.1) > 0 && rules.legal(
            t.vocab,
            q.0,
            q.1,
            freq(t.words, q.0, q.1),
        ) ==> {
            let x = rules.priority_key(t.vocab, p.0, p.1, freq(t.words, p.0, p.1));
            let y = rules.priority_key(t.vocab, q.0, q.1, freq(t.words, q.0, q.1));
            ||| x.0 > y.0
            ||| x.0 == y.0 && x.1 > y.1
            ||| x.0 == y.0 && x.1 == y.1 && p.0 < q.0
            ||| x.0 == y.0 && x.1 == y.1 && p.0 == q.0 && p.1 < q.1
        },
{
    assert(t.best(rules, p));
    if q != p && freq(t.words, q.0, q.1) > 0 && rules.legal(
        t.vocab,
        q.0,
        q.1,
        freq(t.words, q.0, q.1),
    ) {
        assert(t.candidate(rules, q));
        assert(precedes(t.entry(rules, p), t.entry(rules, q)));
    }
}

/// Training makes one merge after the other as long as the budget is not reached, and
/// does nothing where it is.
pub proof fn law_training_makes_one_merge_after_the_other(
    t: Training,
    rules: TrainingRules,
    budget: nat,
    p: (usize, usize),
)
    ensures
        t.vocab.len() >= budget ==> t.trained(rules, budget) == t,
        t.vocab.len() < budget && t.next_merge(rules) is None ==> t.trained(rules, budget) == t,
        t.vocab.len() < budget && t.next_merge(rules) == Some(p) ==> t.trained(rules, budget)
            == t.step(rules, p).trained(rules, budget),
{
}

/// The pairs that a merge touches in a word: at each place of the pair those that its
/// tokens formed with their neighbours, and those that the new token forms with them. A
/// word without the pair has none.
pub proof fn law_merge_touches_its_neighbours(
    prev: Option<usize>,
    p: Seq<usize>,
    q: Seq<usize>,
    a: usize,
    b: usize,
    n: usize,
)
    requires
        forall|j: int|
            0 <= j < p.len() ==> !(#[trigger] p[j] == a && (if j + 1 < p.len() {
                p[j + 1]
            } else {
                a
            }) == b),
    ensures
        ({
            let left = if p.len() > 0 {
                Some(p.last())
            } else {
                prev
            };
            touched_in(prev, p + seq![a, b] + q, a, b, n) == (match left {
                Some(l) => set![(l, a), (l, n)],
                None => Set::empty(),
            }).union(
                if q.len() > 0 {
                    set![(b, q[0]), (n, q[0])]
                } else {
                    Set::empty()
                },
            ).union(touched_in(left, seq![n] + q, a, b, n))
        }),
    decreases p.len(),
{
    let s = p + seq![a, b] + q;
    if p.len() == 0 {
        assert(s.skip(2) =~= q);
        assert(s[0] == a && s[1] == b);
        if q.len() > 0 {
            assert(s[2] == q[0]);
        }
    } else {
        let t = p.skip(1);
        assert(!(p[0] == a && (if 1 < p.len() {
            p[1]
        } else {
            a
        }) == b));
        assert forall|j: int| 0 <= j < t.len() implies !(#[trigger] t[j] == a && (if j + 1
            < t.len() {
            t[j + 1]
        } else {
            a
        }) == b) by {
            assert(t[j] == p[j + 1]);
            if j + 1 < t.len() {
                assert(t[j + 1] == p[j + 2]);
            }
        }
        law_merge_touches_its_neighbours(Some(p[0]), t, q, a, b, n);
        assert(s.skip(1) =~= t + seq![a, b] + q);
        assert(s[0] == p[0]);
        assert(s[1] == (if 1 < p.len() {
            p[1]
        } else {
            a
        }));
        if t.len() > 0 {
            assert(t.last() == p.last());
        }
    }
}

/// The pairs that a merge touches in words are those that it touches in each; a word
/// without the pair adds none.
pub proof fn law_touched_pairs_add_up(
    words: Seq<WordModel>,
    w: WordModel,
    a: usize,
    b: usize,
    n: usize,
)
    ensures
        touched_pairs(Seq::<WordModel>::empty(), a, b, n) == Set::<(usize, usize)>::empty(),
        touched_pairs(words.push(w), a, b, n) == touched_pairs(words, a, b, n).union(
            touched_in(None, w.0, a, b, n),
        ),
        (forall|j: int| 0 <= j < w.0.len() - 1 ==> !(#[trigger] w.0[j] == a && w.0[j + 1] == b))
            ==> touched_in(None, w.0, a, b, n) == Set::<(usize, usize)>::empty(),
{
    assert(words.push(w).drop_last() =~= words);
    if forall|j: int| 0 <= j < w.0.len() - 1 ==> !(#[trigger] w.0[j] == a && w.0[j + 1] == b) {
        crate::corpus::lemma_no_pair(None, w.0, a, b, n);
    }
}

} // verus!
