//! Constrained byte-pair merging: which pairs may be merged, in what order, and what
//! training does to a vocabulary.

use crate::paradigm::{licensed, ParadigmModel, ParadigmRegistry};
use crate::script::Script;
use crate::vocab::{prior_of, prior_value, VocabModel, Vocabulary, WEIGHT_ONE};
use std::collections::HashMap;
use vstd::prelude::*;

verus! {

/// What the priority of a pair is scaled by before it is cut to a whole number.
pub const PRIORITY_SCALE: u64 = 1024;

/// What training goes by, apart from vocabulary and corpus.
#[verifier::ext_equal]
pub struct TrainingRules {
    pub paradigms: Seq<ParadigmModel>,
    pub theta: u64,
    pub latin_pass: bool,
    pub prior: Map<usize, i64>,
    pub weights: Map<usize, i64>,
    pub probabilistic: bool,
    pub cap: usize,
}

/// A number with its negative values cut off.
pub open spec fn clamped(x: i64) -> nat {
    if x > 0 {
        x as nat
    } else {
        0
    }
}

/// The sum of the priors of the roots.
pub open spec fn prior_mass(roots: Seq<usize>, prior: Map<usize, i64>) -> nat
    decreases roots.len(),
{
    if roots.len() == 0 {
        0
    } else {
        prior_mass(roots.drop_last(), prior) + clamped(prior_of(prior, roots.last()))
    }
}

/// The roots that allow `next` after `prefix`, in order.
pub open spec fn licensing(
    roots: Seq<usize>,
    paradigms: Seq<ParadigmModel>,
    prefix: Seq<char>,
    next: Seq<char>,
) -> Seq<usize> {
    roots.filter(|r: usize| licensed(paradigms, r, prefix, next))
}

/// The quotient `l / t` of the weights, times `w` over one and times `f`, scaled and
/// cut to a whole number.
pub open spec fn scaled_key(l: nat, t: nat, w: nat, f: nat) -> nat {
    (l * w * f * PRIORITY_SCALE as nat) / (t * WEIGHT_ONE as nat)
}

impl TrainingRules {
    /// Pairs of one script only: Devanagari or punctuation, and in the Latin pass
    /// Latin.
    pub open spec fn script_compat(self, v: VocabModel, a: usize, b: usize) -> bool {
        let s = v.script_of(a);
        &&& s == v.script_of(b)
        &&& if self.latin_pass {
            s == Script::LAT
        } else {
            s == Script::DEV || s == Script::PUN
        }
    }

    /// Seeds never stand second; strict seeds stay whole; ambiguous seeds grow only
    /// in pairs that are frequent enough. The Latin pass knows no seeds.
    pub open spec fn gate(self, v: VocabModel, a: usize, b: usize, f: nat) -> bool {
        &&& self.script_compat(v, a, b)
        &&& self.latin_pass || {
            &&& !v.strict.contains(b)
            &&& !v.ambiguous.contains(b)
            &&& !v.strict.contains(a)
            &&& v.ambiguous.contains(a) ==> f >= self.theta
        }
    }

    /// Some root of `a` allows `b`, or `a` has no roots.
    pub open spec fn morph(self, v: VocabModel, a: usize, b: usize) -> bool {
        ||| self.latin_pass
        ||| v.roots_of(a).len() == 0
        ||| exists|r: usize|
            v.roots_of(a).contains(r) && #[trigger] licensed(
                self.paradigms,
                r,
                v.surface_of(a),
                v.surface_of(b),
            )
    }

    pub open spec fn legal(self, v: VocabModel, a: usize, b: usize, f: nat) -> bool {
        self.gate(v, a, b, f) && self.morph(v, a, b)
    }

    /// The roots of `a` that the score looks at.
    pub open spec fn scored_roots(self, v: VocabModel, a: usize) -> Seq<usize> {
        let roots = v.roots_of(a);
        if self.cap == 0 || self.cap >= roots.len() {
            roots
        } else {
            roots.take(self.cap as int)
        }
    }

    /// The share of the mass of the roots of `a` that allows `b`, as a quotient. It is
    /// one where there are no roots, where they have no mass, in the Latin pass, and
    /// where the probabilistic key is off.
    pub open spec fn morph_score(self, v: VocabModel, a: usize, b: usize) -> (nat, nat) {
        let roots = self.scored_roots(v, a);
        let total = prior_mass(roots, self.prior);
        if self.latin_pass || !self.probabilistic || total == 0 {
            (1, 1)
        } else {
            (
                prior_mass(
                    licensing(roots, self.paradigms, v.surface_of(a), v.surface_of(b)),
                    self.prior,
                ),
                total,
            )
        }
    }

    /// The weight of `a` among the pairs of its script; one where the probabilistic
    /// key is off.
    pub open spec fn weight_of(self, a: usize) -> nat {
        if self.probabilistic && self.weights.contains_key(a) {
            clamped(self.weights[a])
        } else {
            WEIGHT_ONE as nat
        }
    }

    /// The priority of a pair: the rank of its script, then its scaled score.
    pub open spec fn priority_key(self, v: VocabModel, a: usize, b: usize, f: nat) -> (u8, u64) {
        let (l, t) = self.morph_score(v, a, b);
        let key = scaled_key(l, t, self.weight_of(a), f);
        (
            v.script_of(a).rank(),
            if key > u64::MAX {
                u64::MAX
            } else {
                key as u64
            },
        )
    }

    /// The roots of the merge of `a` and `b`: those of `a` that allow `b`.
    pub open spec fn narrowed(self, v: VocabModel, a: usize, b: usize) -> Seq<usize> {
        if self.latin_pass {
            Seq::empty()
        } else {
            licensing(v.roots_of(a), self.paradigms, v.surface_of(a), v.surface_of(b))
        }
    }
}

proof fn lemma_prior_mass_filter(roots: Seq<usize>, prior: Map<usize, i64>, keep: spec_fn(usize) -> bool)
    ensures
        prior_mass(roots.filter(keep), prior) <= prior_mass(roots, prior),
    decreases roots.len(),
{
    reveal(Seq::filter);
    if roots.len() > 0 {
        lemma_prior_mass_filter(roots.drop_last(), prior, keep);
        let front = roots.drop_last().filter(keep);
        assert(front.push(roots.last()).drop_last() =~= front);
    }
}

/// The product of `l` and `m` divided by `t`, with the remainder.
fn mul_div(l: u128, m: u128, t: u128) -> (qr: (u128, u128))
    requires
        l <= t,
        0 < t,
    ensures
        l * m == qr.0 * t + qr.1,
        qr.1 < t,
        qr.0 <= m,
    decreases m,
{
    if m == 0 {
        assert(l * 0 == 0) by (nonlinear_arith);
        assert(0 * t == 0) by (nonlinear_arith);
        return (0, 0);
    }
    let h = m / 2;
    let (q0, r0) = mul_div(l, h, t);
    let odd = m % 2 == 1;
    let mut q: u128 = 2 * q0;
    let mut r: u128 = r0;
    if r >= t - r {
        r = r - (t - r);
        q = q + 1;
    } else {
        r = r + r;
    }
    proof {
        assert(l * (2 * h) == q * t + r) by (nonlinear_arith)
            requires
                l * h == q0 * t + r0,
                q == 2 * q0 && r == 2 * r0 || q == 2 * q0 + 1 && r == 2 * r0 - t,
        ;
        lemma_quotient_bound(l as int, (2 * h) as int, t as int, q as int, r as int);
    }
    let ghost q1 = q;
    let ghost r1 = r;
    if odd {
        if r >= t - l {
            r = r - (t - l);
            q = q + 1;
        } else {
            r = r + l;
        }
        assert(l * m == q * t + r) by (nonlinear_arith)
            requires
                l * (2 * h) == q1 * t + r1,
                m == 2 * h + 1,
                q == q1 && r == r1 + l || q == q1 + 1 && r == r1 + l - t,
        ;
    }
    proof {
        lemma_quotient_bound(l as int, m as int, t as int, q as int, r as int);
    }
    (q, r)
}

proof fn lemma_quotient_bound(l: int, m: int, t: int, q: int, r: int)
    requires
        0 <= l <= t,
        0 <= m,
        0 < t,
        0 <= r,
        l * m == q * t + r,
    ensures
        q <= m,
{
    assert(q <= m) by (nonlinear_arith)
        requires
            0 <= l <= t,
            0 <= m,
            0 < t,
            0 <= r,
            l * m == q * t + r,
    ;
}

proof fn lemma_scaled_key(l: nat, t: nat, w: nat, f: nat, q: nat, r: nat)
    requires
        0 < t,
        l * (w * f) == q * t + r,
        r < t,
    ensures
        scaled_key(l, t, w, f) == q / 0x40_0000,
{
    let x = (l * (w * f)) as int;
    let d = (t * 0x40_0000) as int;
    assert(l * w * f * 1024 == x * 1024) by (nonlinear_arith)
        requires
            x == l * (w * f),
    ;
    assert(t * 0x1_0000_0000 == 1024 * d);
    vstd::arithmetic::div_mod::lemma_div_denominator(x * 1024, 1024, d);
    vstd::arithmetic::div_mod::lemma_div_multiples_vanish(x, 1024);
    vstd::arithmetic::div_mod::lemma_div_denominator(x, t as int, 0x40_0000);
    vstd::arithmetic::div_mod::lemma_fundamental_div_mod_converse(
        x,
        t as int,
        q as int,
        r as int,
    );
}

fn clamp(x: i64) -> (y: u128)
    ensures
        y == clamped(x),
{
    if x > 0 {
        x as u128
    } else {
        0
    }
}

/// The trainer: a vocabulary that grows by merges.
pub struct ConstrainedBPETrainer {
    pub vocab: Vocabulary,
    pub paradigm_registry: ParadigmRegistry,
    /// How frequent a pair must be for an ambiguous seed to grow.
    pub theta: u64,
    pub latin_pass: bool,
    /// The priors of the roots, as multiples of two to the power of minus 32. A root
    /// that is not here has the prior one.
    pub root_prior: HashMap<usize, i64>,
    /// The weights of the tokens, as multiples of two to the power of minus 32. A
    /// token that is not here has the weight one.
    pub token_weight: HashMap<usize, i64>,
    /// Whether scores and weights enter the priority.
    pub use_probabilistic_k: bool,
    /// How many roots of a token its scores look at; zero for all of them.
    pub root_set_cap: usize,
}

impl ConstrainedBPETrainer {
    pub open spec fn wf(&self) -> bool {
        self.vocab@.valid() && self.paradigm_registry.wf()
    }

    pub open spec fn rules(&self) -> TrainingRules {
        TrainingRules {
            paradigms: self.paradigm_registry@,
            theta: self.theta,
            latin_pass: self.latin_pass,
            prior: self.root_prior@,
            weights: self.token_weight@,
            probabilistic: self.use_probabilistic_k,
            cap: self.root_set_cap,
        }
    }

    pub fn new(vocab: Vocabulary, paradigm_registry: ParadigmRegistry) -> (t: Self)
        ensures
            t.vocab == vocab,
            t.paradigm_registry == paradigm_registry,
            t.rules() == (TrainingRules {
                paradigms: paradigm_registry@,
                theta: 100,
                latin_pass: false,
                prior: Map::empty(),
                weights: Map::empty(),
                probabilistic: false,
                cap: 0,
            }),
    {
        Self {
            vocab,
            paradigm_registry,
            theta: 100,
            latin_pass: false,
            root_prior: HashMap::new(),
            token_weight: HashMap::new(),
            use_probabilistic_k: false,
            root_set_cap: 0,
        }
    }

    pub fn script_compat(&self, a: usize, b: usize) -> (yes: bool)
        ensures
            yes == self.rules().script_compat(self.vocab@, a, b),
    {
        let sa = self.vocab.get_script(a);
        let sb = self.vocab.get_script(b);
        if self.latin_pass {
            return sa == sb && sa == Script::LAT;
        }
        sa == sb && (sa == Script::DEV || sa == Script::PUN)
    }

    pub fn gate(&self, a: usize, b: usize, freq: u64) -> (yes: bool)
        ensures
            yes == self.rules().gate(self.vocab@, a, b, freq as nat),
    {
        if !self.script_compat(a, b) {
            return false;
        }
        if self.latin_pass {
            return true;
        }
        if self.vocab.is_strict(b) || self.vocab.is_ambiguous(b) {
            return false;
        }
        if self.vocab.is_strict(a) {
            return false;
        }
        if self.vocab.is_ambiguous(a) && freq < self.theta {
            return false;
        }
        true
    }

    pub fn morph(&self, a: usize, b: usize) -> (yes: bool)
        requires
            self.wf(),
        ensures
            yes == self.rules().morph(self.vocab@, a, b),
    {
        if self.latin_pass {
            return true;
        }
        let roots = self.vocab.get_root_set(a);
        if roots.len() == 0 {
            return true;
        }
        let prefix = self.vocab.surface_or_empty(a);
        let next = self.vocab.surface_or_empty(b);
        let n = roots.len();
        for i in 0..n
            invariant
                self.wf(),
                n == roots@.len(),
                prefix@ == self.vocab@.surface_of(a),
                next@ == self.vocab@.surface_of(b),
                roots@ == self.vocab@.roots_of(a),
                forall|j: int|
                    0 <= j < i ==> !licensed(
                        self.paradigm_registry@,
                        #[trigger] roots@[j],
                        prefix@,
                        next@,
                    ),
        {
            if self.paradigm_registry.check_allowed(roots[i], prefix.as_str(), next.as_str()) {
                proof {
                    let r = self.vocab@.roots_of(a)[i as int];
                    assert(self.vocab@.roots_of(a).contains(r));
                    assert(licensed(
                        self.rules().paradigms,
                        r,
                        self.vocab@.surface_of(a),
                        self.vocab@.surface_of(b),
                    ));
                }
                return true;
            }
        }
        false
    }

    pub fn legal(&self, a: usize, b: usize, freq: u64) -> (yes: bool)
        requires
            self.wf(),
        ensures
            yes == self.rules().legal(self.vocab@, a, b, freq as nat),
    {
        self.gate(a, b, freq) && self.morph(a, b)
    }

    /// The score of a pair as a quotient, not greater than one.
    pub fn morph_score(&self, a: usize, b: usize) -> (score: (u128, u128))
        requires
            self.wf(),
        ensures
            (score.0 as nat, score.1 as nat) == self.rules().morph_score(self.vocab@, a, b),
            score.0 <= score.1,
            0 < score.1,
    {
        if self.latin_pass || !self.use_probabilistic_k {
            return (1, 1);
        }
        let roots = self.vocab.get_root_set(a);
        let n = if self.root_set_cap == 0 || self.root_set_cap >= roots.len() {
            roots.len()
        } else {
            self.root_set_cap
        };
        let prefix = self.vocab.surface_or_empty(a);
        let next = self.vocab.surface_or_empty(b);
        let ghost scored = self.rules().scored_roots(self.vocab@, a);
        let ghost keep = |r: usize| licensed(self.paradigm_registry@, r, prefix@, next@);
        assert(scored =~= roots@.take(n as int));
        let mut total: u128 = 0;
        let mut share: u128 = 0;
        proof {
            reveal(Seq::filter);
        }
        for i in 0..n
            invariant
                self.wf(),
                n == scored.len(),
                n <= roots@.len(),
                scored == roots@.take(n as int),
                keep == (|r: usize| licensed(self.paradigm_registry@, r, prefix@, next@)),
                total == prior_mass(scored.take(i as int), self.root_prior@),
                total <= i * 0x7FFF_FFFF_FFFF_FFFF,
                share == prior_mass(scored.take(i as int).filter(keep), self.root_prior@),
                share <= total,
        {
            let r = roots[i];
            let p = clamp(prior_value(&self.root_prior, r));
            proof {
                reveal(Seq::filter);
                assert(scored.take(i + 1).drop_last() =~= scored.take(i as int));
                assert(scored.take(i + 1).last() == r);
                let front = scored.take(i as int).filter(keep);
                assert(front.push(r).drop_last() =~= front);
            }
            total = total + p;
            if self.paradigm_registry.check_allowed(r, prefix.as_str(), next.as_str()) {
                share = share + p;
            }
        }
        assert(scored.take(n as int) =~= scored);
        if total == 0 {
            (1, 1)
        } else {
            (share, total)
        }
    }

    /// The roots of the merge of `a` and `b`.
    pub fn narrow_root_set(&self, a: usize, b: usize) -> (roots: Vec<usize>)
        requires
            self.wf(),
        ensures
            roots@ == self.rules().narrowed(self.vocab@, a, b),
    {
        let mut out: Vec<usize> = Vec::new();
        if self.latin_pass {
            return out;
        }
        let roots = self.vocab.get_root_set(a);
        let prefix = self.vocab.surface_or_empty(a);
        let next = self.vocab.surface_or_empty(b);
        let ghost all = roots@;
        let ghost keep = |r: usize| licensed(self.paradigm_registry@, r, prefix@, next@);
        let n = roots.len();
        proof {
            reveal(Seq::filter);
        }
        for i in 0..n
            invariant
                self.wf(),
                n == all.len(),
                all == roots@,
                keep == (|r: usize| licensed(self.paradigm_registry@, r, prefix@, next@)),
                out@ == all.take(i as int).filter(keep),
        {
            let r = roots[i];
            proof {
                reveal(Seq::filter);
                assert(all.take(i + 1).drop_last() =~= all.take(i as int));
            }
            if self.paradigm_registry.check_allowed(r, prefix.as_str(), next.as_str()) {
                out.push(r);
            }
        }
        assert(all.take(n as int) =~= all);
        out
    }

    /// The priority of a pair of the given frequency.
    pub fn priority_key(&self, a: usize, b: usize, freq: u64) -> (key: (u8, u64))
        requires
            self.wf(),
        ensures
            key == self.rules().priority_key(self.vocab@, a, b, freq as nat),
    {
        let rank = self.vocab.get_script(a).rank();
        let (l, t) = self.morph_score(a, b);
        let w: u128 = if self.use_probabilistic_k {
            match self.token_weight.get(&a) {
                Some(w) => clamp(*w),
                None => WEIGHT_ONE as u128,
            }
        } else {
            WEIGHT_ONE as u128
        };
        let f = freq as u128;
        assert(w * f <= 0x7FFF_FFFF_FFFF_FFFF * 0xFFFF_FFFF_FFFF_FFFF) by (nonlinear_arith)
            requires
                0 <= w <= 0x7FFF_FFFF_FFFF_FFFF,
                0 <= f <= 0xFFFF_FFFF_FFFF_FFFF,
        ;
        let (q, r) = mul_div(l, w * f, t);
        proof {
            lemma_scaled_key(l as nat, t as nat, w as nat, f as nat, q as nat, r as nat);
        }
        let key = q / 0x40_0000;
        if key > u64::MAX as u128 {
            (rank, u64::MAX)
        } else {
            (rank, key as u64)
        }
    }
}

/// The score of a pair lies between zero and one.
pub proof fn law_score_at_most_one(rules: TrainingRules, v: VocabModel, a: usize, b: usize)
    ensures
        rules.morph_score(v, a, b).0 <= rules.morph_score(v, a, b).1,
        0 < rules.morph_score(v, a, b).1,
{
    let keep = |r: usize|
        licensed(rules.paradigms, r, v.surface_of(a), v.surface_of(b));
    lemma_prior_mass_filter(rules.scored_roots(v, a), rules.prior, keep);
}

/// With the probabilistic key off, the priority is the rank of the script and the
/// scaled frequency.
pub proof fn law_plain_key(rules: TrainingRules, v: VocabModel, a: usize, b: usize, f: nat)
    requires
        !rules.probabilistic,
    ensures
        rules.priority_key(v, a, b, f) == (
            v.script_of(a).rank(),
            if f * PRIORITY_SCALE > u64::MAX {
                u64::MAX
            } else {
                (f * PRIORITY_SCALE) as u64
            },
        ),
{
    let q = (WEIGHT_ONE * f) as nat;
    assert(1 * (WEIGHT_ONE as nat * f) == q * 1 + 0) by (nonlinear_arith)
        requires
            q == WEIGHT_ONE as nat * f,
    ;
    lemma_scaled_key(1, 1, WEIGHT_ONE as nat, f, q, 0);
}

/// A prior that gives no mass to the roots of a token leaves the priority as it is
/// without roots.
pub proof fn law_massless_prior_is_neutral(
    rules: TrainingRules,
    v: VocabModel,
    a: usize,
    b: usize,
)
    requires
        prior_mass(rules.scored_roots(v, a), rules.prior) == 0,
    ensures
        rules.morph_score(v, a, b) == (1nat, 1nat),
{
}

} // verus!
