//! Training as a whole: the merges that are made, in order, and what they leave.

use crate::corpus::{
    all_below, freq, lemma_freq_below, lemma_merged_words_below, lemma_merged_word_len,
    lemma_merged_words_shrink, lemma_untouched, lemma_weight_bounds_pairs, merged_word, merged_words,
    pair_count, pairs_fit, token_count, touched_pairs, weight, Corpus, WordModel,
};
use crate::merge_queue::{precedes, MergeCandidate, MergeQueue};
use crate::paradigm::licensed;
use crate::script::Script;
use crate::trainer::{ConstrainedBPETrainer, TrainingRules};
use crate::vocab::{lemma_pushed_valid, TokenModel, VocabModel};
use vstd::prelude::*;

verus! {

/// What training changes: the vocabulary, and the words as they are split into its
/// tokens.
#[verifier::ext_equal]
pub struct Training {
    pub vocab: VocabModel,
    pub words: Seq<WordModel>,
}

impl Training {
    pub open spec fn freq(self, p: (usize, usize)) -> nat {
        freq(self.words, p.0, p.1)
    }

    /// A pair that occurs and may be merged.
    pub open spec fn candidate(self, rules: TrainingRules, p: (usize, usize)) -> bool {
        self.freq(p) > 0 && rules.legal(self.vocab, p.0, p.1, self.freq(p))
    }

    /// A pair with its frequency and its priority.
    pub open spec fn entry(self, rules: TrainingRules, p: (usize, usize)) -> MergeCandidate {
        MergeCandidate {
            a: p.0,
            b: p.1,
            priority_key: rules.priority_key(self.vocab, p.0, p.1, self.freq(p)),
            freq_snapshot: self.freq(p) as u64,
        }
    }

    /// The first of the candidates.
    pub open spec fn best(self, rules: TrainingRules, p: (usize, usize)) -> bool {
        &&& self.candidate(rules, p)
        &&& forall|q: (usize, usize)| #[trigger]
            self.candidate(rules, q) && q != p ==> precedes(
                self.entry(rules, p),
                self.entry(rules, q),
            )
    }

    pub open spec fn next_merge(self, rules: TrainingRules) -> Option<(usize, usize)> {
        if exists|p: (usize, usize)| self.best(rules, p) {
            Some(choose|p: (usize, usize)| self.best(rules, p))
        } else {
            None
        }
    }

    /// The vocabulary and the token after the merge of a pair.
    pub open spec fn grown(self, rules: TrainingRules, p: (usize, usize)) -> (VocabModel, usize) {
        self.vocab.merged(p.0, p.1, rules.narrowed(self.vocab, p.0, p.1))
    }

    /// What the merge of a pair leaves.
    pub open spec fn step(self, rules: TrainingRules, p: (usize, usize)) -> Training {
        let (vocab, n) = self.grown(rules, p);
        Training { vocab, words: merged_words(self.words, p.0, p.1, n) }
    }

    /// What training leaves: the first candidate is merged again and again, until the
    /// vocabulary has reached the budget or no candidate is left.
    pub open spec fn trained(self, rules: TrainingRules, budget: nat) -> Training
        decreases token_count(self.words),
    {
        if self.vocab.len() >= budget {
            self
        } else {
            match self.next_merge(rules) {
                None => self,
                Some(p) => {
                    proof {
                        assert(self.best(rules, p));
                        lemma_merged_words_shrink(
                            self.words,
                            p.0,
                            p.1,
                            self.grown(rules, p).1,
                        );
                    }
                    self.step(rules, p).trained(rules, budget)
                },
            }
        }
    }

    /// At every step of a training all frequencies can be counted.
    pub open spec fn countable(self, rules: TrainingRules, budget: nat) -> bool
        decreases token_count(self.words),
    {
        &&& pairs_fit(self.words)
        &&& self.vocab.len() < budget ==> match self.next_merge(rules) {
            None => true,
            Some(p) => {
                proof {
                    assert(self.best(rules, p));
                    lemma_merged_words_shrink(self.words, p.0, p.1, self.grown(rules, p).1);
                }
                self.step(rules, p).countable(rules, budget)
            },
        }
    }
}

/// Where all tokens of the running text can be counted, so can all frequencies, at
/// every step.
pub proof fn law_counted_tokens_keep_training_countable(
    t: Training,
    rules: TrainingRules,
    budget: nat,
)
    requires
        weight(t.words) <= u64::MAX,
    ensures
        t.countable(rules, budget),
        weight(t.trained(rules, budget).words) <= u64::MAX,
    decreases token_count(t.words),
{
    lemma_weight_bounds_pairs(t.words);
    if t.vocab.len() < budget {
        if let Some(p) = t.next_merge(rules) {
            assert(t.best(rules, p));
            lemma_merged_words_shrink(t.words, p.0, p.1, t.grown(rules, p).1);
            law_counted_tokens_keep_training_countable(t.step(rules, p), rules, budget);
        }
    }
}

/// No two pairs are both the first.
proof fn lemma_best_is_next(t: Training, rules: TrainingRules, p: (usize, usize))
    requires
        t.best(rules, p),
    ensures
        t.next_merge(rules) == Some(p),
{
    let q = choose|q: (usize, usize)| t.best(rules, q);
    assert(t.best(rules, q));
    if q != p {
        assert(t.candidate(rules, q));
        assert(t.candidate(rules, p));
    }
}

/// All that a vocabulary held is still there, unchanged.
pub open spec fn extends(old_v: VocabModel, new_v: VocabModel) -> bool {
    &&& old_v.len() <= new_v.len()
    &&& new_v.tokens.take(old_v.tokens.len() as int) == old_v.tokens
    &&& new_v.surfaces.take(old_v.surfaces.len() as int) == old_v.surfaces
    &&& new_v.scripts.take(old_v.scripts.len() as int) == old_v.scripts
    &&& new_v.roots.take(old_v.roots.len() as int) == old_v.roots
    &&& old_v.index.submap_of(new_v.index)
    &&& new_v.strict == old_v.strict
    &&& new_v.ambiguous == old_v.ambiguous
    &&& new_v.confidence == old_v.confidence
}

pub proof fn lemma_merged_extends(v: VocabModel, a: usize, b: usize, roots: Seq<usize>)
    requires
        v.valid(),
        v.len() < usize::MAX,
    ensures
        extends(v, v.merged(a, b, roots).0),
        v.merged(a, b, roots).0.valid(),
        v.merged(a, b, roots).1 < v.merged(a, b, roots).0.len(),
        v.merged(a, b, roots).0.len() <= v.len() + 1,
{
    let w = v.merged(a, b, roots).0;
    let surface = v.surface_of(a) + v.surface_of(b);
    if !v.index.contains_key(surface) {
        let script = w.scripts.last();
        lemma_pushed_valid(v, TokenModel::MergedToken(seq![a, b]), surface, script, roots);
        assert(w.tokens.take(v.tokens.len() as int) =~= v.tokens);
        assert(w.surfaces.take(v.surfaces.len() as int) =~= v.surfaces);
        assert(w.scripts.take(v.scripts.len() as int) =~= v.scripts);
        assert(w.roots.take(v.roots.len() as int) =~= v.roots);
    } else {
        assert(w.tokens.take(v.tokens.len() as int) =~= v.tokens);
        assert(w.surfaces.take(v.surfaces.len() as int) =~= v.surfaces);
        assert(w.scripts.take(v.scripts.len() as int) =~= v.scripts);
        assert(w.roots.take(v.roots.len() as int) =~= v.roots);
    }
}

/// What is said of two known tokens does not change when the vocabulary grows.
proof fn lemma_extends_keeps(
    rules: TrainingRules,
    v: VocabModel,
    w: VocabModel,
    a: usize,
    b: usize,
    f: nat,
)
    requires
        v.valid(),
        w.valid(),
        extends(v, w),
        a < v.len(),
        b < v.len(),
    ensures
        rules.legal(v, a, b, f) == rules.legal(w, a, b, f),
        rules.priority_key(v, a, b, f) == rules.priority_key(w, a, b, f),
{
    assert forall|i: usize| i < v.len() implies #[trigger] v.surface_of(i) == w.surface_of(i)
        && v.roots_of(i) == w.roots_of(i) && v.script_of(i) == w.script_of(i) by {
        assert(w.surfaces.take(v.surfaces.len() as int)[i as int] == w.surfaces[i as int]);
        assert(w.scripts.take(v.scripts.len() as int)[i as int] == w.scripts[i as int]);
        assert(w.roots.take(v.roots.len() as int)[i as int] == w.roots[i as int]);
    }
    assert(v.surface_of(a) == w.surface_of(a));
    assert(v.surface_of(b) == w.surface_of(b));
}

/// A pair that may be merged is made of tokens of the vocabulary.
proof fn lemma_legal_known(rules: TrainingRules, v: VocabModel, a: usize, b: usize, f: nat)
    requires
        v.valid(),
        rules.legal(v, a, b, f),
    ensures
        a < v.len(),
        b < v.len(),
{
}

/// Every candidate stands in the queue with its present priority, and nothing in the
/// queue has a priority that its frequency does not give.
spec fn covers(t: Training, rules: TrainingRules, q: Seq<MergeCandidate>) -> bool {
    &&& forall|p: (usize, usize)| #[trigger]
        t.candidate(rules, p) ==> q.contains(t.entry(rules, p))
    &&& forall|e: MergeCandidate| #[trigger]
        q.contains(e) ==> e.a < t.vocab.len() && e.b < t.vocab.len() && e.priority_key
            == rules.priority_key(t.vocab, e.a, e.b, e.freq_snapshot as nat)
}

/// A covered candidate that comes out first is the one to be merged.
proof fn lemma_first_is_best(
    t: Training,
    rules: TrainingRules,
    q: Seq<MergeCandidate>,
    e: MergeCandidate,
)
    requires
        covers(t, rules, q),
        q.contains(e),
        forall|x: MergeCandidate| #[trigger] q.contains(x) ==> !precedes(x, e),
        e.freq_snapshot == t.freq((e.a, e.b)),
        t.candidate(rules, (e.a, e.b)),
    ensures
        t.best(rules, (e.a, e.b)),
{
    let p = (e.a, e.b);
    assert(t.entry(rules, p) == e);
    assert forall|r: (usize, usize)| #[trigger]
        t.candidate(rules, r) && r != p implies precedes(t.entry(rules, p), t.entry(rules, r)) by {
        assert(q.contains(t.entry(rules, r)));
        assert(!precedes(t.entry(rules, r), e));
    }
}

/// After a merge, the candidates that it did not touch are still covered.
proof fn lemma_step_covers(
    t: Training,
    rules: TrainingRules,
    p: (usize, usize),
    before: Seq<MergeCandidate>,
    q: Seq<MergeCandidate>,
)
    requires
        t.vocab.valid(),
        t.vocab.len() < usize::MAX,
        all_below(t.words, t.vocab.len()),
        covers(t, rules, before),
        forall|x: MergeCandidate| #[trigger]
            before.contains(x) ==> (x.a, x.b) == p || q.contains(x),
        forall|x: MergeCandidate| #[trigger] q.contains(x) ==> before.contains(x),
    ensures
        ({
            let s = t.step(rules, p);
            &&& forall|r: (usize, usize)| #[trigger]
                s.candidate(rules, r) && !touched_pairs(
                    t.words,
                    p.0,
                    p.1,
                    t.grown(rules, p).1,
                ).contains(r) ==> q.contains(s.entry(rules, r))
            &&& forall|e: MergeCandidate| #[trigger]
                q.contains(e) ==> e.a < s.vocab.len() && e.b < s.vocab.len() && e.priority_key
                    == rules.priority_key(s.vocab, e.a, e.b, e.freq_snapshot as nat)
        }),
{
    let s = t.step(rules, p);
    let n = t.grown(rules, p).1;
    lemma_merged_extends(t.vocab, p.0, p.1, rules.narrowed(t.vocab, p.0, p.1));
    assert forall|r: (usize, usize)| #[trigger]
        s.candidate(rules, r) && !touched_pairs(t.words, p.0, p.1, n).contains(
            r,
        ) implies q.contains(s.entry(rules, r)) by {
        assert(r == (r.0, r.1));
        lemma_untouched(t.words, p.0, p.1, n, r.0, r.1);
        assert(s.freq(r) == t.freq(r));
        lemma_freq_below(t.words, t.vocab.len(), r.0, r.1);
        lemma_extends_keeps(rules, t.vocab, s.vocab, r.0, r.1, t.freq(r));
        assert(t.candidate(rules, r));
        assert(before.contains(t.entry(rules, r)));
        assert(t.entry(rules, r) == s.entry(rules, r));
        assert(r != p);
    }
    assert forall|e: MergeCandidate| #[trigger] q.contains(e) implies e.a < s.vocab.len() && e.b
        < s.vocab.len() && e.priority_key == rules.priority_key(
        s.vocab,
        e.a,
        e.b,
        e.freq_snapshot as nat,
    ) by {
        assert(before.contains(e));
        lemma_extends_keeps(rules, t.vocab, s.vocab, e.a, e.b, e.freq_snapshot as nat);
    }
}

/// What a training tells while it runs: how many candidates it began with; after how
/// many merges it has how many tokens and candidates; and how it ended.
#[derive(Debug, Clone, Copy)]
pub enum TrainProgress {
    Seeded { latin: bool, candidates: usize },
    Merged { latin: bool, merges: u64, size: usize, candidates: usize },
    Done { latin: bool, merges: u64, start: usize, size: usize },
}

impl ConstrainedBPETrainer {
    /// The state of a training on `corpus`.
    pub open spec fn training(&self, corpus: &Corpus) -> Training {
        Training { vocab: self.vocab@, words: corpus@ }
    }

    /// Merges the first candidate again and again, until the vocabulary has reached
    /// the budget or no candidate is left. Tells `report` how it goes, at the start, at
    /// the end and after every so many merges; nothing where `progress_every` is zero.
    /// What is told does not change what is trained.
    pub fn train<F: Fn(TrainProgress)>(
        &mut self,
        corpus: &mut Corpus,
        budget: usize,
        progress_every: u64,
        report: &F,
    )
        requires
            forall|p: TrainProgress| #[trigger] call_requires(*report, (p,)),
            old(self).wf(),
            old(corpus).wf(),
            old(self).training(old(corpus)).countable(old(self).rules(), budget as nat),
        ensures
            final(self).wf(),
            final(corpus).wf(),
            final(corpus).budget() == old(corpus).budget(),
            *final(self) == (Self { vocab: final(self).vocab, ..*old(self) }),
            final(self).training(final(corpus)) == old(self).training(old(corpus)).trained(
                old(self).rules(),
                budget as nat,
            ),
            final(self).vocab@.len() >= budget || forall|p: (usize, usize)|
                !(#[trigger] final(self).training(final(corpus)).candidate(
                    old(self).rules(),
                    p,
                )),
    {
        let ghost rules = self.rules();
        let ghost start = self.training(corpus);
        let known = corpus.tokens_below(self.vocab.len());
        let mut queue = self.initialize_heap(corpus);
        let latin = self.latin_pass;
        let start_size = self.vocab.len();
        let mut merges: u64 = 0;
        if progress_every > 0 {
            report(TrainProgress::Seeded { latin, candidates: queue.len() });
        }
        let mut exhausted = false;
        while self.vocab.len() < budget && !exhausted
            invariant
                forall|p: TrainProgress| #[trigger] call_requires(*report, (p,)),
                self.wf(),
                corpus.wf(),
                self.training(corpus).countable(rules, budget as nat),
                queue.wf(),
                corpus.budget() == old(corpus).budget(),
                *self == (Self { vocab: self.vocab, ..*old(self) }),
                self.rules() == rules,
                rules == old(self).rules(),
                start == old(self).training(old(corpus)),
                known ==> all_below(corpus@, self.vocab@.len()),
                covers(self.training(corpus), rules, queue@),
                self.training(corpus).trained(rules, budget as nat) == start.trained(
                    rules,
                    budget as nat,
                ),
                exhausted ==> forall|p: (usize, usize)|
                    !(#[trigger] self.training(corpus).candidate(rules, p)),
            decreases
                    token_count(corpus@),
                    queue@.len(),
                    (if exhausted {
                        0int
                    } else {
                        1int
                    }),
        {
            let ghost now = self.training(corpus);
            let ghost before = queue@;
            match queue.pop() {
                None => {
                    assert forall|p: (usize, usize)| !(#[trigger] now.candidate(rules, p)) by {
                        if now.candidate(rules, p) {
                            assert(before.contains(now.entry(rules, p)));
                        }
                    }
                    exhausted = true;
                },
                Some(c) => {
                    let freq = corpus.get_freq(c.a, c.b);
                    let ghost p = (c.a, c.b);
                    if freq == c.freq_snapshot && freq > 0 && self.legal(c.a, c.b, freq) {
                        proof {
                            lemma_first_is_best(now, rules, before, c);
                            lemma_best_is_next(now, rules, p);
                            lemma_merged_extends(
                                now.vocab,
                                p.0,
                                p.1,
                                rules.narrowed(now.vocab, p.0, p.1),
                            );
                            lemma_merged_words_shrink(now.words, p.0, p.1, now.grown(rules, p).1);
                            assert(now.step(rules, p).countable(rules, budget as nat));
                            assert(pairs_fit(now.step(rules, p).words));
                            if known {
                                lemma_known_step(now, rules, p);
                                lemma_step_covers(now, rules, p, before, queue@);
                            }
                        }
                        let narrowed = self.narrow_root_set(c.a, c.b);
                        let n = self.vocab.create_merged(c.a, c.b, narrowed);
                        let touched = corpus.apply_merge(c.a, c.b, n);
                        assert(self.training(corpus) == now.step(rules, p));
                        if known {
                            self.push_touched(corpus, &touched, &mut queue);
                            assert forall|r: (usize, usize)| #[trigger]
                                self.training(corpus).candidate(rules, r) implies queue@.contains(
                                self.training(corpus).entry(rules, r),
                            ) by {
                                if touched_pairs(now.words, p.0, p.1, n).contains(r) {
                                    assert(touched@.contains(r));
                                }
                            }
                        } else {
                            queue = self.initialize_heap(corpus);
                        }
                        if merges < u64::MAX {
                            merges = merges + 1;
                        }
                        if progress_every > 0 && merges % progress_every == 0 {
                            let size = self.vocab.len();
                            let candidates = queue.len();
                            report(TrainProgress::Merged { latin, merges, size, candidates });
                        }
                    } else {
                        assert(!now.candidate(rules, p) || c != now.entry(rules, p));
                        assert forall|r: (usize, usize)| #[trigger]
                            now.candidate(rules, r) implies queue@.contains(
                            now.entry(rules, r),
                        ) by {
                            assert(before.contains(now.entry(rules, r)));
                            if now.entry(rules, r) == c {
                                assert(r == p);
                                assert(pairs_fit(now.words));
                                assert(crate::corpus::freq(now.words, r.0, r.1) <= u64::MAX);
                            }
                        }
                    }
                },
            }
        }
        if progress_every > 0 {
            let size = self.vocab.len();
            report(TrainProgress::Done { latin, merges, start: start_size, size });
        }
    }

    /// The queue of all candidates.
    fn initialize_heap(&self, corpus: &Corpus) -> (queue: MergeQueue)
        requires
            self.wf(),
            corpus.wf(),
        ensures
            queue.wf(),
            covers(self.training(corpus), self.rules(), queue@),
    {
        let mut queue = MergeQueue::new();
        let pairs = corpus.pairs();
        self.push_touched(corpus, &pairs, &mut queue);
        assert forall|p: (usize, usize)| #[trigger]
            self.training(corpus).candidate(self.rules(), p) implies queue@.contains(
            self.training(corpus).entry(self.rules(), p),
        ) by {
            assert(pairs@.contains(p));
        }
        queue
    }

    /// Puts those of the pairs that may be merged into the queue.
    fn push_touched(&self, corpus: &Corpus, pairs: &Vec<(usize, usize)>, queue: &mut MergeQueue)
        requires
            self.wf(),
            corpus.wf(),
            old(queue).wf(),
        ensures
            final(queue).wf(),
            forall|e: MergeCandidate| #[trigger]
                final(queue)@.contains(e) ==> old(queue)@.contains(e) || (e.a < self.vocab@.len()
                    && e.b < self.vocab@.len() && e.priority_key == self.rules().priority_key(
                    self.vocab@,
                    e.a,
                    e.b,
                    e.freq_snapshot as nat,
                )),
            forall|e: MergeCandidate| #[trigger]
                old(queue)@.contains(e) ==> final(queue)@.contains(e),
            forall|p: (usize, usize)| #[trigger]
                pairs@.contains(p) && self.training(corpus).candidate(self.rules(), p)
                    ==> final(queue)@.contains(self.training(corpus).entry(self.rules(), p)),
    {
        let ghost rules = self.rules();
        let ghost now = self.training(corpus);
        for i in 0..pairs.len()
            invariant
                self.wf(),
                corpus.wf(),
                queue.wf(),
                rules == self.rules(),
                now == self.training(corpus),
                forall|e: MergeCandidate| #[trigger]
                    queue@.contains(e) ==> old(queue)@.contains(e) || (e.a < self.vocab@.len()
                        && e.b < self.vocab@.len() && e.priority_key == rules.priority_key(
                        self.vocab@,
                        e.a,
                        e.b,
                        e.freq_snapshot as nat,
                    )),
                forall|e: MergeCandidate| #[trigger]
                    old(queue)@.contains(e) ==> queue@.contains(e),
                forall|j: int|
                    0 <= j < i && now.candidate(rules, #[trigger] pairs@[j]) ==> queue@.contains(
                        now.entry(rules, pairs@[j]),
                    ),
        {
            let (a, b) = pairs[i];
            let freq = corpus.get_freq(a, b);
            assert(pairs@[i as int] == (a, b));
            assert(now.freq((a, b)) == freq);
            if freq > 0 && self.legal(a, b, freq) {
                let priority_key = self.priority_key(a, b, freq);
                queue.push(MergeCandidate { a, b, priority_key, freq_snapshot: freq });
            }
        }
        assert forall|p: (usize, usize)| #[trigger]
            pairs@.contains(p) && now.candidate(rules, p) implies queue@.contains(
            now.entry(rules, p),
        ) by {
            let j = choose|j: int| 0 <= j < pairs@.len() && pairs@[j] == p;
            assert(now.candidate(rules, pairs@[j]));
        }
    }
}

proof fn lemma_known_step(t: Training, rules: TrainingRules, p: (usize, usize))
    requires
        t.vocab.valid(),
        t.vocab.len() < usize::MAX,
        all_below(t.words, t.vocab.len()),
    ensures
        all_below(t.step(rules, p).words, t.step(rules, p).vocab.len()),
{
    let (v, n) = t.grown(rules, p);
    lemma_merged_extends(t.vocab, p.0, p.1, rules.narrowed(t.vocab, p.0, p.1));
    assert(all_below(t.words, v.len())) by {
        assert forall|j: int, i: int|
            0 <= j < t.words.len() && 0 <= i < t.words[j].0.len() implies #[trigger] t.words[j].0[i]
            < v.len() by {}
    }
    lemma_merged_words_below(t.words, p.0, p.1, n, v.len());
}

/// A token that a merge has made: two earlier tokens of one script, joined. Outside
/// the Latin pass the second one is no seed, the first one no strict seed; the roots
/// are those of the first that allow the second, and there is one if the first has
/// any.
pub open spec fn made_by_merge(rules: TrainingRules, v: VocabModel, i: int) -> bool {
    match v.tokens[i] {
        TokenModel::MergedToken(parts) => {
            let (a, b) = (parts[0], parts[1]);
            &&& parts.len() == 2
            &&& a < i
            &&& b < i
            &&& v.surfaces[i] == v.surface_of(a) + v.surface_of(b)
            &&& v.scripts[i] == v.script_of(a)
            &&& rules.script_compat(v, a, b)
            &&& v.roots[i] == rules.narrowed(v, a, b)
            &&& !rules.latin_pass ==> !v.strict.contains(a) && !v.strict.contains(b)
                && !v.ambiguous.contains(b)
            &&& !rules.latin_pass && v.roots_of(a).len() > 0 ==> v.roots[i].len() > 0
        },
        _ => false,
    }
}

proof fn lemma_made_by_merge_kept(rules: TrainingRules, v: VocabModel, w: VocabModel, i: int)
    requires
        v.valid(),
        w.valid(),
        extends(v, w),
        0 <= i < v.len(),
        made_by_merge(rules, v, i),
    ensures
        made_by_merge(rules, w, i),
{
    let parts = v.tokens[i]->MergedToken_0;
    assert(w.tokens.take(v.tokens.len() as int)[i] == w.tokens[i]);
    assert forall|j: int| 0 <= j < v.len() implies #[trigger] v.surfaces[j] == w.surfaces[j]
        && v.roots[j] == w.roots[j] && v.scripts[j] == w.scripts[j] by {
        assert(w.surfaces.take(v.surfaces.len() as int)[j] == w.surfaces[j]);
        assert(w.scripts.take(v.scripts.len() as int)[j] == w.scripts[j]);
        assert(w.roots.take(v.roots.len() as int)[j] == w.roots[j]);
    }
    assert(v.surfaces[parts[0] as int] == w.surfaces[parts[0] as int]);
    assert(v.surfaces[parts[1] as int] == w.surfaces[parts[1] as int]);
    assert(v.surfaces[i] == w.surfaces[i]);
}

proof fn lemma_narrowed_some(rules: TrainingRules, v: VocabModel, a: usize, b: usize)
    requires
        rules.morph(v, a, b),
        !rules.latin_pass,
        v.roots_of(a).len() > 0,
    ensures
        rules.narrowed(v, a, b).len() > 0,
{
    let r = choose|r: usize|
        v.roots_of(a).contains(r) && #[trigger] licensed(
            rules.paradigms,
            r,
            v.surface_of(a),
            v.surface_of(b),
        );
    let keep = |r: usize| licensed(rules.paradigms, r, v.surface_of(a), v.surface_of(b));
    lemma_filter_holds(v.roots_of(a), keep, r);
}

pub proof fn lemma_filter_holds<T>(s: Seq<T>, keep: spec_fn(T) -> bool, x: T)
    ensures
        s.filter(keep).contains(x) <==> s.contains(x) && keep(x),
    decreases s.len(),
{
    reveal(Seq::filter);
    if s.len() > 0 {
        let front = s.drop_last();
        lemma_filter_holds(front, keep, x);
        crate::akshara::lemma_push_contains(front, s.last(), x);
        assert(front.push(s.last()) =~= s);
        crate::akshara::lemma_push_contains(front.filter(keep), s.last(), x);
    }
}

proof fn lemma_step_grows(t: Training, rules: TrainingRules, p: (usize, usize))
    requires
        t.vocab.valid(),
        t.vocab.len() < usize::MAX,
        t.candidate(rules, p),
    ensures
        ({
            let v = t.step(rules, p).vocab;
            &&& v.valid()
            &&& extends(t.vocab, v)
            &&& v.len() <= t.vocab.len() + 1
            &&& forall|i: int| t.vocab.len() <= i < v.len() ==> #[trigger] made_by_merge(rules, v, i)
        }),
{
    let v = t.vocab;
    let w = t.step(rules, p).vocab;
    lemma_merged_extends(v, p.0, p.1, rules.narrowed(v, p.0, p.1));
    lemma_legal_known(rules, v, p.0, p.1, t.freq(p));
    assert forall|i: int| v.len() <= i < w.len() implies #[trigger] made_by_merge(rules, w, i) by {
        assert(w.surfaces.take(v.surfaces.len() as int)[p.0 as int] == w.surfaces[p.0 as int]);
        assert(w.surfaces.take(v.surfaces.len() as int)[p.1 as int] == w.surfaces[p.1 as int]);
        assert(w.scripts.take(v.scripts.len() as int)[p.0 as int] == w.scripts[p.0 as int]);
        assert(w.scripts.take(v.scripts.len() as int)[p.1 as int] == w.scripts[p.1 as int]);
        assert(w.roots.take(v.roots.len() as int)[p.0 as int] == w.roots[p.0 as int]);
        if !rules.latin_pass && v.roots_of(p.0).len() > 0 {
            lemma_narrowed_some(rules, v, p.0, p.1);
        }
    }
}

/// Training only adds to a vocabulary, and not beyond the budget. What it adds are
/// merges of two tokens of one script that the seeds and the paradigms admit: no token
/// spans two scripts, and strict seeds stay whole.
pub proof fn law_training_adds_admissible_merges(t: Training, rules: TrainingRules, budget: nat)
    requires
        t.vocab.valid(),
        budget <= usize::MAX,
    ensures
        ({
            let v = t.trained(rules, budget).vocab;
            &&& v.valid()
            &&& extends(t.vocab, v)
            &&& v.len() == t.vocab.len() || v.len() <= budget
            &&& forall|i: int| t.vocab.len() <= i < v.len() ==> #[trigger] made_by_merge(rules, v, i)
        }),
    decreases token_count(t.words),
{
    let v = t.vocab;
    assert(v.tokens.take(v.tokens.len() as int) =~= v.tokens);
    assert(v.surfaces.take(v.surfaces.len() as int) =~= v.surfaces);
    assert(v.scripts.take(v.scripts.len() as int) =~= v.scripts);
    assert(v.roots.take(v.roots.len() as int) =~= v.roots);
    if v.len() < budget {
        if let Some(p) = t.next_merge(rules) {
            assert(t.best(rules, p));
            lemma_merged_words_shrink(t.words, p.0, p.1, t.grown(rules, p).1);
            let s = t.step(rules, p);
            lemma_step_grows(t, rules, p);
            law_training_adds_admissible_merges(s, rules, budget);
            let w = t.trained(rules, budget).vocab;
            assert(w == s.trained(rules, budget).vocab);
            assert(w.tokens.take(v.tokens.len() as int) =~= s.vocab.tokens.take(
                v.tokens.len() as int,
            )) by {
                assert(w.tokens.take(s.vocab.tokens.len() as int).take(v.tokens.len() as int)
                    =~= w.tokens.take(v.tokens.len() as int));
            }
            assert(w.surfaces.take(s.vocab.surfaces.len() as int).take(v.surfaces.len() as int)
                =~= w.surfaces.take(v.surfaces.len() as int));
            assert(w.scripts.take(s.vocab.scripts.len() as int).take(v.scripts.len() as int)
                =~= w.scripts.take(v.scripts.len() as int));
            assert(w.roots.take(s.vocab.roots.len() as int).take(v.roots.len() as int)
                =~= w.roots.take(v.roots.len() as int));
            assert forall|i: int| v.len() <= i < w.len() implies #[trigger] made_by_merge(
                rules,
                w,
                i,
            ) by {
                if i < s.vocab.len() {
                    assert(made_by_merge(rules, s.vocab, i));
                    lemma_made_by_merge_kept(rules, s.vocab, w, i);
                }
            }
        }
    }
}

/// A training that is stopped at a smaller budget and taken up again ends where an
/// uninterrupted one ends.
pub proof fn law_resumed_training_is_the_same(
    t: Training,
    rules: TrainingRules,
    stop: nat,
    budget: nat,
)
    requires
        stop <= budget,
    ensures
        t.trained(rules, stop).trained(rules, budget) == t.trained(rules, budget),
    decreases token_count(t.words),
{
    if t.vocab.len() < stop {
        if let Some(p) = t.next_merge(rules) {
            assert(t.best(rules, p));
            lemma_merged_words_shrink(t.words, p.0, p.1, t.grown(rules, p).1);
            law_resumed_training_is_the_same(t.step(rules, p), rules, stop, budget);
        }
    }
}

/// Any pair of a script of higher rank comes before any pair of a script of lower
/// rank, whatever their frequencies.
pub proof fn law_script_rank_dominates(
    t: Training,
    rules: TrainingRules,
    p: (usize, usize),
    q: (usize, usize),
)
    requires
        t.vocab.script_of(p.0).rank() > t.vocab.script_of(q.0).rank(),
    ensures
        precedes(t.entry(rules, p), t.entry(rules, q)),
{
}

/// What is merged is admissible: two tokens of one script, outside the Latin pass
/// without a strict seed and with no seed behind; an ambiguous seed grows only in a
/// pair that is frequent enough; and some root of the first token, if it has any,
/// allows the second.
pub proof fn law_merges_are_admissible(t: Training, rules: TrainingRules, p: (usize, usize))
    requires
        t.next_merge(rules) == Some(p),
    ensures
        t.freq(p) > 0,
        t.vocab.script_of(p.0) == t.vocab.script_of(p.1),
        rules.latin_pass ==> t.vocab.script_of(p.0) == Script::LAT,
        !rules.latin_pass ==> {
            &&& t.vocab.script_of(p.0) == Script::DEV || t.vocab.script_of(p.0) == Script::PUN
            &&& !t.vocab.strict.contains(p.0) && !t.vocab.strict.contains(p.1)
            &&& !t.vocab.ambiguous.contains(p.1)
            &&& t.vocab.ambiguous.contains(p.0) ==> t.freq(p) >= rules.theta
            &&& t.vocab.roots_of(p.0).len() > 0 ==> exists|r: usize|
                t.vocab.roots_of(p.0).contains(r) && #[trigger] licensed(
                    rules.paradigms,
                    r,
                    t.vocab.surface_of(p.0),
                    t.vocab.surface_of(p.1),
                )
        },
{
    assert(t.best(rules, p));
}

/// Training keeps the number of words and their counts, and never makes a word longer.
pub proof fn law_training_shortens_words(t: Training, rules: TrainingRules, budget: nat)
    ensures
        ({
            let r = t.trained(rules, budget);
            &&& r.words.len() == t.words.len()
            &&& forall|i: int|
                0 <= i < t.words.len() ==> (#[trigger] r.words[i]).1 == t.words[i].1
                    && r.words[i].0.len() <= t.words[i].0.len()
        }),
    decreases token_count(t.words),
{
    if t.vocab.len() < budget {
        if let Some(p) = t.next_merge(rules) {
            assert(t.best(rules, p));
            let n = t.grown(rules, p).1;
            lemma_merged_words_shrink(t.words, p.0, p.1, n);
            let s = t.step(rules, p);
            law_training_shortens_words(s, rules, budget);
            assert forall|i: int| 0 <= i < t.words.len() implies (#[trigger] s.words[i]).1
                == t.words[i].1 && s.words[i].0.len() <= t.words[i].0.len() by {
                lemma_merged_word_len(t.words[i].0, p.0, p.1, n);
            }
        }
    }
}

/// The text that a sequence of tokens spells.
pub open spec fn spelled(v: VocabModel, ids: Seq<usize>) -> Seq<char>
    decreases ids.len(),
{
    if ids.len() == 0 {
        Seq::empty()
    } else {
        v.surface_of(ids[0]) + spelled(v, ids.skip(1))
    }
}

proof fn lemma_spelled_extends(v: VocabModel, w: VocabModel, ids: Seq<usize>)
    requires
        v.valid(),
        w.valid(),
        extends(v, w),
        forall|i: int| 0 <= i < ids.len() ==> #[trigger] ids[i] < v.len(),
    ensures
        spelled(v, ids) == spelled(w, ids),
    decreases ids.len(),
{
    if ids.len() > 0 {
        lemma_spelled_extends(v, w, ids.skip(1));
        assert(w.surfaces.take(v.surfaces.len() as int)[ids[0] as int]
            == w.surfaces[ids[0] as int]);
    }
}

proof fn lemma_merged_word_spelled(v: VocabModel, s: Seq<usize>, a: usize, b: usize, n: usize)
    requires
        v.surface_of(n) == v.surface_of(a) + v.surface_of(b),
    ensures
        spelled(v, merged_word(s, a, b, n)) == spelled(v, s),
    decreases s.len(),
{
    if s.len() >= 2 {
        if s[0] == a && s[1] == b {
            let t = seq![n] + s.skip(2);
            lemma_merged_word_spelled(v, t, a, b, n);
            assert(t.skip(1) =~= s.skip(2));
            assert(s.skip(1).skip(1) =~= s.skip(2));
            assert(s.skip(1)[0] == b);
            assert(spelled(v, s.skip(1)) == v.surface_of(b) + spelled(v, s.skip(2)));
            assert(spelled(v, t) == v.surface_of(n) + spelled(v, s.skip(2)));
            assert(v.surface_of(a) + v.surface_of(b) + spelled(v, s.skip(2)) =~= v.surface_of(a)
                + (v.surface_of(b) + spelled(v, s.skip(2))));
        } else {
            lemma_merged_word_spelled(v, s.skip(1), a, b, n);
            let t = merged_word(s, a, b, n);
            assert(t.skip(1) =~= merged_word(s.skip(1), a, b, n));
        }
    }
}

/// Training leaves every word spelled as it was.
pub proof fn law_training_keeps_the_text(t: Training, rules: TrainingRules, budget: nat, i: int)
    requires
        t.vocab.valid(),
        budget <= usize::MAX,
        all_below(t.words, t.vocab.len()),
        0 <= i < t.words.len(),
    ensures
        ({
            let r = t.trained(rules, budget);
            spelled(r.vocab, r.words[i].0) == spelled(t.vocab, t.words[i].0)
        }),
    decreases token_count(t.words),
{
    if t.vocab.len() < budget {
        if let Some(p) = t.next_merge(rules) {
            assert(t.best(rules, p));
            let (v, n) = t.grown(rules, p);
            lemma_merged_words_shrink(t.words, p.0, p.1, n);
            lemma_step_grows(t, rules, p);
            lemma_known_step(t, rules, p);
            lemma_legal_known(rules, t.vocab, p.0, p.1, t.freq(p));
            law_training_keeps_the_text(t.step(rules, p), rules, budget, i);
            let w = t.words[i].0;
            assert forall|k: int| 0 <= k < w.len() implies #[trigger] w[k] < t.vocab.len() by {
                assert(t.words[i].0[k] < t.vocab.len());
            }
            lemma_spelled_extends(t.vocab, v, w);
            lemma_spelled_extends(t.vocab, v, seq![p.0]);
            lemma_spelled_extends(t.vocab, v, seq![p.1]);
            assert(v.surfaces.take(t.vocab.surfaces.len() as int)[p.0 as int]
                == v.surfaces[p.0 as int]);
            assert(v.surfaces.take(t.vocab.surfaces.len() as int)[p.1 as int]
                == v.surfaces[p.1 as int]);
            lemma_merged_word_spelled(v, w, p.0, p.1, n);
        }
    }
}

proof fn lemma_remove_freq(words: Seq<WordModel>, k: int, x: usize, y: usize)
    requires
        0 <= k < words.len(),
    ensures
        freq(words, x, y) == freq(words.remove(k), x, y) + words[k].1 * pair_count(
            words[k].0,
            x,
            y,
        ),
    decreases words.len(),
{
    if k == words.len() - 1 {
        assert(words.remove(k) =~= words.drop_last());
    } else {
        lemma_remove_freq(words.drop_last(), k, x, y);
        assert(words.remove(k).drop_last() =~= words.drop_last().remove(k));
    }
}

/// What a word of one list leaves when it is taken out of both.
proof fn lemma_same_words(p: Seq<WordModel>, q: Seq<WordModel>) -> (k: int)
    requires
        p.to_multiset() == q.to_multiset(),
        p.len() > 0,
    ensures
        0 <= k < q.len(),
        q[k] == p.last(),
        p.drop_last().to_multiset() == q.remove(k).to_multiset(),
{
    let x = p.last();
    vstd::seq_lib::to_multiset_contains(p, x);
    vstd::seq_lib::to_multiset_contains(q, x);
    assert(p[p.len() - 1] == x);
    let k = q.index_of(x);
    vstd::seq_lib::to_multiset_remove(q, k);
    vstd::seq_lib::to_multiset_remove(p, p.len() - 1);
    assert(p.remove(p.len() - 1) =~= p.drop_last());
    k
}

proof fn lemma_same_freq(p: Seq<WordModel>, q: Seq<WordModel>, x: usize, y: usize)
    requires
        p.to_multiset() == q.to_multiset(),
    ensures
        freq(p, x, y) == freq(q, x, y),
    decreases p.len(),
{
    vstd::seq_lib::to_multiset_len(p);
    vstd::seq_lib::to_multiset_len(q);
    if p.len() > 0 {
        let k = lemma_same_words(p, q);
        lemma_same_freq(p.drop_last(), q.remove(k), x, y);
        lemma_remove_freq(q, k, x, y);
    }
}

proof fn lemma_same_merged(p: Seq<WordModel>, q: Seq<WordModel>, a: usize, b: usize, n: usize)
    requires
        p.to_multiset() == q.to_multiset(),
    ensures
        merged_words(p, a, b, n).to_multiset() == merged_words(q, a, b, n).to_multiset(),
    decreases p.len(),
{
    vstd::seq_lib::to_multiset_len(p);
    vstd::seq_lib::to_multiset_len(q);
    let mp = merged_words(p, a, b, n);
    let mq = merged_words(q, a, b, n);
    if p.len() > 0 {
        let k = lemma_same_words(p, q);
        lemma_same_merged(p.drop_last(), q.remove(k), a, b, n);
        assert(mp.drop_last() =~= merged_words(p.drop_last(), a, b, n));
        assert(mq.remove(k) =~= merged_words(q.remove(k), a, b, n));
        vstd::seq_lib::to_multiset_remove(mq, k);
        vstd::seq_lib::to_multiset_remove(mp, mp.len() - 1);
        assert(mp.remove(mp.len() - 1) =~= mp.drop_last());
        vstd::seq_lib::to_multiset_contains(mp, mp.last());
        vstd::seq_lib::to_multiset_contains(mq, mq[k]);
        assert(mp[mp.len() - 1] == mq[k]);
        assert(mp.to_multiset() =~= mp.drop_last().to_multiset().insert(mp.last()));
        assert(mq.to_multiset() =~= mq.remove(k).to_multiset().insert(mq[k]));
    } else {
        assert(mp =~= mq);
    }
}

proof fn lemma_same_next(t: Training, u: Training, rules: TrainingRules)
    requires
        t.vocab == u.vocab,
        t.words.to_multiset() == u.words.to_multiset(),
    ensures
        t.next_merge(rules) == u.next_merge(rules),
{
    assert forall|p: (usize, usize)| #[trigger] t.freq(p) == u.freq(p) by {
        lemma_same_freq(t.words, u.words, p.0, p.1);
    }
    assert forall|p: (usize, usize)| #[trigger]
        t.candidate(rules, p) == u.candidate(rules, p) && t.entry(rules, p) == u.entry(
            rules,
            p,
        ) by {
        assert(t.freq(p) == u.freq(p));
    }
    assert forall|p: (usize, usize)| #[trigger] t.best(rules, p) == u.best(rules, p) by {
        assert(t.candidate(rules, p) == u.candidate(rules, p));
        if t.best(rules, p) {
            assert forall|q: (usize, usize)| #[trigger]
                u.candidate(rules, q) && q != p implies precedes(
                u.entry(rules, p),
                u.entry(rules, q),
            ) by {
                assert(t.candidate(rules, q));
            }
        }
        if u.best(rules, p) {
            assert forall|q: (usize, usize)| #[trigger]
                t.candidate(rules, q) && q != p implies precedes(
                t.entry(rules, p),
                t.entry(rules, q),
            ) by {
                assert(u.candidate(rules, q));
            }
        }
    }
    if exists|p: (usize, usize)| t.best(rules, p) {
        let p = choose|p: (usize, usize)| t.best(rules, p);
        lemma_best_is_next(t, rules, p);
        assert(u.best(rules, p));
        lemma_best_is_next(u, rules, p);
    } else {
        assert forall|p: (usize, usize)| !u.best(rules, p) by {
            assert(!t.best(rules, p));
        }
    }
}

/// Training does not depend on the order in which the words stand: the vocabularies
/// are the same, number for number.
pub proof fn law_training_is_reproducible(
    t: Training,
    u: Training,
    rules: TrainingRules,
    budget: nat,
)
    requires
        t.vocab == u.vocab,
        t.words.to_multiset() == u.words.to_multiset(),
    ensures
        t.trained(rules, budget).vocab == u.trained(rules, budget).vocab,
        t.trained(rules, budget).words.to_multiset() == u.trained(
            rules,
            budget,
        ).words.to_multiset(),
    decreases token_count(t.words),
{
    lemma_same_next(t, u, rules);
    if t.vocab.len() < budget {
        if let Some(p) = t.next_merge(rules) {
            assert(t.best(rules, p));
            let n = t.grown(rules, p).1;
            lemma_merged_words_shrink(t.words, p.0, p.1, n);
            lemma_same_merged(t.words, u.words, p.0, p.1, n);
            law_training_is_reproducible(t.step(rules, p), u.step(rules, p), rules, budget);
        }
    }
}

} // verus!
