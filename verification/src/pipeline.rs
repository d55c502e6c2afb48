//! From texts to a trained vocabulary: counting, training and measuring.

use crate::corpus::{
    counted_words, lemma_weight_bounds_pairs, sequences_fit, single_words, weight, weight_fits,
    Corpus, WordModel,
};
use crate::counting::{distinct_words, lemma_tallied_concat, tallied, total_len, WordCounts};
use crate::encoding::EncoderModel;
use crate::harvest::{akshara_units, aksharas_of, count_sum, TextCounts};
use crate::paradigm::ParadigmRegistry;
use crate::text::{chars_of, is_ascii_alphanumeric, split_words, string_of, texts, words};
use crate::tokenizer::HimalayanTokenization;
use crate::trainer::{ConstrainedBPETrainer, TrainingRules};
use crate::training::{law_counted_tokens_keep_training_countable, TrainProgress, Training};
use crate::vocab::{tagged_roots, VocabModel, Vocabulary};
use vstd::prelude::*;

verus! {

/// Why there was no training.
#[derive(Debug, Clone, Copy, PartialEq, Eq)]
pub enum TrainError {
    /// A Latin pass needs a vocabulary to add to.
    EmptyVocabulary,
    /// The corpus has more tokens than can be counted.
    CorpusTooLarge,
}

/// Whether a text has an ASCII letter or digit.
pub open spec fn has_alphanumeric(s: Seq<char>) -> bool {
    exists|i: int| 0 <= i < s.len() && is_ascii_alphanumeric(#[trigger] s[i])
}

/// The tokens of words; words without tokens are left out, and in a Latin count those
/// without an ASCII letter or digit too.
pub open spec fn word_tokens(e: EncoderModel, ws: Seq<Seq<char>>, latin_only: bool) -> Seq<
    Seq<usize>,
>
    decreases ws.len(),
{
    if ws.len() == 0 {
        Seq::empty()
    } else {
        let front = word_tokens(e, ws.drop_last(), latin_only);
        let ids = e.encoded(ws.last());
        if ids.len() == 0 || (latin_only && !has_alphanumeric(ws.last())) {
            front
        } else {
            front.push(ids)
        }
    }
}

pub proof fn lemma_word_tokens(e: EncoderModel, ws: Seq<Seq<char>>, latin_only: bool)
    ensures
        forall|i: int|
            0 <= i < word_tokens(e, ws, latin_only).len() ==> (#[trigger] word_tokens(
                e,
                ws,
                latin_only,
            )[i]).len() > 0,
    decreases ws.len(),
{
    if ws.len() > 0 {
        lemma_word_tokens(e, ws.drop_last(), latin_only);
        let all = word_tokens(e, ws, latin_only);
        let front = word_tokens(e, ws.drop_last(), latin_only);
        assert forall|i: int| 0 <= i < all.len() implies (#[trigger] all[i]).len() > 0 by {
            if i < front.len() {
                assert(all[i] == front[i]);
            }
        }
    }
}

fn any_alphanumeric(w: &Vec<char>) -> (yes: bool)
    ensures
        yes == has_alphanumeric(w@),
{
    for i in 0..w.len()
        invariant
            forall|j: int| 0 <= j < i ==> !is_ascii_alphanumeric(#[trigger] w@[j]),
    {
        if is_ascii_alphanumeric(w[i]) {
            return true;
        }
    }
    false
}

impl HimalayanTokenization {
    /// The rules that a training of this tokenizer goes by.
    pub open spec fn training_rules(&self, theta: u64, latin_pass: bool) -> TrainingRules {
        TrainingRules {
            paradigms: self.paradigm_registry@,
            theta,
            latin_pass,
            prior: self.root_prior@,
            weights: self.token_weight@,
            probabilistic: self.use_probabilistic_k,
            cap: self.root_set_cap,
        }
    }

    /// The vocabulary with its tokens tagged with roots.
    pub open spec fn tagged_vocab(&self) -> VocabModel {
        VocabModel {
            roots: tagged_roots(self.vocab@, self.paradigm_registry@, self.root_prior@),
            ..self.vocab@
        }
    }

    /// The words of a line, as tokens.
    pub open spec fn line_words(&self, line: Seq<char>, latin_only: bool) -> Seq<Seq<usize>> {
        word_tokens(self.encoder(), words(self.normalizer.normalized(line)), latin_only)
    }

    /// The words of all lines, as tokens.
    pub open spec fn corpus_words(&self, lines: Seq<Seq<char>>, latin_only: bool) -> Seq<Seq<usize>>
        decreases lines.len(),
    {
        if lines.len() == 0 {
            Seq::empty()
        } else {
            self.corpus_words(lines.drop_last(), latin_only) + self.line_words(
                lines.last(),
                latin_only,
            )
        }
    }

    /// Counts the words of a line and gives their number. Nothing is counted where the
    /// tokens would be too many to count.
    pub fn count_line(&self, counts: &mut WordCounts, line: &str, latin_only: bool) -> (n: Option<
        usize,
    >)
        requires
            self.wf(),
            old(counts).wf(),
        ensures
            final(counts).wf(),
            match n {
                Some(n) => n == self.line_words(line@, latin_only).len() && final(counts)@
                    == tallied(old(counts)@, self.line_words(line@, latin_only)) && weight(
                    final(counts)@,
                ) == weight(old(counts)@) + total_len(self.line_words(line@, latin_only)),
                None => weight(old(counts)@) + total_len(self.line_words(line@, latin_only))
                    > u64::MAX && final(counts)@ == old(counts)@,
            },
    {
        let normalized = self.normalizer.normalize(line);
        let chars = chars_of(normalized.as_str());
        let list = split_words(&chars);
        let ghost e = self.encoder();
        let ghost ws = words(normalized@);
        let ghost goal = self.line_words(line@, latin_only);
        let ghost view = |w: Vec<usize>| w@;
        let mut encoded: Vec<Vec<usize>> = Vec::new();
        let mut total: u128 = counts.total() as u128;
        let n = list.len();
        assert(encoded@.map_values(view) =~= word_tokens(e, ws.take(0), latin_only));
        for i in 0..n
            invariant
                self.wf(),
                e == self.encoder(),
                n == list@.len(),
                ws == list@.map_values(|w: Vec<char>| w@),
                view == (|w: Vec<usize>| w@),
                encoded@.map_values(view) == word_tokens(e, ws.take(i as int), latin_only),
                total == weight(counts@) + total_len(encoded@.map_values(view)),
                total <= u64::MAX as u128 + i * 0xFFFF_FFFF_FFFF_FFFF,
        {
            assert(ws.take(i + 1).drop_last() =~= ws.take(i as int));
            assert(ws[i as int] == list@[i as int]@);
            let word = string_of(&list[i], 0, list[i].len());
            assert(word@ =~= ws[i as int]);
            if !latin_only || any_alphanumeric(&list[i]) {
                let ids = self.encode_normalized(word.as_str());
                if ids.len() > 0 {
                    let ghost before = encoded@.map_values(view);
                    total = total + ids.len() as u128;
                    encoded.push(ids);
                    assert(encoded@.map_values(view) =~= before.push(ids@));
                    assert(before.push(ids@).drop_last() =~= before);
                }
            }
        }
        assert(ws.take(n as int) =~= ws);
        assert(encoded@.map_values(view) == goal);
        if total > u64::MAX as u128 {
            return None;
        }
        proof {
            lemma_word_tokens(e, ws, latin_only);
        }
        let ghost before = counts@;
        for i in 0..encoded.len()
            invariant
                counts.wf(),
                view == (|w: Vec<usize>| w@),
                goal == encoded@.map_values(view),
                forall|j: int| 0 <= j < goal.len() ==> (#[trigger] goal[j]).len() > 0,
                weight(before) + total_len(goal) <= u64::MAX,
                counts@ == tallied(before, goal.take(i as int)),
                weight(counts@) == weight(before) + total_len(goal.take(i as int)),
        {
            proof {
                assert(goal[i as int] == encoded@[i as int]@);
                assert(goal.take(i + 1).drop_last() =~= goal.take(i as int));
                lemma_tallied_concat(before, goal.take(i + 1), goal.skip(i + 1));
                assert(goal.take(i + 1) + goal.skip(i + 1) =~= goal);
                crate::counting::lemma_counted_once_more(counts@, goal[i as int]);
            }
            counts.add_word(&encoded[i]);
        }
        assert(goal.take(goal.len() as int) =~= goal);
        Some(encoded.len())
    }

    /// Trains on a corpus, up to the budget.
    fn train_pass<F: Fn(TrainProgress)>(
        &mut self,
        corpus: &mut Corpus,
        budget: usize,
        theta: u64,
        latin_pass: bool,
        progress_every: u64,
        report: &F,
    )
        requires
            forall|p: TrainProgress| #[trigger] call_requires(*report, (p,)),
            old(self).wf(),
            old(corpus).wf(),
            weight(old(corpus)@) <= u64::MAX,
        ensures
            final(self).wf(),
            final(corpus).wf(),
            weight(final(corpus)@) <= u64::MAX,
            *final(self) == (Self { vocab: final(self).vocab, ..*old(self) }),
            (Training { vocab: final(self).vocab@, words: final(corpus)@ }) == (Training {
                vocab: old(self).vocab@,
                words: old(corpus)@,
            }).trained(old(self).training_rules(theta, latin_pass), budget as nat),
    {
        let mut trainer = ConstrainedBPETrainer::new(Vocabulary::new(), ParadigmRegistry::new());
        trainer.theta = theta;
        trainer.latin_pass = latin_pass;
        trainer.use_probabilistic_k = self.use_probabilistic_k;
        trainer.root_set_cap = self.root_set_cap;
        std::mem::swap(&mut trainer.vocab, &mut self.vocab);
        std::mem::swap(&mut trainer.paradigm_registry, &mut self.paradigm_registry);
        std::mem::swap(&mut trainer.root_prior, &mut self.root_prior);
        std::mem::swap(&mut trainer.token_weight, &mut self.token_weight);
        assert(trainer.rules() =~= old(self).training_rules(theta, latin_pass));
        proof {
            law_counted_tokens_keep_training_countable(
                trainer.training(corpus),
                trainer.rules(),
                budget as nat,
            );
        }
        trainer.train(corpus, budget, progress_every, report);
        std::mem::swap(&mut trainer.vocab, &mut self.vocab);
        std::mem::swap(&mut trainer.paradigm_registry, &mut self.paradigm_registry);
        std::mem::swap(&mut trainer.root_prior, &mut self.root_prior);
        std::mem::swap(&mut trainer.token_weight, &mut self.token_weight);
    }

    /// Trains on token sequences, each a word of its own, and gives the size of the
    /// vocabulary.
    pub fn train_bpe(&mut self, sequences: Vec<Vec<usize>>, vocab_budget: usize, theta: u64) -> (r:
        Result<usize, TrainError>)
        requires
            old(self).wf(),
        ensures
            final(self).wf(),
            *final(self) == (Self { vocab: final(self).vocab, ..*old(self) }),
            match r {
                Ok(n) => weight(single_words(sequences@)) <= u64::MAX
                    && n == final(self).vocab@.len() && final(self).vocab@ == (Training {
                    vocab: old(self).tagged_vocab(),
                    words: single_words(sequences@),
                }).trained(old(self).training_rules(theta, false), vocab_budget as nat).vocab,
                Err(e) => e == TrainError::CorpusTooLarge && weight(single_words(sequences@))
                    > u64::MAX && *final(self) == *old(self),
            },
    {
        if !sequences_fit(&sequences) {
            return Err(TrainError::CorpusTooLarge);
        }
        self.assign_initial_roots();
        proof {
            lemma_weight_bounds_pairs(single_words(sequences@));
        }
        let mut corpus = Corpus::from_sequences(sequences, vocab_budget);
        let quiet = |_progress: TrainProgress| {};
        self.train_pass(&mut corpus, vocab_budget, theta, false, 0, &quiet);
        Ok(self.vocab.len())
    }

    /// Trains on counted words and gives the size of the vocabulary.
    pub fn train_words<F: Fn(TrainProgress)>(
        &mut self,
        counts: Vec<(Vec<usize>, u64)>,
        vocab_budget: usize,
        theta: u64,
        progress_every: u64,
        report: &F,
    ) -> (r: Result<usize, TrainError>)
        requires
            forall|p: TrainProgress| #[trigger] call_requires(*report, (p,)),
            old(self).wf(),
        ensures
            final(self).wf(),
            *final(self) == (Self { vocab: final(self).vocab, ..*old(self) }),
            match r {
                Ok(n) => weight(counted_words(counts@)) <= u64::MAX
                    && n == final(self).vocab@.len() && final(self).vocab@ == (Training {
                    vocab: old(self).tagged_vocab(),
                    words: counted_words(counts@),
                }).trained(old(self).training_rules(theta, false), vocab_budget as nat).vocab,
                Err(e) => e == TrainError::CorpusTooLarge && weight(counted_words(counts@))
                    > u64::MAX && *final(self) == *old(self),
            },
    {
        if !weight_fits(&counts) {
            return Err(TrainError::CorpusTooLarge);
        }
        self.assign_initial_roots();
        proof {
            lemma_weight_bounds_pairs(counted_words(counts@));
        }
        let mut corpus = Corpus::from_word_counts(counts, vocab_budget);
        self.train_pass(&mut corpus, vocab_budget, theta, false, progress_every, report);
        Ok(self.vocab.len())
    }

    /// Trains on the words of texts and gives the size of the vocabulary. Words are
    /// what white space parts, so that no merge spans two of them.
    pub fn train_from_text(&mut self, lines: Vec<String>, vocab_budget: usize, theta: u64) -> (r:
        Result<usize, TrainError>)
        requires
            old(self).wf(),
        ensures
            final(self).wf(),
            *final(self) == (Self { vocab: final(self).vocab, ..*old(self) }),
            ({
                let ws = old(self).corpus_words(texts(lines@), false);
                match r {
                    Ok(n) => total_len(ws) <= u64::MAX && n == final(self).vocab@.len()
                        && final(self).vocab@ == (Training {
                        vocab: old(self).tagged_vocab(),
                        words: tallied(Seq::<WordModel>::empty(), ws),
                    }).trained(old(self).training_rules(theta, false), vocab_budget as nat).vocab,
                    Err(e) => e == TrainError::CorpusTooLarge && total_len(ws) > u64::MAX
                        && *final(self) == *old(self),
                }
            }),
    {
        let mut counts = WordCounts::new();
        let ghost list = texts(lines@);
        let ghost none = Seq::<WordModel>::empty();
        for i in 0..lines.len()
            invariant
                self.wf(),
                *self == *old(self),
                counts.wf(),
                list == texts(lines@),
                none == Seq::<WordModel>::empty(),
                counts@ == tallied(none, self.corpus_words(list.take(i as int), false)),
                weight(counts@) == total_len(self.corpus_words(list.take(i as int), false)),
        {
            let ghost before = self.corpus_words(list.take(i as int), false);
            let ghost more = self.line_words(list[i as int], false);
            proof {
                assert(list.take(i + 1).drop_last() =~= list.take(i as int));
                lemma_tallied_concat(none, before, more);
                lemma_corpus_words_len(self, list, i + 1);
            }
            match self.count_line(&mut counts, lines[i].as_str(), false) {
                Some(_) => {},
                None => {
                    return Err(TrainError::CorpusTooLarge);
                },
            }
        }
        assert(list.take(list.len() as int) =~= list);
        let kept = counts.at_least(1);
        proof {
            counts.lemma_distinct();
            lemma_all_kept(counts@);
        }
        let quiet = |_progress: TrainProgress| {};
        self.train_words(kept, vocab_budget, theta, 0, &quiet)
    }

    /// Trains on counted words in two passes, first on Devanagari and punctuation up
    /// to the first budget, then on Latin up to the sum of both, and gives the sizes
    /// after each pass.
    pub fn train_bilingual<F: Fn(TrainProgress)>(
        &mut self,
        counts: Vec<(Vec<usize>, u64)>,
        dev_budget: usize,
        lat_budget: usize,
        theta: u64,
        progress_every: u64,
        report: &F,
    ) -> (r: Result<(usize, usize), TrainError>)
        requires
            forall|p: TrainProgress| #[trigger] call_requires(*report, (p,)),
            old(self).wf(),
            dev_budget + lat_budget <= usize::MAX,
        ensures
            final(self).wf(),
            *final(self) == (Self { vocab: final(self).vocab, ..*old(self) }),
            match r {
                Ok((after_dev, after_lat)) => weight(counted_words(counts@)) <= u64::MAX && ({
                    let dev = (Training {
                        vocab: old(self).tagged_vocab(),
                        words: counted_words(counts@),
                    }).trained(old(self).training_rules(theta, false), dev_budget as nat);
                    let lat = dev.trained(
                        old(self).training_rules(theta, true),
                        (dev_budget + lat_budget) as nat,
                    );
                    &&& after_dev == dev.vocab.len()
                    &&& after_lat == lat.vocab.len()
                    &&& final(self).vocab@ == lat.vocab
                }),
                Err(e) => e == TrainError::CorpusTooLarge && weight(counted_words(counts@))
                    > u64::MAX && *final(self) == *old(self),
            },
    {
        if !weight_fits(&counts) {
            return Err(TrainError::CorpusTooLarge);
        }
        self.assign_initial_roots();
        let total_budget = dev_budget + lat_budget;
        proof {
            lemma_weight_bounds_pairs(counted_words(counts@));
        }
        let mut corpus = Corpus::from_word_counts(counts, total_budget);
        self.train_pass(&mut corpus, dev_budget, theta, false, progress_every, report);
        let after_dev = self.vocab.len();
        self.train_pass(&mut corpus, total_budget, theta, true, progress_every, report);
        let after_lat = self.vocab.len();
        Ok((after_dev, after_lat))
    }

    /// Trains a Latin pass on counted words, for so many more tokens, and gives the
    /// size of the vocabulary.
    pub fn train_latin<F: Fn(TrainProgress)>(
        &mut self,
        counts: Vec<(Vec<usize>, u64)>,
        lat_budget: usize,
        progress_every: u64,
        report: &F,
    ) -> (r: Result<usize, TrainError>)
        requires
            forall|p: TrainProgress| #[trigger] call_requires(*report, (p,)),
            old(self).wf(),
            old(self).vocab@.len() + lat_budget <= usize::MAX,
        ensures
            final(self).wf(),
            *final(self) == (Self { vocab: final(self).vocab, ..*old(self) }),
            match r {
                Ok(n) => old(self).vocab@.len() > 0 && weight(counted_words(counts@)) <= u64::MAX
                    && n == final(self).vocab@.len() && final(self).vocab@ == (Training {
                    vocab: old(self).vocab@,
                    words: counted_words(counts@),
                }).trained(
                    old(self).training_rules(100, true),
                    (old(self).vocab@.len() + lat_budget) as nat,
                ).vocab,
                Err(TrainError::EmptyVocabulary) => old(self).vocab@.len() == 0 && *final(self)
                    == *old(self),
                Err(TrainError::CorpusTooLarge) => old(self).vocab@.len() > 0 && weight(
                    counted_words(counts@),
                ) > u64::MAX && *final(self) == *old(self),
            },
    {
        if self.vocab.is_empty() {
            return Err(TrainError::EmptyVocabulary);
        }
        if !weight_fits(&counts) {
            return Err(TrainError::CorpusTooLarge);
        }
        let target = self.vocab.len() + lat_budget;
        proof {
            lemma_weight_bounds_pairs(counted_words(counts@));
        }
        let mut corpus = Corpus::from_word_counts(counts, target);
        self.train_pass(&mut corpus, target, 100, true, progress_every, report);
        Ok(self.vocab.len())
    }

    /// Counts the aksharas of a line. Nothing is counted, and the answer is no, where
    /// they would be too many to count.
    pub fn harvest_line(&self, counts: &mut TextCounts, line: &str) -> (fits: bool)
        requires
            self.wf(),
            old(counts).wf(),
        ensures
            final(counts).wf(),
            ({
                let units = akshara_units(self.akshara_dfa@, self.normalizer.normalized(line@));
                &&& fits == (count_sum(old(counts)@) + units.len() <= u64::MAX)
                &&& final(counts)@ == (if fits {
                    tallied(old(counts)@, units)
                } else {
                    old(counts)@
                })
            }),
    {
        let normalized = self.normalizer.normalize(line);
        let units = aksharas_of(&self.akshara_dfa, normalized.as_str());
        let ghost us = texts(units@);
        let n = units.len();
        if n as u128 + counts.total() as u128 > u64::MAX as u128 {
            return false;
        }
        for i in 0..n
            invariant
                counts.wf(),
                us == texts(units@),
                n == us.len(),
                counts@ == tallied(old(counts)@, us.take(i as int)),
                count_sum(counts@) == count_sum(old(counts)@) + i,
                count_sum(old(counts)@) + n <= u64::MAX,
        {
            assert(us.take(i + 1).drop_last() =~= us.take(i as int));
            assert(us[i as int] == units@[i as int]@);
            counts.add_text(&units[i]);
        }
        assert(us.take(n as int) =~= us);
        true
    }
}

/// A word list grows with the lines.
proof fn lemma_corpus_words_len(t: &HimalayanTokenization, lines: Seq<Seq<char>>, k: int)
    requires
        0 <= k <= lines.len(),
    ensures
        total_len(t.corpus_words(lines.take(k), false)) <= total_len(t.corpus_words(lines, false)),
    decreases lines.len(),
{
    if k < lines.len() {
        lemma_corpus_words_len(t, lines.drop_last(), k);
        assert(lines.drop_last().take(k) =~= lines.take(k));
        lemma_tallied_concat(
            Seq::<WordModel>::empty(),
            t.corpus_words(lines.drop_last(), false),
            t.line_words(lines.last(), false),
        );
    } else {
        assert(lines.take(k) =~= lines);
    }
}

/// Every counted word was counted at least once.
proof fn lemma_all_kept(t: Seq<WordModel>)
    requires
        distinct_words(t),
    ensures
        crate::counting::kept(t, 1) == t,
    decreases t.len(),
{
    reveal(Seq::filter);
    if t.len() > 0 {
        let front = t.drop_last();
        assert(distinct_words(front)) by {
            assert forall|i: int, j: int|
                0 <= i < front.len() && 0 <= j < front.len() && i != j implies (
            #[trigger] front[i]).0 != (#[trigger] front[j]).0 by {
                assert(t[i].0 != t[j].0);
            }
            assert forall|i: int| 0 <= i < front.len() implies (#[trigger] front[i]).1 > 0 by {
                assert(t[i].1 > 0);
            }
        }
        lemma_all_kept(front);
        assert(t[t.len() - 1].1 > 0);
        assert(front.push(t.last()) =~= t);
    } else {
        assert(crate::counting::kept(t, 1) =~= t);
    }
}

} // verus!
