use himalayan_tokenization::akshara::Akshara;
use himalayan_tokenization::corpus::{sequences_fit, weight_fits, Corpus};
use himalayan_tokenization::counting::WordCounts;
use himalayan_tokenization::merge_queue::{MergeCandidate, MergeQueue};
use himalayan_tokenization::pair_map::PairMap;
use himalayan_tokenization::paradigm::{Paradigm, ParadigmRegistry};
use himalayan_tokenization::script::bytes_to_unicode;
use himalayan_tokenization::trainer::ConstrainedBPETrainer;
use himalayan_tokenization::training::TrainProgress;
use himalayan_tokenization::vocab::{Vocabulary, WEIGHT_ONE};
use std::cell::RefCell;

fn quiet(_progress: TrainProgress) {}

fn texts(list: &[&str]) -> Vec<String> {
    list.iter().map(|s| s.to_string()).collect()
}

fn vocabulary(aksharas: &[&str], seeds: &[&str], strict: &[&str], ambiguous: &[&str]) -> Vocabulary {
    let mut v = Vocabulary::new();
    v.initialize(
        aksharas
            .iter()
            .map(|s| Akshara { surface: s.to_string(), root_set: Vec::new() })
            .collect(),
        texts(seeds),
        texts(&["।", "!", "?"]),
        texts(strict),
        texts(ambiguous),
        &bytes_to_unicode(),
    );
    v
}

fn trainer(aksharas: &[&str]) -> ConstrainedBPETrainer {
    ConstrainedBPETrainer::new(vocabulary(aksharas, &[], &[], &[]), ParadigmRegistry::new())
}

fn find(t: &ConstrainedBPETrainer, s: &str) -> usize {
    t.vocab.get_id_by_surface(s).unwrap()
}

fn new_surfaces(t: &ConstrainedBPETrainer, from: usize) -> Vec<String> {
    (from..t.vocab.len()).map(|i| t.vocab.get_surface(i).unwrap()).collect()
}

#[test]
fn pairs_are_found_under_both_numbers() {
    let mut m: PairMap<u64> = PairMap::new();
    assert!(m.is_empty());
    m.insert(1, 2, 10);
    m.insert(2, 1, 20);
    m.insert(usize::MAX, 0, 30);
    assert_eq!(m.get(1, 2), Some(10));
    assert_eq!(m.get(2, 1), Some(20));
    assert_eq!(m.get(usize::MAX, 0), Some(30));
    assert_eq!(m.get(0, usize::MAX), None);
    m.remove(1, 2);
    assert_eq!(m.get(1, 2), None);
    let mut keys = m.keys();
    keys.sort();
    assert_eq!(keys, vec![(2, 1), (usize::MAX, 0)]);
}

#[test]
fn frequencies_count_words_as_often_as_they_occur() {
    let c = Corpus::from_word_counts(vec![(vec![1, 2, 1, 2], 3), (vec![2, 1], 5)], 0);
    assert_eq!(c.get_freq(1, 2), 6);
    assert_eq!(c.get_freq(2, 1), 8);
    assert_eq!(c.get_freq(2, 2), 0);
    let mut pairs = c.pairs();
    pairs.sort();
    assert_eq!(pairs, vec![(1, 2), (2, 1)]);
}

#[test]
fn a_merge_replaces_from_left_to_right() {
    let mut c = Corpus::from_sequences(vec![vec![1, 1, 1, 2], vec![3, 1, 1, 1, 1]], 0);
    assert_eq!(c.get_freq(1, 1), 5);
    let mut touched = c.apply_merge(1, 1, 9);
    touched.sort();
    // The words are now 9 1 2 and 3 9 9.
    assert_eq!(c.get_freq(1, 1), 0);
    assert_eq!(c.get_freq(9, 1), 1);
    assert_eq!(c.get_freq(1, 2), 1);
    assert_eq!(c.get_freq(3, 9), 1);
    assert_eq!(c.get_freq(9, 9), 1);
    assert_eq!(c.get_freq(3, 1), 0);
    assert!(touched.contains(&(3, 1)) && touched.contains(&(3, 9)));
    assert!(touched.contains(&(9, 1)) && touched.contains(&(9, 9)));
    assert!(!touched.contains(&(1, 2)));
}

#[test]
fn a_merge_never_joins_two_words() {
    let mut c = Corpus::from_sequences(vec![vec![1], vec![2]], 0);
    assert_eq!(c.get_freq(1, 2), 0);
    assert!(c.apply_merge(1, 2, 3).is_empty());
    assert!(c.pairs().is_empty());
}

#[test]
fn only_the_frequencies_of_pairs_need_to_fit() {
    let c = Corpus::from_word_counts(
        vec![(vec![0], u64::MAX), (vec![1, 2, 3], u64::MAX), (vec![4], 7)],
        0,
    );
    assert_eq!(c.get_freq(1, 2), u64::MAX);
    let mut c = c;
    c.apply_merge(1, 2, 9);
    assert_eq!(c.get_freq(9, 3), u64::MAX);
    assert_eq!(c.get_freq(1, 2), 0);
}

#[test]
fn too_many_tokens_are_noticed() {
    assert!(weight_fits(&vec![(vec![1, 2], u64::MAX / 2)]));
    assert!(!weight_fits(&vec![(vec![1, 2], u64::MAX / 2 + 1)]));
    assert!(!weight_fits(&vec![(vec![1], u64::MAX), (vec![1], 1)]));
    assert!(weight_fits(&vec![(vec![], u64::MAX), (vec![1], u64::MAX)]));
    assert!(sequences_fit(&vec![vec![1, 2, 3], vec![]]));
}

fn candidate(rank: u8, key: u64, a: usize, b: usize) -> MergeCandidate {
    MergeCandidate { a, b, priority_key: (rank, key), freq_snapshot: 1 }
}

#[test]
fn the_queue_gives_the_first_candidate() {
    let mut q = MergeQueue::new();
    let list = [
        candidate(1, 900, 1, 1),
        candidate(2, 5, 4, 4),
        candidate(2, 7, 3, 1),
        candidate(2, 7, 2, 9),
        candidate(2, 7, 2, 8),
        candidate(0, u64::MAX, 0, 0),
        candidate(2, 5, 4, 3),
    ];
    for c in list {
        q.push(c);
    }
    let mut order: Vec<(usize, usize)> = Vec::new();
    while let Some(c) = q.pop() {
        order.push((c.a, c.b));
    }
    assert_eq!(order, vec![(2, 8), (2, 9), (3, 1), (4, 3), (4, 4), (1, 1), (0, 0)]);
    assert!(q.pop().is_none());
}

#[test]
fn words_are_counted_in_the_order_of_their_first_occurrence() {
    let mut c = WordCounts::new();
    for w in [vec![1, 2], vec![1], vec![1, 2, 3], vec![1, 2], vec![2], vec![1, 2]] {
        c.add_word(&w);
    }
    assert_eq!(c.len(), 4);
    assert_eq!(c.total(), 11);
    assert_eq!(
        c.at_least(1),
        vec![(vec![1, 2], 3), (vec![1], 1), (vec![1, 2, 3], 1), (vec![2], 1)]
    );
    assert_eq!(c.at_least(2), vec![(vec![1, 2], 3)]);
    assert!(c.at_least(4).is_empty());
}

#[test]
fn the_most_frequent_pair_is_merged_first() {
    let mut t = trainer(&["क", "ख", "ग"]);
    let start = t.vocab.len();
    let mut c = Corpus::from_word_counts(vec![(vec![0, 1], 2), (vec![1, 2], 3)], 0);
    t.train(&mut c, start + 1, 0, &quiet);
    assert_eq!(new_surfaces(&t, start), vec!["खग"]);
    t.train(&mut c, start + 5, 0, &quiet);
    assert_eq!(new_surfaces(&t, start), vec!["खग", "कख"]);
    assert!(c.pairs().is_empty());
}

#[test]
fn of_equal_pairs_the_smaller_one_is_merged_first() {
    let mut t = trainer(&["क", "ख", "ग", "घ"]);
    let start = t.vocab.len();
    let mut c = Corpus::from_sequences(vec![vec![2, 3], vec![0, 3], vec![0, 1]], 0);
    t.train(&mut c, start + 3, 0, &quiet);
    assert_eq!(new_surfaces(&t, start), vec!["कख", "कघ", "गघ"]);
}

#[test]
fn any_devanagari_pair_comes_before_any_punctuation_pair() {
    let mut t = trainer(&["क", "ख"]);
    let start = t.vocab.len();
    let (bang, what) = (find(&t, "!"), find(&t, "?"));
    let mut c = Corpus::from_word_counts(vec![(vec![bang, what], 1000), (vec![0, 1], 1)], 0);
    t.train(&mut c, start + 2, 0, &quiet);
    assert_eq!(new_surfaces(&t, start), vec!["कख", "!?"]);
}

#[test]
fn no_merge_spans_two_scripts() {
    let mut t = trainer(&["क"]);
    let start = t.vocab.len();
    let (danda, a, byte, joiner) =
        (find(&t, "।"), find(&t, "a"), find(&t, "\u{100}"), find(&t, "\u{200C}"));
    let words = vec![
        vec![0, danda],
        vec![0, a],
        vec![byte, byte],
        vec![joiner, joiner],
        vec![a, a],
    ];
    let mut c = Corpus::from_sequences(words.clone(), 0);
    t.train(&mut c, start + 10, 0, &quiet);
    assert_eq!(t.vocab.len(), start);
    t.latin_pass = true;
    let mut c = Corpus::from_sequences(words, 0);
    t.train(&mut c, start + 10, 0, &quiet);
    assert_eq!(new_surfaces(&t, start), vec!["aa"]);
}

#[test]
fn strict_seeds_stay_whole_and_ambiguous_ones_grow_above_the_threshold() {
    let v = vocabulary(&["क", "ख"], &["एक", "दुई"], &["एक"], &["दुई"]);
    let mut t = ConstrainedBPETrainer::new(v, ParadigmRegistry::new());
    let (strict, ambiguous) = (find(&t, "एक"), find(&t, "दुई"));
    assert_eq!(t.theta, 100);
    assert!(!t.gate(strict, 0, 1000));
    assert!(!t.gate(0, strict, 1000));
    assert!(!t.gate(0, ambiguous, 1000));
    assert!(!t.gate(ambiguous, 0, 99));
    assert!(t.gate(ambiguous, 0, 100));
    assert!(t.gate(0, 1, 1));
    t.theta = 3;
    let start = t.vocab.len();
    let mut c = Corpus::from_word_counts(
        vec![(vec![strict, 0], 9), (vec![ambiguous, 0], 2), (vec![ambiguous, 1], 3)],
        0,
    );
    t.train(&mut c, start + 9, 0, &quiet);
    assert_eq!(new_surfaces(&t, start), vec!["दुईख"]);
}

fn rooted_trainer() -> ConstrainedBPETrainer {
    let mut v = vocabulary(&["क", "ख", "ग", "घ"], &[], &[], &[]);
    let mut r = ParadigmRegistry::new();
    let mut one = Paradigm::new(1);
    one.set_allowed("क".to_string(), texts(&["ख"]));
    r.add_paradigm(one);
    let mut two = Paradigm::new(2);
    two.set_allowed("क".to_string(), texts(&["ख", "ग"]));
    r.add_paradigm(two);
    let mut three = Paradigm::new(3);
    three.set_allowed("क".to_string(), texts(&["ग"]));
    r.add_paradigm(three);
    v.assign_roots_from_registry(&r, &std::collections::HashMap::new());
    ConstrainedBPETrainer::new(v, r)
}

#[test]
fn merges_need_a_root_that_allows_them() {
    let t = rooted_trainer();
    assert!(t.morph(0, 1) && t.morph(0, 2) && !t.morph(0, 3));
    assert!(t.legal(0, 1, 1) && !t.legal(0, 3, 1));
    // A token without roots may be followed by anything.
    assert!(t.morph(1, 3));
    assert_eq!(t.narrow_root_set(0, 1), vec![1, 2]);
    assert_eq!(t.narrow_root_set(0, 2), vec![2, 3]);
    assert!(t.narrow_root_set(0, 3).is_empty());
    assert!(t.narrow_root_set(1, 0).is_empty());
}

#[test]
fn training_narrows_roots() {
    let mut t = rooted_trainer();
    let start = t.vocab.len();
    let mut c = Corpus::from_sequences(vec![vec![0, 1], vec![0, 3]], 0);
    t.train(&mut c, start + 4, 0, &quiet);
    assert_eq!(new_surfaces(&t, start), vec!["कख"]);
    assert_eq!(t.vocab.get_root_set(start), &[1, 2]);
}

#[test]
fn priorities_are_ranks_and_scaled_frequencies() {
    let t = rooted_trainer();
    assert_eq!(t.priority_key(0, 1, 3), (2, 3072));
    assert_eq!(t.priority_key(find(&t, "।"), 1, 7), (1, 7168));
    assert_eq!(t.priority_key(find(&t, "a"), 1, 0), (0, 0));
    assert_eq!(t.priority_key(0, 1, u64::MAX), (2, u64::MAX));
}

#[test]
fn scores_enter_the_priorities() {
    let mut t = rooted_trainer();
    t.use_probabilistic_k = true;
    // Two of three roots, all with the prior one, allow it.
    assert_eq!(t.morph_score(0, 1), (2 * WEIGHT_ONE as u128, 3 * WEIGHT_ONE as u128));
    assert_eq!(t.priority_key(0, 1, 1), (2, 682));
    assert_eq!(t.priority_key(0, 1, 3), (2, 2048));
    t.root_prior.insert(1, 5 * WEIGHT_ONE);
    t.root_prior.insert(3, -WEIGHT_ONE);
    assert_eq!(t.morph_score(0, 2), (WEIGHT_ONE as u128, 6 * WEIGHT_ONE as u128));
    assert_eq!(t.priority_key(0, 2, 12), (2, 2048));
    // A token without roots has the score one.
    assert_eq!(t.morph_score(1, 0), (1, 1));
    assert_eq!(t.priority_key(1, 0, 2), (2, 2048));
    t.latin_pass = true;
    assert_eq!(t.morph_score(0, 2), (1, 1));
}

#[test]
fn the_cap_cuts_root_sets() {
    let mut t = rooted_trainer();
    t.use_probabilistic_k = true;
    t.root_set_cap = 2;
    assert_eq!(t.morph_score(0, 2), (WEIGHT_ONE as u128, 2 * WEIGHT_ONE as u128));
    t.root_set_cap = 9;
    assert_eq!(t.morph_score(0, 2), (2 * WEIGHT_ONE as u128, 3 * WEIGHT_ONE as u128));
}

#[test]
fn a_prior_without_mass_is_neutral() {
    let mut t = rooted_trainer();
    t.use_probabilistic_k = true;
    for root in 1..4 {
        t.root_prior.insert(root, 0);
    }
    assert_eq!(t.morph_score(0, 1), (1, 1));
    assert_eq!(t.priority_key(0, 1, 5), (2, 5120));
}

#[test]
fn weights_enter_the_priorities_with_the_scores_only() {
    let mut t = rooted_trainer();
    t.token_weight.insert(1, WEIGHT_ONE / 2);
    t.token_weight.insert(2, -5);
    assert_eq!(t.priority_key(1, 0, 4), (2, 4096));
    t.use_probabilistic_k = true;
    assert_eq!(t.priority_key(1, 0, 4), (2, 2048));
    assert_eq!(t.priority_key(2, 0, 4), (2, 0));
    t.token_weight.insert(1, i64::MAX);
    assert_eq!(t.priority_key(1, 0, u64::MAX), (2, u64::MAX));
}

#[test]
fn training_can_be_taken_up_again() {
    let words = vec![
        (vec![0, 1, 2, 0, 1], 4),
        (vec![2, 0, 1], 3),
        (vec![3, 3, 3], 3),
        (vec![1, 2], 6),
    ];
    let mut straight = trainer(&["क", "ख", "ग", "घ"]);
    let start = straight.vocab.len();
    let mut c = Corpus::from_word_counts(words.clone(), 0);
    straight.train(&mut c, start + 6, 0, &quiet);
    let mut stopped = trainer(&["क", "ख", "ग", "घ"]);
    let mut d = Corpus::from_word_counts(words.clone(), 0);
    for k in 1..7 {
        stopped.train(&mut d, start + k, 0, &quiet);
    }
    assert_eq!(new_surfaces(&straight, start), new_surfaces(&stopped, start));
    // The order of the words does not matter either.
    let mut turned = trainer(&["क", "ख", "ग", "घ"]);
    let mut e = Corpus::from_word_counts(words.into_iter().rev().collect(), 0);
    turned.train(&mut e, start + 6, 0, &quiet);
    assert_eq!(new_surfaces(&straight, start), new_surfaces(&turned, start));
}

#[test]
fn tokens_that_are_not_yet_in_the_vocabulary_wait_for_it() {
    let mut t = trainer(&["क", "ख"]);
    let start = t.vocab.len();
    let mut c = Corpus::from_word_counts(vec![(vec![0, 1], 2), (vec![start, 0], 1)], 0);
    t.train(&mut c, start + 2, 0, &quiet);
    assert_eq!(new_surfaces(&t, start), vec!["कख", "कखक"]);
}

#[test]
fn a_training_tells_how_it_goes() {
    let told: RefCell<Vec<TrainProgress>> = RefCell::new(Vec::new());
    let report = |p: TrainProgress| told.borrow_mut().push(p);
    let mut t = trainer(&["क", "ख", "ग"]);
    let start = t.vocab.len();
    let mut c = Corpus::from_sequences(vec![vec![0, 1, 2]], 0);
    t.train(&mut c, start + 9, 1, &report);
    let told = told.into_inner();
    assert_eq!(told.len(), 4);
    assert!(matches!(told[0], TrainProgress::Seeded { latin: false, candidates: 2 }));
    assert!(matches!(told[1], TrainProgress::Merged { merges: 1, size, .. } if size == start + 1));
    assert!(matches!(told[2], TrainProgress::Merged { merges: 2, size, .. } if size == start + 2));
    assert!(
        matches!(told[3], TrainProgress::Done { merges: 2, start: s, size, .. } if s == start && size == start + 2)
    );
    assert_eq!(new_surfaces(&t, start), vec!["कख", "कखग"]);
}
