use himalayan_tokenization::counting::WordCounts;
use himalayan_tokenization::harvest::TextCounts;
use himalayan_tokenization::normalize::FoldMode;
use himalayan_tokenization::paradigm::{Paradigm, ParadigmRegistry};
use himalayan_tokenization::pipeline::TrainError;
use himalayan_tokenization::tokenizer::HimalayanTokenization;
use himalayan_tokenization::training::TrainProgress;
use himalayan_tokenization::tsv::{
    decimal_text, escape_tsv, parse_number, read_vocab_lines, unescape_tsv,
};

fn quiet(_progress: TrainProgress) {}

fn list(items: &[&str]) -> Vec<String> {
    items.iter().map(|s| s.to_string()).collect()
}

fn fresh(aksharas: &[&str]) -> HimalayanTokenization {
    let mut t = HimalayanTokenization::new(Vec::new(), ParadigmRegistry::new());
    t.initialize_vocab(list(aksharas), Vec::new(), list(&["।", "."]), Vec::new(), Vec::new());
    t
}

fn added(t: &HimalayanTokenization, from: usize) -> Vec<String> {
    (from..t.vocab.len()).map(|i| t.vocab.get_surface(i).unwrap()).collect()
}

#[test]
fn training_learns_words_from_text() {
    let mut t = fresh(&["क", "ख", "ग"]);
    let start = t.vocab.len();
    let size = t.train_from_text(list(&["कख कख", "", " कग "]), start + 2, 100).unwrap();
    assert_eq!(size, start + 2);
    assert_eq!(added(&t, start), vec!["\u{2581}क", "\u{2581}कख"]);
    assert_eq!(t.tokenize_to_strings("कख कग"), vec!["\u{2581}कख", "\u{2581}क", "ग"]);
    assert!(t.verify_roundtrip("कख कग x"));
}

#[test]
fn training_without_words_only_tags() {
    let mut t = fresh(&["क"]);
    let mut p = Paradigm::new(3);
    p.set_allowed("क".to_string(), Vec::new());
    t.paradigm_registry.add_paradigm(p);
    let start = t.vocab.len();
    assert_eq!(t.train_from_text(Vec::new(), start + 5, 1), Ok(start));
    assert_eq!(t.get_root_set("क"), vec![3]);
}

#[test]
fn merges_do_not_cross_words() {
    let mut t = fresh(&["क", "ख"]);
    let start = t.vocab.len();
    t.train_from_text(list(&["क ख क ख क ख"]), start + 9, 1).unwrap();
    assert_eq!(added(&t, start), vec!["\u{2581}क", "\u{2581}ख"]);
}

#[test]
fn token_sequences_train_too() {
    let mut t = fresh(&["क", "ख"]);
    let start = t.vocab.len();
    assert_eq!(t.train_bpe(vec![vec![0, 1], vec![1, 0], vec![1, 0]], start + 1, 1), Ok(start + 1));
    assert_eq!(added(&t, start), vec!["खक"]);
    assert_eq!(t.paradigm_registry.roots().len(), 0);
}

#[test]
fn lines_are_counted_word_by_word() {
    let t = fresh(&["क", "ख"]);
    let mut counts = WordCounts::new();
    assert_eq!(t.count_line(&mut counts, "क ख क a1 !", false), Some(5));
    assert_eq!(t.count_line(&mut counts, "  ", false), Some(0));
    assert_eq!(counts.len(), 4);
    let mut latin = WordCounts::new();
    assert_eq!(t.count_line(&mut latin, "क ख क a1 !", true), Some(1));
    assert_eq!(latin.len(), 1);
    assert_eq!(latin.total(), 3);
}

#[test]
fn a_corpus_can_be_too_large() {
    let mut t = fresh(&["क"]);
    let start = t.vocab.len();
    let counts = vec![(vec![0, 0], u64::MAX)];
    assert_eq!(t.train_words(counts.clone(), start + 1, 1, 0, &quiet), Err(TrainError::CorpusTooLarge));
    assert_eq!(
        t.train_bilingual(counts.clone(), start + 1, 1, 1, 0, &quiet),
        Err(TrainError::CorpusTooLarge)
    );
    assert_eq!(t.train_latin(counts, 1, 0, &quiet), Err(TrainError::CorpusTooLarge));
    assert_eq!(t.vocab.len(), start);
    assert_eq!(t.train_words(vec![(vec![0, 0], 7)], start + 1, 1, 0, &quiet), Ok(start + 1));
}

#[test]
fn a_latin_pass_needs_a_vocabulary() {
    let mut t = HimalayanTokenization::new(Vec::new(), ParadigmRegistry::new());
    assert_eq!(t.train_latin(vec![(vec![0, 0], 1)], 5, 0, &quiet), Err(TrainError::EmptyVocabulary));
}

#[test]
fn a_latin_pass_adds_latin_merges() {
    let mut t = fresh(&["क", "ख"]);
    let start = t.vocab.len();
    let mut counts = WordCounts::new();
    t.count_line(&mut counts, "the then कख the", true);
    assert_eq!(t.train_latin(counts.at_least(1), 3, 0, &quiet), Ok(start + 3));
    assert_eq!(added(&t, start), vec!["\u{2582}t", "he", "\u{2582}the"]);
    assert_eq!(t.tokenize_to_strings("the then"), vec!["\u{2582}the", "\u{2582}the", "n"]);
}

#[test]
fn bilingual_training_fills_two_budgets() {
    let mut t = fresh(&["क", "ख"]);
    let start = t.vocab.len();
    let mut counts = WordCounts::new();
    t.count_line(&mut counts, "कख कख to to to", false);
    let sizes = t.train_bilingual(counts.at_least(1), start + 1, 1, 100, 0, &quiet).unwrap();
    assert_eq!(sizes, (start + 1, start + 2));
    assert_eq!(added(&t, start), vec!["कख", "\u{2582}t"]);
}

#[test]
fn aksharas_are_harvested_from_lines() {
    let t = fresh(&[]);
    let mut counts = TextCounts::new();
    assert!(t.harvest_line(&mut counts, "काका, खाका।"));
    assert!(t.harvest_line(&mut counts, "abc"));
    assert!(t.harvest_line(&mut counts, "खा ग"));
    assert_eq!(counts.ranked(1), vec!["का", "खा", "ग"]);
    assert_eq!(counts.ranked(2), vec!["का", "खा"]);
    let mut u = HimalayanTokenization::new(Vec::new(), ParadigmRegistry::new());
    u.initialize_vocab(counts.ranked(1), Vec::new(), Vec::new(), Vec::new(), Vec::new());
    assert_eq!(u.tokenize_to_strings("खाका"), vec!["\u{2581}", "खा", "का"]);
}

#[test]
fn statistics_add_up() {
    let t = fresh(&["क"]);
    let s = t.corpus_stats(&list(&["क क", "é\u{200D}", ""]));
    assert_eq!(s.texts, 3);
    assert_eq!(s.tokens, 4 + 3 + 1);
    assert_eq!(s.words, 3);
    assert_eq!(s.chars, 3 + 1);
    assert_eq!(s.bytes, 7 + 2);
    assert_eq!(s.malformed, 2);
    assert_eq!(s.roundtrips, 3);
    assert_eq!(s.vocab_size, t.vocab.len());
    assert_eq!(s.dev_tokens, 2);
    assert_eq!(s.lat_tokens, 63);
    let empty = HimalayanTokenization::new(Vec::new(), ParadigmRegistry::new());
    assert_eq!(empty.corpus_stats(&list(&["क", ""])).roundtrips, 1);
}

#[test]
fn texts_are_written_out_and_read_back() {
    assert_eq!(escape_tsv("a\tb\nc\\d"), "a\\tb\\nc\\\\d");
    assert_eq!(unescape_tsv("a\\tb\\nc\\\\d"), "a\tb\nc\\d");
    assert_eq!(unescape_tsv("\\x\\"), "\\x\\");
    for text in ["", "\\", "\\n", "\\\\t", "\t\n\\", "कख\u{1F600}"] {
        assert_eq!(unescape_tsv(&escape_tsv(text)), text);
        assert!(!escape_tsv(text).contains('\n') && !escape_tsv(text).contains('\t'));
    }
}

#[test]
fn numbers_agree_with_std() {
    for n in [0, 7, 10, 99, 100, 123456789, usize::MAX] {
        assert_eq!(decimal_text(n), n.to_string());
        assert_eq!(parse_number(&n.to_string()), Some(n));
    }
    for text in [
        "", "+", "-", "+5", "007", "-0", "1a", " 1", "1 ", "१", "++1",
        "18446744073709551615", "18446744073709551616", "99999999999999999999999",
    ] {
        assert_eq!(parse_number(text), text.parse::<usize>().ok(), "{:?}", text);
    }
}

#[test]
fn lines_that_are_no_rows_are_passed_over() {
    let (mode, pairs) = read_vocab_lines(&list(&[
        "# remark",
        "",
        "0\ta\\tb",
        "x\ty",
        "1",
        "2\tc\td",
        "# nepbpe-v4 mode= ocr ",
    ]));
    assert_eq!(mode, Some(FoldMode::OCR));
    assert_eq!(
        pairs,
        vec![(0, "a\tb".to_string()), (1, String::new()), (2, "c\td".to_string())]
    );
    let (mode, _) = read_vocab_lines(&list(&["#mode=LM", "#mode=other"]));
    assert_eq!(mode, None);
}

#[test]
fn vocabularies_are_saved_and_loaded() {
    let mut t = fresh(&["क", "ख"]);
    let start = t.vocab.len();
    t.train_from_text(list(&["कख कख क"]), start + 2, 1).unwrap();
    let lines = t.write_vocab_lines();
    assert_eq!(lines.len(), t.vocab.len() + 1);
    assert_eq!(lines[0], "# nepbpe-v4 mode=LM");
    assert_eq!(lines[1], "0\tक");
    let mut u = HimalayanTokenization::new(Vec::new(), ParadigmRegistry::new());
    assert_eq!(u.load_vocab_lines(&lines, false), Ok((t.vocab.len(), true)));
    assert_eq!(u.vocab.get_all_surfaces(), t.vocab.get_all_surfaces());
    for text in ["कख क a.", "\n\\ \u{2581}", "कखकख"] {
        assert_eq!(u.encode(text), t.encode(text));
        assert!(u.verify_roundtrip(text));
    }
    assert_eq!(u.write_vocab_lines(), lines);
}

#[test]
fn a_vocabulary_of_another_mode_is_refused() {
    let lines = fresh(&["क"]).write_vocab_lines();
    let mut u = HimalayanTokenization::new_with_mode(
        FoldMode::OCR,
        Vec::new(),
        Vec::new(),
        ParadigmRegistry::new(),
    );
    let refused = u.load_vocab_lines(&lines, false).unwrap_err();
    assert_eq!(refused.found, FoldMode::LM);
    assert_eq!(refused.expected, FoldMode::OCR);
    assert!(u.vocab.is_empty());
    assert_eq!(u.load_vocab_lines(&lines, true), Ok((lines.len() - 1, true)));
    let headless: Vec<String> = lines[1..].to_vec();
    assert_eq!(u.load_vocab_lines(&headless, false), Ok((lines.len() - 1, false)));
}
