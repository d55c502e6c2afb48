use himalayan_tokenization::encoding::MChar;
use himalayan_tokenization::normalize::FoldMode;
use himalayan_tokenization::paradigm::{Paradigm, ParadigmRegistry};
use himalayan_tokenization::script::Script;
use himalayan_tokenization::tokenizer::HimalayanTokenization;
use himalayan_tokenization::vocab::WEIGHT_ONE;
use std::collections::HashMap;

fn owned(list: &[&str]) -> Vec<String> {
    list.iter().map(|s| s.to_string()).collect()
}

fn tokenizer(aksharas: &[&str], seeds: &[&str]) -> HimalayanTokenization {
    let mut t = HimalayanTokenization::new(Vec::new(), ParadigmRegistry::new());
    t.initialize_vocab(
        owned(aksharas),
        owned(seeds),
        owned(&["।", "॥", ".", ","]),
        Vec::new(),
        Vec::new(),
    );
    t
}

/// The tokenizer with further surfaces, loaded behind its own.
fn extended(t: &HimalayanTokenization, more: &[&str]) -> HimalayanTokenization {
    let mut pairs = t.vocab.get_all_surfaces();
    for s in more {
        pairs.push((pairs.len(), s.to_string()));
    }
    let mut e = HimalayanTokenization::new(Vec::new(), ParadigmRegistry::new());
    e.load_vocab(pairs);
    e
}

#[test]
fn markers_stand_before_words() {
    let t = tokenizer(&[], &[]);
    let m: Vec<MChar> = t.mark("क a");
    let plain: Vec<(char, bool)> = m.iter().map(|x| (x.ch, x.synthetic)).collect();
    assert_eq!(
        plain,
        vec![('\u{2581}', true), ('क', false), ('\u{2582}', true), ('a', false)]
    );
    assert_eq!(t.mark("").len(), 1);
    let spaces: Vec<char> = t.mark("  ").iter().map(|x| x.ch).collect();
    assert_eq!(spaces, vec!['\u{2581}', '\u{2581}', '\u{2581}']);
}

#[test]
fn literal_markers_are_malformed() {
    let t = tokenizer(&[], &[]);
    assert_eq!(t.classify_mchar(MChar { ch: '\u{2581}', synthetic: true }), Script::DEV);
    assert_eq!(t.classify_mchar(MChar { ch: '\u{2582}', synthetic: true }), Script::LAT);
    assert_eq!(t.classify_mchar(MChar { ch: '\u{2581}', synthetic: false }), Script::MAL);
    assert_eq!(t.classify_mchar(MChar { ch: 'क', synthetic: false }), Script::DEV);
}

#[test]
fn runs_are_cut_into_units() {
    let t = tokenizer(&["म", "का", "स्छु"], &[]);
    assert_eq!(t.tokenize_to_strings("मका"), vec!["\u{2581}", "म", "का"]);
    assert_eq!(t.tokenize_to_strings("मस्छु।"), vec!["\u{2581}", "म", "स्छु", "।"]);
    assert_eq!(t.tokenize_to_strings("ab1"), vec!["\u{2582}", "a", "b", "1"]);
    assert_eq!(
        t.tokenize_to_strings("म b"),
        vec!["\u{2581}", "म", "\u{2582}", "b"]
    );
    assert_eq!(t.tokenize_to_strings(""), vec!["\u{2581}"]);
}

#[test]
fn unknown_units_are_spelled_in_bytes() {
    let t = tokenizer(&["क"], &[]);
    // The bytes of the letter are E0 A4 96.
    assert_eq!(
        t.tokenize_to_strings("कख"),
        vec!["\u{2581}", "क", "\u{E0}", "\u{A4}", "\u{138}"]
    );
    assert_eq!(t.tokenize_to_strings("\n"), vec!["\u{2581}", "\u{10A}"]);
    assert_eq!(t.tokenize_to_strings("\u{200C}"), vec!["\u{2581}", "\u{200C}"]);
}

#[test]
fn the_longest_stretch_of_whole_units_is_taken() {
    let t = extended(
        &tokenizer(&["क", "का", "ख", "ग"], &[]),
        &["\u{2581}क", "\u{2581}कखग", "खग", "\u{2582}the", "th"],
    );
    assert_eq!(t.tokenize_to_strings("कख"), vec!["\u{2581}क", "ख"]);
    assert_eq!(t.tokenize_to_strings("कखग"), vec!["\u{2581}कखग"]);
    assert_eq!(t.tokenize_to_strings("गखग"), vec!["\u{2581}", "ग", "खग"]);
    // The sign belongs to its consonant, so that the shorter token does not match.
    assert_eq!(t.tokenize_to_strings("काख"), vec!["\u{2581}", "का", "ख"]);
    assert_eq!(t.tokenize_to_strings("thethe"), vec!["\u{2582}the", "th", "e"]);
}

#[test]
fn abbreviations_are_found_first() {
    let t = tokenizer(&["म", "डा", "वि"], &["डा.", "वि.सं."]);
    assert_eq!(t.seed_max_len, 6);
    assert_eq!(
        t.tokenize_to_strings("डा. म"),
        vec!["\u{2581}", "डा.", "\u{2581}", "म"]
    );
    assert_eq!(t.tokenize_to_strings("वि.सं."), vec!["\u{2581}", "वि.सं."]);
    assert_eq!(t.tokenize_to_strings("मडा."), vec!["\u{2581}", "म", "डा", "."]);
    // No abbreviation spans a space.
    assert_eq!(
        t.tokenize_to_strings("डा ."),
        vec!["\u{2581}", "डा", "\u{2581}", "."]
    );
}

#[test]
fn the_longest_abbreviation_is_found_behind_its_marker() {
    let mut t = HimalayanTokenization::new(Vec::new(), ParadigmRegistry::new());
    t.load_vocab(vec![(0, "डा".to_string()), (1, "डा.".to_string()), (2, ".".to_string())]);
    assert_eq!(t.seed_max_len, 3);
    assert_eq!(t.encode("डा."), vec![3, 1]);
    let t = extended(&tokenizer(&["क", "ख"], &[]), &["क.", "कख"]);
    assert_eq!(t.seed_max_len, 2);
    assert_eq!(t.tokenize_to_strings("कख"), vec!["\u{2581}", "कख"]);
    assert_eq!(t.tokenize_to_strings("क.ख"), vec!["\u{2581}", "क.", "ख"]);
}

#[test]
fn only_what_holds_a_stop_is_an_abbreviation() {
    let t = extended(&tokenizer(&["क", "ख", "ग"], &[]), &["कख", "खग", "कखग", "ग.."]);
    // Matching takes the longest stretch, though a stop is near.
    assert_eq!(t.tokenize_to_strings("कखग."), vec!["\u{2581}", "कखग", "."]);
    let t = extended(&tokenizer(&["क", "क्ष"], &[]), &["क्", "क.."]);
    assert_eq!(t.tokenize_to_strings("क्ष."), vec!["\u{2581}", "क्ष", "."]);
}

#[test]
fn abbreviations_end_where_units_end() {
    let t = extended(&tokenizer(&["क", "क्ष"], &[]), &["क.", "क.क्"]);
    assert_eq!(t.tokenize_to_strings("क.क्"), vec!["\u{2581}", "क.क्"]);
    assert_eq!(t.tokenize_to_strings("क.क्ष"), vec!["\u{2581}", "क.", "क्ष"]);
}

#[test]
fn no_token_splits_an_akshara() {
    let t = extended(&tokenizer(&["ग", "र", "र्छ", "गर"], &[]), &["\u{2581}गर", "गर."]);
    assert_eq!(t.tokenize_to_strings("गर्छ।"), vec!["\u{2581}", "ग", "र्छ", "।"]);
    assert_eq!(t.tokenize_to_strings("गर।"), vec!["\u{2581}गर", "।"]);
    assert_eq!(t.tokenize_to_strings("गर. गर्छ"), vec!["\u{2581}", "गर.", "\u{2581}", "ग", "र्छ"]);
}

#[test]
fn punctuation_is_matched_longest_first() {
    let mut t = HimalayanTokenization::new(Vec::new(), ParadigmRegistry::new());
    t.load_vocab(vec![(0, "!".to_string()), (1, "!!".to_string())]);
    assert_eq!(t.encode("!!"), vec![2, 1]);
    assert_eq!(t.encode("!!!"), vec![2, 1, 0]);
    assert_eq!(t.decode(&t.encode("!!!")), "!!!");
}

#[test]
fn every_text_comes_back() {
    let plain = tokenizer(&["क", "का", "म"], &["डा.", "वि.सं."]);
    let large = extended(&plain, &["\u{2581}क", "क.", "\u{2581}.", "का.", "é."]);
    let texts = [
        "",
        " ",
        "  ",
        "a",
        "काठमाडौं बस्छु।",
        "डा. राम वि.सं. २०८०",
        "Hello, World! 123",
        "\u{2581}literal\u{2582} markers\u{2581}",
        "\u{2581}क.",
        " \u{2581}. \u{2582}.",
        "क\u{200C}ष \u{200C}",
        "\u{1F600} é ñ \u{FFFD} \u{10FFFF}",
        "tab\tnew\nline\r\u{0}",
        "\u{100}\u{120}\u{143}\u{A1}",
        "a  b   c ",
        "é.é. a.b.",
        "“quoted” – text…",
    ];
    for text in texts {
        for t in [&plain, &large] {
            assert!(t.verify_roundtrip(text), "{:?}", text);
            let ids = t.encode(text);
            assert_eq!(t.decode(&ids), t.normalizer.normalize(text));
        }
    }
}

#[test]
fn every_text_comes_back_whatever_is_listed() {
    let mut t = HimalayanTokenization::new(Vec::new(), ParadigmRegistry::new());
    t.initialize_vocab(
        owned(&["\u{100}", "क"]),
        owned(&["é", "डा."]),
        owned(&["«", "»", "..."]),
        owned(&["ñ"]),
        owned(&["\u{143}"]),
    );
    for text in ["\u{12B}", "« é » ñ", "\u{100}\u{143}", "क... डा. «»", "\u{0}\u{AD}"] {
        assert!(t.verify_roundtrip(text), "{:?}", text);
    }
}

#[test]
fn a_literal_marker_never_enters_an_abbreviation() {
    let t = extended(&tokenizer(&["क"], &[]), &["\u{2581}क.", "\u{2581}क"]);
    assert_eq!(t.seed_max_len, 3);
    assert_eq!(t.decode(&t.encode("\u{2581}क.")), "\u{2581}क.");
    assert!(!t.tokenize_to_strings("\u{2581}क.").contains(&"\u{2581}क.".to_string()));
}

#[test]
fn bytes_that_are_no_text_are_replaced() {
    let t = tokenizer(&["क"], &[]);
    let byte = |s: &str| t.vocab.get_id_by_surface(s).unwrap();
    assert_eq!(t.decode(&[byte("\u{FF}")]), "\u{FFFD}");
    // The two halves of a letter, parted by another token.
    let (c3, a9) = (byte("\u{C3}"), byte("\u{A9}"));
    assert_eq!(t.decode(&[c3, a9]), "é");
    assert_eq!(t.decode(&[c3, byte("क"), a9]), "\u{FFFD}क\u{FFFD}");
    assert_eq!(t.decode(&[c3, usize::MAX, a9]), "\u{FFFD}\u{FFFD}");
}

#[test]
fn decoding_drops_one_space_only() {
    let t = tokenizer(&["क"], &[]);
    let marker = t.vocab.get_id_by_surface("\u{2581}").unwrap();
    assert_eq!(t.decode(&[]), "");
    assert_eq!(t.decode(&[marker]), "");
    assert_eq!(t.decode(&[marker, marker]), " ");
    assert_eq!(t.decode(&[0, marker, 0]), "क क");
    assert_eq!(t.decode(&[usize::MAX]), "");
}

#[test]
fn without_a_vocabulary_nothing_is_encoded() {
    let t = HimalayanTokenization::new(Vec::new(), ParadigmRegistry::new());
    assert!(t.encode("क a.").is_empty());
    assert!(!t.verify_roundtrip("क"));
    assert!(t.verify_roundtrip(""));
}

#[test]
fn texts_are_normalized_before_they_are_encoded() {
    let rules = vec![("सँग".to_string(), "संग".to_string())];
    let mut t = HimalayanTokenization::new_with_mode(
        FoldMode::LM,
        rules,
        Vec::new(),
        ParadigmRegistry::new(),
    );
    t.initialize_vocab(owned(&["सं", "ग"]), Vec::new(), Vec::new(), Vec::new(), Vec::new());
    assert_eq!(t.tokenize_to_strings("सँग"), vec!["\u{2581}", "सं", "ग"]);
    assert_eq!(t.encode("सँग"), t.encode_normalized("संग"));
}

#[test]
fn initializing_gives_the_size() {
    let mut t = HimalayanTokenization::new(Vec::new(), ParadigmRegistry::new());
    let n = t.initialize_vocab(owned(&["क"]), owned(&["।।", "नेपाल"]), Vec::new(), Vec::new(), Vec::new());
    assert_eq!(n, 279);
    assert_eq!(t.vocab.len(), 279);
    assert_eq!(t.seed_max_len, 2);
}

#[test]
fn the_roots_of_tokens_come_from_lexicon_roots_and_priors() {
    let mut t = tokenizer(&["क", "ख", "ग"], &["गयो"]);
    for (root, prefix) in [(4, "क"), (6, "ख"), (5, "ख"), (9, "ख")] {
        let mut p = Paradigm::new(root);
        p.set_allowed(prefix.to_string(), Vec::new());
        t.paradigm_registry.add_paradigm(p);
    }
    t.assign_initial_roots();
    assert_eq!(t.get_root_set("क"), vec![4]);
    assert_eq!(t.get_root_set("ख"), vec![5, 6, 9]);
    assert!(t.get_root_set("ग").is_empty());
    assert!(t.get_root_set("nowhere").is_empty());
    t.set_lexicon(vec![("गयो".to_string(), 7), ("क".to_string(), 1), ("क".to_string(), 2)]);
    assert_eq!(t.build_paradigm_embedding(false), 2);
    assert_eq!(&t.u_vector()[0..4], &[2, -1, -1, 7]);
    assert_eq!(t.build_paradigm_embedding(true), 3);
    assert_eq!(&t.u_vector()[0..4], &[2, 5, -1, 7]);
    let mut prior: HashMap<usize, i64> = HashMap::new();
    prior.insert(9, 2 * WEIGHT_ONE);
    t.set_root_prior(prior);
    assert_eq!(t.build_paradigm_embedding(true), 3);
    assert_eq!(&t.u_vector()[0..4], &[2, 9, -1, 7]);
    assert_eq!(t.u_vector().len(), t.vocab.len());
}

#[test]
fn no_roots_are_exported_before_they_were_built() {
    let t = tokenizer(&["क"], &[]);
    assert!(t.u_vector().iter().all(|r| *r == -1));
}

#[test]
fn weights_are_set_by_surface() {
    let mut t = tokenizer(&["क"], &[]);
    assert!(t.set_token_weight("क", 3));
    assert!(!t.set_token_weight("nowhere", 3));
    assert_eq!(t.token_weight.get(&0), Some(&3));
    assert_eq!(t.token_weight.len(), 1);
    t.enable_probabilistic_k(true, 4);
    assert!(t.use_probabilistic_k);
    assert_eq!(t.root_set_cap, 4);
}

#[test]
fn induction_takes_confident_units_only() {
    let mut t = tokenizer(&["क"], &[]);
    let n = t.vocab.len();
    let candidates = vec![
        ("हरु".to_string(), 7),
        ("मा".to_string(), 4),
        (String::new(), 9),
        ("ले".to_string(), 5),
    ];
    assert_eq!(t.induce_ambiguous_seeds(candidates, 5), 2);
    assert_eq!(t.vocab.len(), n + 2);
    let id = t.vocab.get_id_by_surface("हरु").unwrap();
    assert!(t.vocab.is_ambiguous(id) && !t.vocab.is_strict(id));
    assert_eq!(t.vocab.induction_confidence(id), Some(7));
    assert!(!t.vocab.contains_surface("मा"));
}
