use himalayan_tokenization::normalize::{FoldMode, Normalizer};

fn rules(list: &[(&str, &str)]) -> Vec<(String, String)> {
    list.iter()
        .map(|(p, r)| (p.to_string(), r.to_string()))
        .collect()
}

#[test]
fn tags_name_modes() {
    assert_eq!(FoldMode::from_tag("LM"), Some(FoldMode::LM));
    assert_eq!(FoldMode::from_tag("  ocr\n"), Some(FoldMode::OCR));
    assert_eq!(FoldMode::from_tag("Lm"), Some(FoldMode::LM));
    assert_eq!(FoldMode::from_tag("L M"), None);
    assert_eq!(FoldMode::from_tag(""), None);
    assert_eq!(FoldMode::LM.tag(), "LM");
    assert_eq!(FoldMode::OCR.tag(), "OCR");
}

#[test]
fn tags_lead_back_to_their_modes() {
    for mode in [FoldMode::LM, FoldMode::OCR] {
        assert_eq!(FoldMode::from_tag(mode.tag()), Some(mode));
    }
}

#[test]
fn texts_are_composed() {
    let n = Normalizer::new(Vec::new());
    assert_eq!(n.normalize("e\u{301}"), "\u{E9}");
    assert_eq!(n.normalize("\u{928}\u{93C}"), "\u{929}");
    assert_eq!(n.normalize(""), "");
}

#[test]
fn what_a_rule_writes_is_composed_too() {
    let n = Normalizer::new(rules(&[("x", "e\u{301}")]));
    assert_eq!(n.normalize("axb"), "a\u{E9}b");
}

#[test]
fn rules_fold_from_left_to_right() {
    let n = Normalizer::new(rules(&[("सँग", "संग"), ("सङ्ग", "संग")]));
    assert_eq!(n.normalize("मसँग र मसङ्ग"), "मसंग र मसंग");
    let n = Normalizer::new(rules(&[("aa", "b")]));
    assert_eq!(n.normalize("aaaaa"), "bba");
}

#[test]
fn the_longest_pattern_wins() {
    let n = Normalizer::new(rules(&[("ab", "1"), ("abc", "2"), ("a", "3")]));
    assert_eq!(n.normalize("abcabaa"), "2133");
}

#[test]
fn of_two_rules_for_one_length_the_first_wins() {
    let n = Normalizer::new(rules(&[("ab", "1"), ("ab", "2")]));
    assert_eq!(n.normalize("ab"), "1");
}

#[test]
fn empty_patterns_match_nothing() {
    let n = Normalizer::new(rules(&[("", "x")]));
    assert_eq!(n.normalize("ab"), "ab");
}

#[test]
fn joiners_are_dropped_for_language_models_only() {
    let lm = Normalizer::new_with_mode(FoldMode::LM, Vec::new(), Vec::new());
    let ocr = Normalizer::new_with_mode(FoldMode::OCR, Vec::new(), Vec::new());
    assert_eq!(lm.normalize("क्\u{200D}ष\u{200C}"), "क्ष\u{200C}");
    assert_eq!(ocr.normalize("क्\u{200D}ष\u{200C}"), "क्\u{200D}ष\u{200C}");
}

#[test]
fn joiners_that_rules_write_are_dropped_too() {
    let lm = Normalizer::new(rules(&[("x", "a\u{200D}b")]));
    assert_eq!(lm.normalize("x"), "ab");
    let ocr = Normalizer::new_with_mode(FoldMode::OCR, Vec::new(), rules(&[("x", "a\u{200D}b")]));
    assert_eq!(ocr.normalize("x"), "a\u{200D}b");
}

#[test]
fn patterns_may_hold_joiners() {
    let lm = Normalizer::new(rules(&[("a\u{200D}b", "c")]));
    assert_eq!(lm.normalize("a\u{200D}b"), "c");
}

#[test]
fn the_mode_chooses_the_table() {
    let full = rules(&[("a", "1")]);
    let minimal = rules(&[("a", "2")]);
    let lm = Normalizer::new_with_mode(FoldMode::LM, full.clone(), minimal.clone());
    let ocr = Normalizer::new_with_mode(FoldMode::OCR, full, minimal);
    assert_eq!(lm.normalize("a"), "1");
    assert_eq!(ocr.normalize("a"), "2");
    assert_eq!(lm.mode(), FoldMode::LM);
    assert_eq!(ocr.mode(), FoldMode::OCR);
}

#[test]
fn rules_that_trigger_rules_are_reported() {
    let n = Normalizer::new(rules(&[("aa", "bc"), ("b", "x")]));
    assert_eq!(n.validate_rules(), vec!["aa -> bc re-triggers b".to_string()]);
    let n = Normalizer::new(rules(&[("सँग", "संग")]));
    assert!(n.validate_rules().is_empty());
    let n = Normalizer::new(rules(&[("", "x"), ("a", "y")]));
    assert!(n.validate_rules().is_empty());
}

#[test]
fn settled_texts_stay_as_they_are() {
    let n = Normalizer::new(rules(&[("सँग", "संग")]));
    let once = n.normalize("मसँग e\u{301} क्\u{200D}ष");
    assert_eq!(n.normalize(&once), once);
}

#[test]
fn without_rules_normalizing_twice_is_normalizing_once() {
    for mode in [FoldMode::LM, FoldMode::OCR] {
        let n = Normalizer::new_with_mode(mode, Vec::new(), Vec::new());
        for text in ["", "क्\u{200D}ष", "e\u{301}\u{200D}\u{301}", "a\u{300}b\u{327}"] {
            let once = n.normalize(text);
            assert_eq!(n.normalize(&once), once);
        }
    }
}

#[test]
fn a_pattern_that_folding_leaves_behind_is_folded_later() {
    let n = Normalizer::new(rules(&[("ab", "a")]));
    assert!(n.validate_rules().is_empty());
    assert_eq!(n.normalize("abb"), "ab");
    assert_eq!(n.normalize("ab"), "a");
}

#[test]
fn rules_whose_patterns_fit_over_no_replacement_fold_once() {
    let n = Normalizer::new(rules(&[("सँग", "सङ्ग"), ("संग", "सङ्ग"), ("", "x")]));
    for (text, expected) in [
        ("सँगसंग", "सङ्गसङ्ग"),
        ("ससँगग संसंगंग", "ससङ्गग संसङ्गंग"),
        ("सङ्ग", "सङ्ग"),
    ] {
        let once = n.normalize(text);
        assert_eq!(once, expected);
        assert_eq!(n.normalize(&once), once);
    }
}
