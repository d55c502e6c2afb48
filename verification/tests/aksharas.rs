use himalayan_tokenization::akshara::{
    is_dev_consonant, is_dev_digit, is_dev_indep_vowel, is_dev_matra, is_dev_nasal_mark,
    is_dev_standalone, AksharaDFA,
};
use himalayan_tokenization::harvest::{aksharas_of, is_akshara_char, TextCounts};

fn cut(dfa: &AksharaDFA, text: &str) -> Vec<String> {
    dfa.tokenize(text).into_iter().map(|a| a.surface).collect()
}

#[test]
fn aksharas_stay_whole() {
    let dfa = AksharaDFA::devanagari_default();
    assert_eq!(cut(&dfa, "काठमाडौं"), vec!["का", "ठ", "मा", "डौं"]);
    assert_eq!(cut(&dfa, "बस्छु"), vec!["ब", "स्छु"]);
    assert_eq!(cut(&dfa, "क्षत्रिय"), vec!["क्ष", "त्रि", "य"]);
    assert_eq!(cut(&dfa, "ॐ१२"), vec!["ॐ", "१", "२"]);
    assert_eq!(cut(&dfa, "अँ"), vec!["अँ"]);
}

#[test]
fn a_half_consonant_at_the_end_is_one_unit() {
    let dfa = AksharaDFA::devanagari_default();
    assert_eq!(cut(&dfa, "क्"), vec!["क्"]);
    assert_eq!(cut(&dfa, "वाक्"), vec!["वा", "क्"]);
}

#[test]
fn stray_signs_are_units_of_their_own() {
    let dfa = AksharaDFA::devanagari_default();
    assert_eq!(cut(&dfa, "ाक"), vec!["ा", "क"]);
    assert_eq!(cut(&dfa, "a्"), vec!["a", "्"]);
    assert_eq!(cut(&dfa, ""), Vec::<String>::new());
}

#[test]
fn units_put_together_are_the_text() {
    let dfa = AksharaDFA::devanagari_default();
    for text in ["नेपाल एक सुन्दर देश हो।", "x्ा", "क्ख्ग", "\u{93C}क\u{93C}ं"] {
        let units = cut(&dfa, text);
        assert_eq!(units.concat(), text);
        assert!(units.iter().all(|u| !u.is_empty()));
    }
}

#[test]
fn an_empty_automaton_cuts_characters() {
    let dfa = AksharaDFA::new();
    assert!(dfa.is_empty());
    assert!(!AksharaDFA::devanagari_default().is_empty());
    assert_eq!(cut(&dfa, "का"), vec!["क", "ा"]);
}

#[test]
fn transitions_can_be_added_and_asked_for() {
    let mut dfa = AksharaDFA::new();
    dfa.add_transition(0, 'a', 1, false);
    dfa.add_transition(1, 'b', 2, true);
    assert_eq!(dfa.has_transition(0, 'a'), Some(1));
    assert_eq!(dfa.has_transition(0, 'b'), None);
    assert_eq!(dfa.get_transitions_from(0), vec![('a', 1, false)]);
    assert_eq!(dfa.get_transitions_from(1), vec![('b', 2, true)]);
    assert!(dfa.get_transitions_from(7).is_empty());
    // Without the rest, the front is no accepted text and falls apart.
    assert_eq!(cut(&dfa, "abaab"), vec!["ab", "a", "ab"]);
}

#[test]
fn the_default_automaton_has_its_states() {
    let dfa = AksharaDFA::devanagari_default();
    assert_eq!(dfa.has_transition(0, 'क'), Some(1));
    assert_eq!(dfa.has_transition(2, 'क'), Some(1));
    assert_eq!(dfa.has_transition(1, 'क'), None);
    assert_eq!(dfa.has_transition(1, '\u{94D}'), Some(2));
    assert_eq!(dfa.has_transition(1, '\u{93C}'), Some(1));
    assert_eq!(dfa.has_transition(1, 'ा'), Some(3));
    assert_eq!(dfa.has_transition(3, 'ं'), Some(4));
    assert_eq!(dfa.has_transition(0, '५'), Some(6));
}

#[test]
fn devanagari_letters_have_kinds() {
    assert!(is_dev_consonant('क') && is_dev_consonant('\u{958}') && !is_dev_consonant('अ'));
    assert!(is_dev_indep_vowel('अ') && !is_dev_indep_vowel('ा'));
    assert!(is_dev_matra('ि') && !is_dev_matra('\u{94D}'));
    assert!(is_dev_nasal_mark('ँ') && !is_dev_nasal_mark('ा'));
    assert!(is_dev_digit('०') && !is_dev_digit('0'));
    assert!(is_dev_standalone('ॐ') && is_dev_standalone('ऽ') && !is_dev_standalone('क'));
}

#[test]
fn dandas_are_no_akshara_characters() {
    assert!(is_akshara_char('क') && is_akshara_char('\u{94D}'));
    assert!(!is_akshara_char('।') && !is_akshara_char('॥') && !is_akshara_char('a'));
}

#[test]
fn stretches_of_devanagari_are_harvested() {
    let dfa = AksharaDFA::devanagari_default();
    assert_eq!(aksharas_of(&dfa, "का, खा।का"), vec!["का", "खा", "का"]);
    assert!(aksharas_of(&dfa, "abc ।").is_empty());
}

#[test]
fn the_inventory_is_ranked_by_count_and_text() {
    let mut counts = TextCounts::new();
    for s in ["ग", "ख", "क", "ख", "ग", "घ"] {
        counts.add_text(&s.to_string());
    }
    assert_eq!(counts.total(), 6);
    assert_eq!(counts.ranked(1), vec!["ख", "ग", "क", "घ"]);
    assert_eq!(counts.ranked(2), vec!["ख", "ग"]);
    assert!(counts.ranked(3).is_empty());
}

#[test]
fn shorter_texts_come_before_longer_ones_with_the_same_front() {
    let mut counts = TextCounts::new();
    for s in ["का", "क", "कि"] {
        counts.add_text(&s.to_string());
    }
    assert_eq!(counts.ranked(0), vec!["क", "का", "कि"]);
}
