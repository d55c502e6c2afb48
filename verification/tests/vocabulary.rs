use himalayan_tokenization::akshara::Akshara;
use himalayan_tokenization::paradigm::{Paradigm, ParadigmRegistry};
use himalayan_tokenization::script::{bytes_to_unicode, decoder_of, Script};
use himalayan_tokenization::vocab::{Token, Vocabulary, WEIGHT_ONE};
use std::collections::HashMap;

fn strings(list: &[&str]) -> Vec<String> {
    list.iter().map(|s| s.to_string()).collect()
}

fn akshara(surface: &str) -> Akshara {
    Akshara { surface: surface.to_string(), root_set: Vec::new() }
}

fn base(aksharas: &[&str], seeds: &[&str], punct: &[&str]) -> Vocabulary {
    let mut v = Vocabulary::new();
    v.initialize(
        aksharas.iter().map(|s| akshara(s)).collect(),
        strings(seeds),
        strings(punct),
        Vec::new(),
        Vec::new(),
        &bytes_to_unicode(),
    );
    v
}

fn id(v: &Vocabulary, s: &str) -> usize {
    v.get_id_by_surface(s).unwrap()
}

#[test]
fn the_base_inventory_has_a_known_size() {
    // Two markers, two dandas, 15 marks, 62 letters and digits, 194 further bytes, the non-joiner.
    assert_eq!(base(&[], &[], &[]).len(), 276);
    // Of eight marks, six are ASCII and stand for their bytes.
    let marks = [".", ",", "।", "॥", "?", "!", ";", ":"];
    assert_eq!(base(&[], &[], &marks).len(), 276);
    assert_eq!(base(&["क", "क", "ख"], &[], &[]).len(), 278);
}

#[test]
fn tokens_are_numbered_in_the_order_of_the_inventory() {
    let v = base(&["क", "ख"], &["नेपाल"], &["।"]);
    assert_eq!(id(&v, "क"), 0);
    assert_eq!(id(&v, "ख"), 1);
    assert_eq!(id(&v, "नेपाल"), 2);
    assert_eq!(id(&v, "\u{2581}"), 3);
    assert_eq!(id(&v, "\u{2582}"), 4);
    assert_eq!(id(&v, "।"), 5);
    assert_eq!(id(&v, "॥"), 6);
    assert_eq!(id(&v, "\u{2010}"), 7);
    assert_eq!(id(&v, "a"), 22);
    assert_eq!(id(&v, "A"), 48);
    assert_eq!(id(&v, "0"), 74);
    assert_eq!(id(&v, "\u{100}"), 84);
    assert_eq!(id(&v, "\u{200C}"), v.len() - 1);
    assert_eq!(v.get_surface(2), Some("नेपाल".to_string()));
    assert_eq!(v.get_surface(v.len()), None);
}

#[test]
fn tokens_know_their_script() {
    let v = base(&["क"], &["नेपाल"], &["।"]);
    let script = |s: &str| v.get_script(id(&v, s));
    assert_eq!(script("क"), Script::DEV);
    assert_eq!(script("नेपाल"), Script::DEV);
    assert_eq!(script("\u{2581}"), Script::DEV);
    assert_eq!(script("\u{2582}"), Script::LAT);
    assert_eq!(script("q"), Script::LAT);
    assert_eq!(script("।"), Script::PUN);
    assert_eq!(script("\u{100}"), Script::MAL);
    assert_eq!(script("\u{200C}"), Script::FMT);
    assert_eq!(v.get_script(v.len()), Script::MAL);
    assert_eq!(v.script_vector().len(), v.len());
    assert_eq!(v.script_vector()[0], 0);
    assert_eq!(v.count_script(Script::DEV), 3);
    assert_eq!(v.count_script(Script::LAT), 63);
    assert_eq!(v.count_script(Script::PUN), 17);
    assert_eq!(v.count_script(Script::FMT), 1);
    assert_eq!(v.count_script(Script::MAL), 194);
}

#[test]
fn seeds_join_the_sets_that_name_them() {
    let mut v = Vocabulary::new();
    v.initialize(
        Vec::new(),
        strings(&["एक", "दुई", "तीन"]),
        Vec::new(),
        strings(&["एक", "चार"]),
        strings(&["दुई", "पाँच"]),
        &bytes_to_unicode(),
    );
    assert!(v.is_strict(id(&v, "एक")) && !v.is_ambiguous(id(&v, "एक")));
    assert!(!v.is_strict(id(&v, "दुई")) && v.is_ambiguous(id(&v, "दुई")));
    assert!(!v.is_strict(id(&v, "तीन")) && !v.is_ambiguous(id(&v, "तीन")));
    assert!(v.is_strict(id(&v, "चार")) && !v.is_ambiguous(id(&v, "चार")));
    assert!(!v.is_strict(id(&v, "पाँच")) && v.is_ambiguous(id(&v, "पाँच")));
    assert_eq!(id(&v, "चार"), 3);
    assert_eq!(v.max_surface_len(), 4);
}

#[test]
fn listed_names_of_bytes_stay_with_their_bytes() {
    let mut v = Vocabulary::new();
    v.initialize(
        vec![akshara("\u{100}")],
        strings(&["é"]),
        strings(&["«", "!"]),
        strings(&["é"]),
        Vec::new(),
        &bytes_to_unicode(),
    );
    let byte = |s: &str| match &**v.get_token(id(&v, s)).unwrap() {
        Token::ByteFallback(b) => Some(*b),
        _ => None,
    };
    assert_eq!(byte("\u{100}"), Some(0));
    assert_eq!(byte("é"), Some(0xE9));
    assert_eq!(byte("«"), Some(0xAB));
    // A visible ASCII character may have a token of its own kind.
    assert_eq!(byte("!"), None);
    assert!(v.is_strict(id(&v, "é")));
    assert_eq!(v.len(), 276);
}

#[test]
fn no_surface_stands_twice_and_the_longest_is_known() {
    let mut v = base(&["क", "ख"], &["नेपाल", "क"], &["।", "««"]);
    v.add_induced_ambiguous("नेपाली".to_string(), 1);
    v.add_induced_ambiguous("ख".to_string(), 1);
    v.create_merged(0, 1, Vec::new());
    v.create_merged(0, 1, Vec::new());
    let mut surfaces: Vec<String> = v.get_all_surfaces().into_iter().map(|p| p.1).collect();
    let longest = surfaces.iter().map(|s| s.chars().count()).max().unwrap();
    assert_eq!(v.max_surface_len(), longest);
    surfaces.sort();
    surfaces.dedup();
    assert_eq!(surfaces.len(), v.len());
}

#[test]
fn a_known_surface_keeps_its_token() {
    let mut v = Vocabulary::new();
    let first = v.add_token(Token::Latin("x".to_string()), "x".to_string(), false, false);
    let again = v.add_token(Token::Punctuation("x".to_string()), "x".to_string(), true, false);
    assert_eq!(first, again);
    assert_eq!(v.len(), 1);
    assert!(!v.is_empty());
    assert!(v.is_strict(first));
    assert_eq!(v.get_token(first).unwrap().script(), Script::LAT);
    assert!(v.get_token(1).is_none());
}

#[test]
fn merges_join_surfaces() {
    let mut v = base(&["क", "ख"], &[], &[]);
    let n = v.len();
    let m = v.create_merged(0, 1, vec![7]);
    assert_eq!(m, n);
    assert_eq!(v.get_surface(m), Some("कख".to_string()));
    assert_eq!(v.get_script(m), Script::DEV);
    assert_eq!(v.get_root_set(m), &[7]);
    assert_eq!(v.create_merged(0, 1, vec![8]), m);
    assert_eq!(v.get_root_set(m), &[7]);
    assert_eq!(v.len(), n + 1);
    let lat = v.create_merged(id(&v, "a"), id(&v, "b"), Vec::new());
    assert_eq!(v.get_script(lat), Script::LAT);
}

#[test]
fn induced_units_are_ambiguous_and_promoted_by_people_only() {
    let mut v = base(&[], &[], &[]);
    let u = v.add_induced_ambiguous("हरु".to_string(), 5);
    assert!(v.is_ambiguous(u) && !v.is_strict(u));
    assert_eq!(v.induction_confidence(u), Some(5));
    assert_eq!(v.induction_confidence(0), None);
    assert!(!v.promote_to_strict("हरु", false));
    assert!(v.is_ambiguous(u) && !v.is_strict(u));
    assert!(v.promote_to_strict("हरु", true));
    assert!(!v.is_ambiguous(u) && v.is_strict(u));
    assert!(!v.promote_to_strict("none", true));
}

#[test]
fn paradigms_allow_what_was_set() {
    let mut p = Paradigm::new(4);
    p.set_allowed("गर".to_string(), strings(&["छ", "यो"]));
    assert!(p.allows("गर", "छ") && p.allows("गर", "यो"));
    assert!(!p.allows("गर", "नु") && !p.allows("जा", "छ"));
    assert!(p.has_prefix("गर") && !p.has_prefix("जा"));
    let mut r = ParadigmRegistry::new();
    r.add_paradigm(p);
    let mut q = Paradigm::new(2);
    q.set_allowed("गर".to_string(), strings(&["नु"]));
    r.add_paradigm(q);
    assert_eq!(r.roots(), vec![4, 2]);
    assert_eq!(r.get_root_set("गर"), vec![4, 2]);
    assert!(r.get_root_set("जा").is_empty());
    assert!(r.check_allowed(4, "गर", "छ") && !r.check_allowed(2, "गर", "छ"));
    assert!(!r.check_allowed(9, "गर", "छ"));
}

#[test]
fn the_last_paradigm_of_a_root_decides() {
    let mut r = ParadigmRegistry::new();
    let mut p = Paradigm::new(1);
    p.set_allowed("a".to_string(), strings(&["b"]));
    r.add_paradigm(p);
    r.add_paradigm(Paradigm::new(1));
    assert!(!r.check_allowed(1, "a", "b"));
    assert_eq!(r.get_root_set("a"), vec![1]);
}

#[test]
fn roots_are_ordered_by_falling_prior() {
    let mut v = base(&["क"], &[], &["।"]);
    let mut r = ParadigmRegistry::new();
    for root in [5, 3, 9, 4] {
        let mut p = Paradigm::new(root);
        p.set_allowed("क".to_string(), Vec::new());
        p.set_allowed("।".to_string(), Vec::new());
        r.add_paradigm(p);
    }
    let mut prior: HashMap<usize, i64> = HashMap::new();
    prior.insert(9, 3 * WEIGHT_ONE);
    prior.insert(5, WEIGHT_ONE / 2);
    v.assign_roots_from_registry(&r, &prior);
    // Roots without a prior have the prior one; of equals the smaller number comes first.
    assert_eq!(v.get_root_set(0), &[9, 3, 4, 5]);
    assert!(v.get_root_set(id(&v, "।")).is_empty());
    assert!(v.get_root_set(v.len()).is_empty());
}

#[test]
fn loading_goes_by_the_order_of_the_numbers() {
    let mut v = base(&["क"], &[], &[]);
    let pairs = vec![
        (7, "the".to_string()),
        (1, "\u{2582}to".to_string()),
        (0, "\u{2581}".to_string()),
        (3, "\u{100}".to_string()),
        (2, "कख".to_string()),
        (9, "\u{200C}".to_string()),
        (8, ".".to_string()),
    ];
    v.load_from_pairs(pairs, &decoder_of(&bytes_to_unicode()));
    let surfaces: Vec<String> = v.get_all_surfaces().into_iter().map(|p| p.1).collect();
    assert_eq!(
        surfaces,
        vec!["\u{2581}", "\u{2582}to", "कख", "\u{100}", "the", ".", "\u{200C}", "\u{2582}"]
    );
    let codes: Vec<u8> = v.script_vector();
    assert_eq!(codes, vec![0, 1, 0, 4, 1, 4, 3, 1]);
    assert_eq!(v.max_surface_len(), 3);
}

#[test]
fn loading_lets_the_later_of_two_equal_surfaces_be_found() {
    let mut v = Vocabulary::new();
    let pairs = vec![(0, "x".to_string()), (1, "x".to_string())];
    v.load_from_pairs(pairs, &decoder_of(&bytes_to_unicode()));
    assert_eq!(v.len(), 4);
    assert_eq!(v.get_id_by_surface("x"), Some(1));
    assert_eq!(v.get_id_by_surface("\u{2581}"), Some(2));
    assert_eq!(v.get_id_by_surface("\u{2582}"), Some(3));
}

#[test]
fn loading_goes_by_the_bytes_that_the_decoder_knows() {
    let mut v = Vocabulary::new();
    let decoder = HashMap::from([('é' as u32, 7u8)]);
    v.load_from_pairs(vec![(0, "é".to_string()), (1, "\u{100}".to_string())], &decoder);
    assert!(matches!(**v.get_token(0).unwrap(), Token::ByteFallback(7)));
    assert!(matches!(**v.get_token(1).unwrap(), Token::Loaded(_)));
}

#[test]
fn the_decoder_undoes_the_byte_alphabet() {
    let table = bytes_to_unicode();
    let decoder = decoder_of(&table);
    assert_eq!(decoder.len(), 256);
    for b in 0u8..=255 {
        assert_eq!(decoder.get(&(table[b as usize] as u32)), Some(&b));
    }
}
