use himalayan_tokenization::script::{
    bytes_to_unicode, classify_char, extended_punct_chars, is_marker, is_unicode_punct, marker_for,
    Script, DEV_MARKER, LAT_MARKER, ZWNJ,
};
use himalayan_tokenization::text::{
    chars_of, contains_text, is_ascii_alphanumeric, is_ascii_graphic, is_ascii_punctuation,
    is_white_space, push_text, same_text, split_words, string_of, string_of_char,
};

fn every_char() -> Vec<char> {
    (0u32..=0x10FFFF).filter_map(char::from_u32).collect()
}

#[test]
fn ascii_predicates_agree_with_std() {
    for c in every_char() {
        assert_eq!(is_ascii_alphanumeric(c), c.is_ascii_alphanumeric());
        assert_eq!(is_ascii_punctuation(c), c.is_ascii_punctuation());
    }
    for b in 0u8..=255 {
        assert_eq!(is_ascii_graphic(b), b.is_ascii_graphic());
    }
}

#[test]
fn white_space_agrees_with_std() {
    for c in every_char() {
        assert_eq!(is_white_space(c), c.is_whitespace());
    }
}

#[test]
fn words_are_split_as_by_std() {
    for text in ["", "  ", "एक दुई", "\t a\u{3000}b \n c\u{A0}d", "one"] {
        let chars = chars_of(text);
        let ours: Vec<String> = split_words(&chars)
            .iter()
            .map(|w| w.iter().collect::<String>())
            .collect();
        let theirs: Vec<String> = text.split_whitespace().map(|w| w.to_string()).collect();
        assert_eq!(ours, theirs);
    }
}

#[test]
fn strings_and_characters_convert() {
    let chars = chars_of("कखगa");
    assert_eq!(chars, vec!['क', 'ख', 'ग', 'a']);
    assert_eq!(string_of(&chars, 1, 3), "खग");
    assert_eq!(string_of(&chars, 2, 2), "");
    assert_eq!(string_of_char('\u{1F600}'), "\u{1F600}");
    let mut s = String::from("अ");
    push_text(&mut s, "bc");
    assert_eq!(s, "अbc");
    assert!(same_text("अb", "अb"));
    assert!(!same_text("अb", "अ"));
    assert!(!same_text("अb", "अc"));
    let list = vec![String::from("x"), String::from("yz")];
    assert!(contains_text(&list, "yz"));
    assert!(!contains_text(&list, "y"));
}

#[test]
fn byte_alphabet_has_known_characters() {
    let table = bytes_to_unicode();
    assert_eq!(table[b'A' as usize], 'A');
    assert_eq!(table[b'!' as usize], '!');
    assert_eq!(table[0x00], '\u{100}');
    assert_eq!(table[0x20], '\u{120}');
    assert_eq!(table[0x7F], '\u{121}');
    assert_eq!(table[0x80], '\u{122}');
    assert_eq!(table[0xA0], '\u{142}');
    assert_eq!(table[0xA1], '\u{A1}');
    assert_eq!(table[0xAD], '\u{143}');
    assert_eq!(table[0xFF], '\u{FF}');
}

#[test]
fn byte_alphabet_has_no_character_twice() {
    let mut chars: Vec<char> = bytes_to_unicode().to_vec();
    chars.sort();
    chars.dedup();
    assert_eq!(chars.len(), 256);
}

#[test]
fn scripts_have_ranks_and_codes() {
    assert_eq!(Script::DEV.rank(), 2);
    assert_eq!(Script::PUN.rank(), 1);
    assert_eq!(Script::LAT.rank(), 0);
    assert_eq!(Script::DEV.code(), 0);
    assert_eq!(Script::LAT.code(), 1);
    assert_eq!(Script::PUN.code(), 2);
    assert_eq!(Script::FMT.code(), 3);
    assert_eq!(Script::MAL.code(), 4);
}

#[test]
fn characters_have_classes() {
    assert_eq!(classify_char('क'), Script::DEV);
    assert_eq!(classify_char('०'), Script::DEV);
    assert_eq!(classify_char('z'), Script::LAT);
    assert_eq!(classify_char('7'), Script::LAT);
    assert_eq!(classify_char('।'), Script::PUN);
    assert_eq!(classify_char('॥'), Script::PUN);
    assert_eq!(classify_char('#'), Script::PUN);
    assert_eq!(classify_char('\u{2013}'), Script::PUN);
    assert_eq!(classify_char(ZWNJ), Script::FMT);
    assert_eq!(classify_char('é'), Script::MAL);
    assert_eq!(classify_char('\n'), Script::MAL);
    assert_eq!(classify_char('\u{1F600}'), Script::MAL);
}

#[test]
fn extended_punctuation_is_what_the_predicate_accepts() {
    let listed = extended_punct_chars();
    assert_eq!(listed.len(), 15);
    for c in every_char() {
        assert_eq!(is_unicode_punct(c), listed.contains(&c));
    }
}

#[test]
fn markers_tell_the_script_of_the_next_word() {
    assert_eq!(marker_for(Some('a')), LAT_MARKER);
    assert_eq!(marker_for(Some('9')), LAT_MARKER);
    assert_eq!(marker_for(Some('क')), DEV_MARKER);
    assert_eq!(marker_for(Some('!')), DEV_MARKER);
    assert_eq!(marker_for(None), DEV_MARKER);
    assert!(is_marker('\u{2581}') && is_marker('\u{2582}') && !is_marker('\u{2583}'));
}
