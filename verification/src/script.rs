//! Script classes, word-start markers and the byte alphabet.

use crate::text::{is_ascii_alphanumeric, is_ascii_graphic, is_ascii_punctuation};
use std::collections::HashMap;
use vstd::prelude::*;

verus! {

/// Marks the start of a word that does not begin with an ASCII letter or digit.
pub const DEV_MARKER: char = '\u{2581}';

/// Marks the start of a word that begins with an ASCII letter or digit.
pub const LAT_MARKER: char = '\u{2582}';

pub const ZWNJ: char = '\u{200C}';

pub const ZWJ: char = '\u{200D}';

pub const DANDA: char = '\u{0964}';

pub const DOUBLE_DANDA: char = '\u{0965}';

/// The class of a token or of a character.
#[derive(Debug, Clone, Copy, PartialEq, Eq, Hash, Structural)]
pub enum Script {
    /// Devanagari.
    DEV,
    /// ASCII letters and digits.
    LAT,
    /// Punctuation.
    PUN,
    /// The zero-width non-joiner.
    FMT,
    /// Everything else, spelled out in bytes.
    MAL,
}

impl Script {
    /// The tier of the script in merge selection.
    #[verifier::allow_in_spec]
    pub fn rank(&self) -> u8
        returns
            (match *self {
                Script::DEV => 2u8,
                Script::PUN => 1u8,
                _ => 0u8,
            }),
    {
        match *self {
            Script::DEV => 2,
            Script::PUN => 1,
            _ => 0,
        }
    }

    /// The number by which the script is exported.
    #[verifier::allow_in_spec]
    pub fn code(&self) -> u8
        returns
            (match *self {
                Script::DEV => 0u8,
                Script::LAT => 1u8,
                Script::PUN => 2u8,
                Script::FMT => 3u8,
                Script::MAL => 4u8,
            }),
    {
        match *self {
            Script::DEV => 0,
            Script::LAT => 1,
            Script::PUN => 2,
            Script::FMT => 3,
            Script::MAL => 4,
        }
    }
}

#[verifier::allow_in_spec]
pub fn is_marker(ch: char) -> bool
    returns
        ch == DEV_MARKER || ch == LAT_MARKER,
{
    ch == DEV_MARKER || ch == LAT_MARKER
}

/// The marker for a word whose first character is `next`.
pub open spec fn marker_of(next: Option<char>) -> char {
    match next {
        Some(c) => if is_ascii_alphanumeric(c) {
            LAT_MARKER
        } else {
            DEV_MARKER
        },
        None => DEV_MARKER,
    }
}

pub fn marker_for(next: Option<char>) -> (m: char)
    ensures
        m == marker_of(next),
{
    match next {
        Some(c) => if is_ascii_alphanumeric(c) {
            LAT_MARKER
        } else {
            DEV_MARKER
        },
        None => DEV_MARKER,
    }
}

/// The punctuation beyond ASCII and the dandas: dashes, quotation marks and the
/// ellipsis.
pub open spec fn extended_punct() -> Seq<char> {
    seq![
        '\u{2010}', '\u{2011}', '\u{2012}', '\u{2013}', '\u{2014}', '\u{2015}', '\u{2018}',
        '\u{2019}', '\u{201A}', '\u{201B}', '\u{201C}', '\u{201D}', '\u{201E}', '\u{201F}',
        '\u{2026}',
    ]
}

pub fn extended_punct_chars() -> (v: Vec<char>)
    ensures
        v@ == extended_punct(),
{
    let v: Vec<char> = vec![
        '\u{2010}', '\u{2011}', '\u{2012}', '\u{2013}', '\u{2014}', '\u{2015}', '\u{2018}',
        '\u{2019}', '\u{201A}', '\u{201B}', '\u{201C}', '\u{201D}', '\u{201E}', '\u{201F}',
        '\u{2026}',
    ];
    assert(v@ =~= extended_punct());
    v
}

#[verifier::allow_in_spec]
pub fn is_unicode_punct(ch: char) -> bool
    returns
        ('\u{2010}' <= ch && ch <= '\u{2015}') || ('\u{2018}' <= ch && ch <= '\u{201F}') || ch
            == '\u{2026}',
{
    ('\u{2010}' <= ch && ch <= '\u{2015}') || ('\u{2018}' <= ch && ch <= '\u{201F}') || ch
        == '\u{2026}'
}

/// The extended punctuation is exactly what [`is_unicode_punct`] accepts.
pub proof fn law_extended_punctuation(ch: char)
    ensures
        extended_punct().contains(ch) <==> is_unicode_punct(ch),
{
    let s = extended_punct();
    if is_unicode_punct(ch) {
        let k: int = if ch <= '\u{2015}' {
            ch as int - 0x2010
        } else if ch <= '\u{201F}' {
            ch as int - 0x2018 + 6
        } else {
            14
        };
        assert(s[k] == ch);
    }
}

/// The class of a character of a text.
#[verifier::allow_in_spec]
pub fn classify_char(ch: char) -> Script
    returns
        (if ch == ZWNJ {
            Script::FMT
        } else if is_ascii_punctuation(ch) || ch == DANDA || ch == DOUBLE_DANDA
            || is_unicode_punct(ch) {
            Script::PUN
        } else if is_ascii_alphanumeric(ch) {
            Script::LAT
        } else if '\u{0900}' <= ch && ch <= '\u{097F}' {
            Script::DEV
        } else {
            Script::MAL
        }),
{
    if ch == ZWNJ {
        Script::FMT
    } else if is_ascii_punctuation(ch) || ch == DANDA || ch == DOUBLE_DANDA || is_unicode_punct(
        ch,
    ) {
        Script::PUN
    } else if is_ascii_alphanumeric(ch) {
        Script::LAT
    } else if '\u{0900}' <= ch && ch <= '\u{097F}' {
        Script::DEV
    } else {
        Script::MAL
    }
}

/// The bytes that stand for themselves in the byte alphabet: visible ASCII and
/// the visible part of Latin-1.
#[verifier::allow_in_spec]
pub fn is_self_spelled(b: u8) -> bool
    returns
        is_ascii_graphic(b) || (0xA1 <= b && b <= 0xAC) || 0xAE <= b,
{
    is_ascii_graphic(b) || (0xA1 <= b && b <= 0xAC) || 0xAE <= b
}

/// How many bytes below `b` do not stand for themselves.
pub open spec fn shifted_below(b: nat) -> nat
    decreases b,
{
    if b == 0 {
        0
    } else {
        shifted_below((b - 1) as nat) + if is_self_spelled((b - 1) as u8) {
            0nat
        } else {
            1nat
        }
    }
}

/// The character that stands for a byte: the byte's own Latin-1 character where
/// that is visible, else the next unused character from U+0100 on.
pub open spec fn byte_char(b: u8) -> char {
    if is_self_spelled(b) {
        b as char
    } else {
        (256 + shifted_below(b as nat)) as char
    }
}

/// The byte alphabet: the characters of all bytes, in order.
pub open spec fn byte_table() -> Seq<char> {
    Seq::new(256, |i: int| byte_char(i as u8))
}

/// The bytes by the codes of their characters.
pub open spec fn byte_decoder() -> Map<u32, u8> {
    Map::new(
        |c: u32| exists|b: u8| c == #[trigger] byte_char(b) as u32,
        |c: u32| choose|b: u8| c == #[trigger] byte_char(b) as u32,
    )
}

/// Each byte is found under its character, and nothing else is found.
pub proof fn lemma_byte_decoder(c: char, b: u8)
    ensures
        byte_decoder().contains_key(byte_char(b) as u32),
        byte_decoder()[byte_char(b) as u32] == b,
        byte_decoder().contains_key(c as u32) ==> byte_char(byte_decoder()[c as u32]) == c,
{
    let x = choose|x: u8| byte_char(b) as u32 == #[trigger] byte_char(x) as u32;
    lemma_byte_char(x, b);
}

pub proof fn lemma_shifted_below(b: nat, c: nat)
    requires
        b <= c <= 256,
    ensures
        shifted_below(b) <= b,
        shifted_below(b) <= shifted_below(c),
        b < c && !is_self_spelled(b as u8) ==> shifted_below(b) < shifted_below(c),
    decreases c,
{
    if b < c {
        lemma_shifted_below(b, (c - 1) as nat);
    } else if b > 0 {
        lemma_shifted_below((b - 1) as nat, (b - 1) as nat);
    }
}

/// Different bytes have different characters; those below U+0080 are the visible
/// ASCII characters, and none lies beyond U+01FF.
pub proof fn lemma_byte_char(b: u8, c: u8)
    ensures
        byte_char(b) == byte_char(c) ==> b == c,
        byte_char(b) < '\u{80}' <==> is_ascii_graphic(b),
        is_ascii_graphic(b) ==> byte_char(b) as int == b as int,
        '\u{21}' <= byte_char(b) <= '\u{1FF}',
{
    lemma_shifted_below(b as nat, 256);
    lemma_shifted_below(c as nat, 256);
    assert(!is_self_spelled(b) ==> byte_char(b) as int == 256 + shifted_below(b as nat));
    assert(!is_self_spelled(c) ==> byte_char(c) as int == 256 + shifted_below(c as nat));
    assert(is_self_spelled(b) ==> byte_char(b) as int == b as int);
    assert(is_self_spelled(c) ==> byte_char(c) as int == c as int);
    if b < c {
        lemma_shifted_below(b as nat, c as nat);
    } else {
        lemma_shifted_below(c as nat, b as nat);
    }
}

/// The character with a code below the surrogates.
pub fn scalar(code: u32) -> (c: char)
    requires
        code < 0xD800,
    ensures
        c as u32 == code,
{
    match char::from_u32(code) {
        Some(c) => c,
        None => ' ',
    }
}

/// The byte alphabet as a table.
pub fn bytes_to_unicode() -> (table: [char; 256])
    ensures
        table@ == byte_table(),
{
    let mut table: [char; 256] = ['\u{0}'; 256];
    let mut n: u32 = 0;
    for b in 0u16..256u16
        invariant
            n == shifted_below(b as nat),
            n <= b,
            table@.len() == 256,
            forall|c: u8| c < b ==> #[trigger] table@[c as int] == byte_char(c),
    {
        let byte: u8 = b as u8;
        let code: u32 = if is_self_spelled(byte) {
            byte as u32
        } else {
            let c: u32 = 256 + n;
            n = n + 1;
            c
        };
        table[b as usize] = scalar(code);
    }
    assert(table@ =~= byte_table()) by {
        assert forall|i: int| 0 <= i < 256 implies #[trigger] table@[i] == byte_table()[i] by {
            assert(table@[i as u8 as int] == byte_char(i as u8));
        }
    }
    table
}

/// The bytes by the codes of their characters.
pub fn decoder_of(table: &[char; 256]) -> (decoder: HashMap<u32, u8>)
    requires
        table@ == byte_table(),
    ensures
        decoder@ == byte_decoder(),
{
    let mut decoder: HashMap<u32, u8> = HashMap::new();
    for i in 0usize..256usize
        invariant
            table@ == byte_table(),
            forall|b: u8|
                b < i ==> decoder@.contains_key(#[trigger] byte_char(b) as u32)
                    && decoder@[byte_char(b) as u32] == b,
            forall|c: u32| #[trigger]
                decoder@.contains_key(c) ==> exists|b: u8| c == #[trigger] byte_char(b) as u32,
    {
        let ghost before = decoder@;
        decoder.insert(table[i] as u32, i as u8);
        assert(table@[i as int] == byte_char(i as u8));
        assert forall|b: u8| b <= i implies decoder@.contains_key(#[trigger] byte_char(b) as u32)
            && decoder@[byte_char(b) as u32] == b by {
            lemma_byte_char(b, i as u8);
        }
    }
    assert forall|c: u32| decoder@.contains_key(c) == byte_decoder().contains_key(c) && (
    decoder@.contains_key(c) ==> decoder@[c] == byte_decoder()[c]) by {
        if byte_decoder().contains_key(c) || decoder@.contains_key(c) {
            let b = choose|b: u8| c == #[trigger] byte_char(b) as u32;
            lemma_byte_decoder(byte_char(b), b);
            assert(decoder@.contains_key(byte_char(b) as u32));
        }
    }
    assert(decoder@ =~= byte_decoder());
    decoder
}

} // verus!
