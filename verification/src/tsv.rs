//! Vocabularies as lines of text: a header with the folding mode, and then for each
//! token its number, a tab and its surface.

use crate::encoding::EncoderModel;
use crate::lossless::listed;
use crate::normalize::{law_tag_round_trip, mode_of_tag, FoldMode};
use crate::script::byte_decoder;
use crate::text::{chars_of, push_text, string_of, texts};
use crate::tokenizer::{longest_abbreviation, HimalayanTokenization};
use crate::vocab::{loaded, pair_texts, VocabModel};
use vstd::prelude::*;

verus! {

/// What stands for a character in a line.
pub open spec fn escape(c: char) -> Seq<char> {
    if c == '\\' {
        seq!['\\', '\\']
    } else if c == '\t' {
        seq!['\\', 't']
    } else if c == '\n' {
        seq!['\\', 'n']
    } else {
        seq![c]
    }
}

/// A text with backslashes, tabs and line feeds written out.
pub open spec fn escaped(s: Seq<char>) -> Seq<char>
    decreases s.len(),
{
    if s.len() == 0 {
        Seq::empty()
    } else {
        escaped(s.drop_last()) + escape(s.last())
    }
}

/// A line's text read back. A backslash before any other character stands for itself.
pub open spec fn unescaped(s: Seq<char>) -> Seq<char>
    decreases s.len(),
{
    if s.len() == 0 {
        Seq::empty()
    } else if s[0] != '\\' || s.len() == 1 {
        seq![s[0]] + unescaped(s.skip(1))
    } else if s[1] == 't' {
        seq!['\t'] + unescaped(s.skip(2))
    } else if s[1] == 'n' {
        seq!['\n'] + unescaped(s.skip(2))
    } else if s[1] == '\\' {
        seq!['\\'] + unescaped(s.skip(2))
    } else {
        seq!['\\', s[1]] + unescaped(s.skip(2))
    }
}

pub fn escape_tsv(s: &str) -> (out: String)
    ensures
        out@ == escaped(s@),
{
    let chars = chars_of(s);
    let mut out = String::new();
    assert(out@ =~= escaped(s@.take(0)));
    for i in 0..chars.len()
        invariant
            chars@ == s@,
            out@ == escaped(s@.take(i as int)),
    {
        let c = chars[i];
        let ghost before = out@;
        assert(s@.take(i + 1).drop_last() =~= s@.take(i as int));
        if c == '\\' {
            out.push('\\');
            out.push('\\');
        } else if c == '\t' {
            out.push('\\');
            out.push('t');
        } else if c == '\n' {
            out.push('\\');
            out.push('n');
        } else {
            out.push(c);
        }
        assert(out@ =~= before + escape(c));
    }
    assert(s@.take(chars@.len() as int) =~= s@);
    out
}

pub fn unescape_tsv(s: &str) -> (out: String)
    ensures
        out@ == unescaped(s@),
{
    let chars = chars_of(s);
    let n = chars.len();
    let mut out = String::new();
    let mut i: usize = 0;
    assert(s@.skip(0) =~= s@);
    assert(out@ + unescaped(s@) =~= unescaped(s@));
    while i < n
        invariant
            i <= n == chars@.len(),
            chars@ == s@,
            out@ + unescaped(s@.skip(i as int)) == unescaped(s@),
        decreases n - i,
    {
        let c = chars[i];
        let ghost rest = s@.skip(i as int);
        let ghost before = out@;
        if c != '\\' || i == n - 1 {
            out.push(c);
            assert(rest.skip(1) =~= s@.skip(i + 1));
            assert(before.push(c) + unescaped(s@.skip(i + 1)) =~= before + (seq![c] + unescaped(
                s@.skip(i + 1),
            )));
            i = i + 1;
        } else {
            let d = chars[i + 1];
            assert(rest[1] == d);
            assert(rest.skip(2) =~= s@.skip(i + 2));
            if d == 't' {
                out.push('\t');
            } else if d == 'n' {
                out.push('\n');
            } else if d == '\\' {
                out.push('\\');
            } else {
                out.push('\\');
                out.push(d);
            }
            let ghost got = out@.skip(before.len() as int);
            assert(out@ =~= before + got);
            assert(before + got + unescaped(s@.skip(i + 2)) =~= before + (got + unescaped(
                s@.skip(i + 2),
            )));
            assert(unescaped(rest) =~= got + unescaped(s@.skip(i + 2)));
            i = i + 2;
        }
    }
    assert(s@.skip(n as int) =~= Seq::<char>::empty());
    assert(out@ + Seq::<char>::empty() =~= out@);
    out
}

proof fn lemma_unescape_front(c: char, s: Seq<char>)
    ensures
        unescaped(escape(c) + s) == seq![c] + unescaped(s),
{
    let t = escape(c) + s;
    if escape(c).len() == 2 {
        assert(t.skip(2) =~= s);
    } else {
        assert(t.skip(1) =~= s);
    }
}

proof fn lemma_escaped_front(s: Seq<char>)
    requires
        s.len() > 0,
    ensures
        escaped(s) == escape(s[0]) + escaped(s.skip(1)),
    decreases s.len(),
{
    if s.len() == 1 {
        assert(s.drop_last() =~= Seq::<char>::empty());
        assert(s.skip(1) =~= Seq::<char>::empty());
        assert(Seq::<char>::empty() + escape(s[0]) =~= escape(s[0]) + Seq::<char>::empty());
    } else {
        lemma_escaped_front(s.drop_last());
        assert(s.drop_last().skip(1) =~= s.skip(1).drop_last());
        assert(escape(s[0]) + escaped(s.skip(1).drop_last()) + escape(s.last()) =~= escape(s[0])
            + (escaped(s.skip(1).drop_last()) + escape(s.last())));
    }
}

/// Reading back undoes writing out, for every text.
pub proof fn law_unescape_undoes_escape(s: Seq<char>)
    ensures
        unescaped(escaped(s)) == s,
    decreases s.len(),
{
    if s.len() > 0 {
        lemma_escaped_front(s);
        lemma_unescape_front(s[0], escaped(s.skip(1)));
        law_unescape_undoes_escape(s.skip(1));
        assert(seq![s[0]] + s.skip(1) =~= s);
    } else {
        assert(s =~= Seq::<char>::empty());
    }
}

/// What is written out holds no tab and no line feed.
pub proof fn law_escaped_text_fits_a_line(s: Seq<char>)
    ensures
        !escaped(s).contains('\t'),
        !escaped(s).contains('\n'),
    decreases s.len(),
{
    if s.len() > 0 {
        law_escaped_text_fits_a_line(s.drop_last());
        let front = escaped(s.drop_last());
        let e = escape(s.last());
        assert forall|i: int| 0 <= i < escaped(s).len() implies #[trigger] escaped(s)[i] != '\t'
            && escaped(s)[i] != '\n' by {
            if i < front.len() {
                assert(front.contains(front[i]));
            } else {
                assert(escaped(s)[i] == e[i - front.len()]);
            }
        }
    }
}

/// The character of a digit.
pub open spec fn digit(d: nat) -> char {
    (48 + d) as u8 as char
}

/// A number in decimal notation.
pub open spec fn decimal(n: nat) -> Seq<char>
    decreases n,
{
    if n < 10 {
        seq![digit(n)]
    } else {
        decimal(n / 10).push(digit(n % 10))
    }
}

pub open spec fn is_digit(c: char) -> bool {
    '0' <= c && c <= '9'
}

pub open spec fn all_digits(s: Seq<char>) -> bool {
    forall|i: int| 0 <= i < s.len() ==> is_digit(#[trigger] s[i])
}

/// The number that digits stand for.
pub open spec fn value(s: Seq<char>) -> nat
    decreases s.len(),
{
    if s.len() == 0 {
        0
    } else {
        value(s.drop_last()) * 10 + (s.last() as nat - 48) as nat
    }
}

/// The number that a text stands for: digits, which a plus sign may precede.
pub open spec fn parsed_number(s: Seq<char>) -> Option<usize> {
    let digits = if s.len() > 0 && s[0] == '+' {
        s.skip(1)
    } else {
        s
    };
    if digits.len() > 0 && all_digits(digits) && value(digits) <= usize::MAX {
        Some(value(digits) as usize)
    } else {
        None
    }
}

proof fn lemma_decimal(n: nat)
    ensures
        decimal(n).len() > 0,
        all_digits(decimal(n)),
        value(decimal(n)) == n,
    decreases n,
{
    if n < 10 {
        assert(decimal(n).drop_last() =~= Seq::<char>::empty());
        assert(digit(n) as nat == 48 + n);
        reveal_with_fuel(value, 2);
    } else {
        lemma_decimal(n / 10);
        let front = decimal(n / 10);
        let d = digit(n % 10);
        assert(d as nat == 48 + n % 10);
        assert(decimal(n).drop_last() =~= front);
        assert forall|i: int| 0 <= i < decimal(n).len() implies is_digit(
            #[trigger] decimal(n)[i],
        ) by {
            if i < front.len() {
                assert(is_digit(front[i]));
            }
        }
    }
}

/// A number in decimal notation.
pub fn decimal_text(n: usize) -> (s: String)
    ensures
        s@ == decimal(n as nat),
    decreases n,
{
    let d = (n % 10) as u8;
    let c = (48u8 + d) as char;
    if n < 10 {
        let mut s = String::new();
        s.push(c);
        assert(s@ =~= decimal(n as nat));
        s
    } else {
        let mut s = decimal_text(n / 10);
        s.push(c);
        s
    }
}

/// The number that a text stands for.
pub fn parse_number(s: &str) -> (n: Option<usize>)
    ensures
        n == parsed_number(s@),
{
    let chars = chars_of(s);
    let len = chars.len();
    let start: usize = if len > 0 && chars[0] == '+' {
        1
    } else {
        0
    };
    let ghost digits = s@.skip(start as int);
    assert(s@.skip(0) =~= s@);
    if start == len {
        return None;
    }
    let mut n: usize = 0;
    for i in start..len
        invariant
            start <= i <= len == chars@.len(),
            chars@ == s@,
            digits == s@.skip(start as int),
            digits == (if s@.len() > 0 && s@[0] == '+' {
                s@.skip(1)
            } else {
                s@
            }),
            all_digits(digits.take(i - start)),
            n == value(digits.take(i - start)),
    {
        let c = chars[i];
        assert(digits.take(i + 1 - start).drop_last() =~= digits.take(i - start));
        assert(digits[i - start] == c);
        if c < '0' || c > '9' {
            assert(!is_digit(digits[i - start]));
            return None;
        }
        let d = (c as u32 - 48) as usize;
        proof {
            lemma_value_grows(digits, i + 1 - start);
            assert forall|j: int| 0 <= j < i + 1 - start implies is_digit(
                #[trigger] digits.take(i + 1 - start)[j],
            ) by {
                if j < i - start {
                    assert(is_digit(digits.take(i - start)[j]));
                }
            }
        }
        if n > (usize::MAX - d) / 10 {
            return None;
        }
        n = n * 10 + d;
    }
    assert(digits.take(len - start) =~= digits);
    Some(n)
}

/// More digits make no smaller number.
proof fn lemma_value_grows(s: Seq<char>, k: int)
    requires
        0 <= k <= s.len(),
    ensures
        value(s.take(k)) <= value(s),
    decreases s.len(),
{
    if k < s.len() {
        lemma_value_grows(s.drop_last(), k);
        assert(s.drop_last().take(k) =~= s.take(k));
    } else {
        assert(s.take(k) =~= s);
    }
}

/// The text in front of the mode in a header.
pub open spec fn header_front() -> Seq<char> {
    seq![
        '#', ' ', 'n', 'e', 'p', 'b', 'p', 'e', '-', 'v', '4', ' ', 'm', 'o', 'd', 'e', '=',
    ]
}

/// The word that the mode stands behind.
pub open spec fn mode_word() -> Seq<char> {
    seq!['m', 'o', 'd', 'e', '=']
}

/// What stands behind the first mode word of a text.
pub open spec fn behind_mode_word(t: Seq<char>) -> Option<Seq<char>>
    decreases t.len(),
{
    if t.len() < 5 {
        None
    } else if t.take(5) == mode_word() {
        Some(t.skip(5))
    } else {
        behind_mode_word(t.skip(1))
    }
}

/// The place of the first tab, or the length of a text without one.
pub open spec fn tab_place(t: Seq<char>) -> nat
    decreases t.len(),
{
    if t.len() == 0 || t[0] == '\t' {
        0
    } else {
        1 + tab_place(t.skip(1))
    }
}

/// What has been read of a file: the mode of the last header that names one, and the
/// numbered surfaces.
#[verifier::ext_equal]
pub struct VocabFile {
    pub mode: Option<FoldMode>,
    pub pairs: Seq<(usize, Seq<char>)>,
}

/// The surface in a row, behind the tab.
pub open spec fn row_surface(l: Seq<char>) -> Seq<char> {
    let k = tab_place(l) as int;
    if k < l.len() {
        unescaped(l.skip(k + 1))
    } else {
        Seq::empty()
    }
}

impl VocabFile {
    /// One more line. Empty lines, other remarks and rows without a number are passed
    /// over; a header with an unknown mode names none.
    pub open spec fn with_line(self, l: Seq<char>) -> VocabFile {
        if l.len() == 0 {
            self
        } else if l[0] == '#' {
            match behind_mode_word(l.skip(1)) {
                Some(tag) => VocabFile { mode: mode_of_tag(tag), ..self },
                None => self,
            }
        } else {
            match parsed_number(l.take(tab_place(l) as int)) {
                Some(id) => VocabFile { pairs: self.pairs.push((id, row_surface(l))), ..self },
                None => self,
            }
        }
    }

    pub open spec fn read(lines: Seq<Seq<char>>) -> VocabFile
        decreases lines.len(),
    {
        if lines.len() == 0 {
            VocabFile { mode: None, pairs: Seq::empty() }
        } else {
            VocabFile::read(lines.drop_last()).with_line(lines.last())
        }
    }
}

/// The row of a token.
pub open spec fn row(id: nat, surface: Seq<char>) -> Seq<char> {
    decimal(id).push('\t') + escaped(surface)
}

/// A vocabulary as lines.
pub open spec fn vocab_lines(v: VocabModel, mode: FoldMode) -> Seq<Seq<char>> {
    seq![header_front() + mode.tag_text()] + Seq::new(
        v.surfaces.len(),
        |i: int| row(i as nat, v.surfaces[i]),
    )
}

proof fn lemma_tab_behind(p: Seq<char>, q: Seq<char>)
    requires
        all_digits(p),
    ensures
        tab_place(p.push('\t') + q) == p.len(),
    decreases p.len(),
{
    let t = p.push('\t') + q;
    if p.len() > 0 {
        let p1 = p.skip(1);
        assert forall|i: int| 0 <= i < p1.len() implies is_digit(#[trigger] p1[i]) by {
            assert(is_digit(p[i + 1]));
        }
        lemma_tab_behind(p1, q);
        assert(t.skip(1) =~= p1.push('\t') + q);
        assert(is_digit(p[0]));
        assert(t[0] == p[0]);
    } else {
        assert(t[0] == '\t');
    }
}

proof fn lemma_header_line(f: VocabFile, mode: FoldMode)
    ensures
        f.with_line(header_front() + mode.tag_text()) == (VocabFile { mode: Some(mode), ..f }),
{
    let l = header_front() + mode.tag_text();
    let t = l.skip(1);
    assert(l[0] == '#');
    reveal_with_fuel(behind_mode_word, 13);
    assert forall|k: int| 0 <= k < 11 implies (#[trigger] t.skip(k)).take(5) != mode_word() by {
        assert(t.skip(k).take(5)[0] == header_front()[k + 1]);
        assert(mode_word()[0] == 'm');
        assert(header_front()[k + 1] != 'm');
    }
    assert(t.skip(0) =~= t);
    assert(t.skip(1).skip(1) =~= t.skip(2));
    assert(t.skip(2).skip(1) =~= t.skip(3));
    assert(t.skip(3).skip(1) =~= t.skip(4));
    assert(t.skip(4).skip(1) =~= t.skip(5));
    assert(t.skip(5).skip(1) =~= t.skip(6));
    assert(t.skip(6).skip(1) =~= t.skip(7));
    assert(t.skip(7).skip(1) =~= t.skip(8));
    assert(t.skip(8).skip(1) =~= t.skip(9));
    assert(t.skip(9).skip(1) =~= t.skip(10));
    assert(t.skip(10).skip(1) =~= t.skip(11));
    assert(t.skip(11).take(5) =~= mode_word());
    assert(t.skip(11).skip(5) =~= mode.tag_text());
    law_tag_round_trip(mode);
}

proof fn lemma_row_line(f: VocabFile, id: usize, surface: Seq<char>)
    ensures
        f.with_line(row(id as nat, surface)) == (VocabFile {
            pairs: f.pairs.push((id, surface)),
            ..f
        }),
{
    let d = decimal(id as nat);
    let l = row(id as nat, surface);
    lemma_decimal(id as nat);
    lemma_tab_behind(d, escaped(surface));
    assert(is_digit(d[0]));
    assert(l[0] == d[0]);
    assert(l.take(d.len() as int) =~= d);
    assert(l.skip(d.len() as int + 1) =~= escaped(surface));
    law_unescape_undoes_escape(surface);
}

/// A vocabulary that is written out as lines is read back with its mode, its numbers
/// and its surfaces.
pub proof fn law_vocabulary_lines_read_back(v: VocabModel, mode: FoldMode)
    requires
        v.valid(),
    ensures
        VocabFile::read(vocab_lines(v, mode)) == (VocabFile { mode: Some(mode), pairs: listed(v) }),
{
    lemma_read_front(v, mode, v.surfaces.len() as int);
    let all = vocab_lines(v, mode);
    assert(all.take(v.surfaces.len() as int + 1) =~= all);
    assert(listed(v).take(v.surfaces.len() as int) =~= listed(v));
}

proof fn lemma_read_front(v: VocabModel, mode: FoldMode, n: int)
    requires
        v.valid(),
        0 <= n <= v.surfaces.len(),
    ensures
        VocabFile::read(vocab_lines(v, mode).take(n + 1)) == (VocabFile {
            mode: Some(mode),
            pairs: listed(v).take(n),
        }),
    decreases n,
{
    let all = vocab_lines(v, mode);
    let front = all.take(n + 1);
    assert(front.drop_last() =~= all.take(n));
    if n == 0 {
        assert(all.take(0) =~= Seq::<Seq<char>>::empty());
        let empty = VocabFile { mode: None, pairs: Seq::empty() };
        reveal_with_fuel(VocabFile::read, 2);
        assert(front.last() == header_front() + mode.tag_text());
        lemma_header_line(empty, mode);
        assert(listed(v).take(0) =~= Seq::<(usize, Seq<char>)>::empty());
    } else {
        lemma_read_front(v, mode, n - 1);
        let f = VocabFile::read(all.take(n));
        assert(front.last() == row((n - 1) as nat, v.surfaces[n - 1]));
        lemma_row_line(f, (n - 1) as usize, v.surfaces[n - 1]);
        assert(listed(v).take(n) =~= listed(v).take(n - 1).push(
            ((n - 1) as usize, v.surfaces[n - 1]),
        ));
    }
}

/// No line of a vocabulary holds a line feed.
pub proof fn law_vocabulary_lines_are_lines(v: VocabModel, mode: FoldMode, i: int)
    requires
        0 <= i < vocab_lines(v, mode).len(),
    ensures
        !vocab_lines(v, mode)[i].contains('\n'),
{
    let l = vocab_lines(v, mode)[i];
    if i > 0 {
        let s = v.surfaces[i - 1];
        let d = decimal((i - 1) as nat);
        assert(l == row((i - 1) as nat, s));
        lemma_decimal((i - 1) as nat);
        law_escaped_text_fits_a_line(s);
        assert forall|k: int| 0 <= k < l.len() implies #[trigger] l[k] != '\n' by {
            if k < d.len() {
                assert(is_digit(d[k]));
            } else if k > d.len() {
                assert(escaped(s).contains(escaped(s)[k - d.len() - 1]));
            }
        }
    } else {
        assert(l == header_front() + mode.tag_text());
    }
}

/// A vocabulary was made with another folding mode.
#[derive(Debug, Clone, Copy, PartialEq, Eq)]
pub struct ModeMismatch {
    pub found: FoldMode,
    pub expected: FoldMode,
}

/// What stands behind the first mode word of the characters from `from` on.
fn mode_tag(chars: &Vec<char>, from: usize) -> (tag: Option<String>)
    requires
        from <= chars@.len(),
    ensures
        match tag {
            Some(t) => behind_mode_word(chars@.skip(from as int)) == Some(t@),
            None => behind_mode_word(chars@.skip(from as int)) is None,
        },
{
    let n = chars.len();
    let ghost all = behind_mode_word(chars@.skip(from as int));
    let mut i: usize = from;
    while n - i >= 5
        invariant
            from <= i <= n == chars@.len(),
            all == behind_mode_word(chars@.skip(from as int)),
            all == behind_mode_word(chars@.skip(i as int)),
        decreases n - i,
    {
        let ghost t = chars@.skip(i as int);
        if chars[i] == 'm' && chars[i + 1] == 'o' && chars[i + 2] == 'd' && chars[i + 3] == 'e'
            && chars[i + 4] == '=' {
            assert(t.take(5) =~= mode_word());
            let tag = string_of(chars, i + 5, n);
            assert(tag@ =~= t.skip(5));
            return Some(tag);
        }
        proof {
            let w = t.take(5);
            if w == mode_word() {
                assert(w[0] == 'm' && w[1] == 'o' && w[2] == 'd' && w[3] == 'e' && w[4] == '=');
            }
            assert(t.skip(1) =~= chars@.skip(i + 1));
        }
        i = i + 1;
    }
    None
}

/// The mode and the numbered surfaces that lines hold.
pub fn read_vocab_lines(lines: &Vec<String>) -> (file: (Option<FoldMode>, Vec<(usize, String)>))
    ensures
        (VocabFile { mode: file.0, pairs: pair_texts(file.1@) }) == VocabFile::read(
            texts(lines@),
        ),
{
    let mut mode: Option<FoldMode> = None;
    let mut pairs: Vec<(usize, String)> = Vec::new();
    let ghost ls = texts(lines@);
    assert(pair_texts(pairs@) =~= Seq::<(usize, Seq<char>)>::empty());
    for i in 0..lines.len()
        invariant
            ls == texts(lines@),
            (VocabFile { mode, pairs: pair_texts(pairs@) }) == VocabFile::read(
                ls.take(i as int),
            ),
    {
        let chars = chars_of(lines[i].as_str());
        let ghost l = ls[i as int];
        let ghost before = VocabFile { mode, pairs: pair_texts(pairs@) };
        assert(chars@ == l);
        assert(ls.take(i + 1).drop_last() =~= ls.take(i as int));
        if chars.len() > 0 {
            if chars[0] == '#' {
                if let Some(tag) = mode_tag(&chars, 1) {
                    mode = FoldMode::from_tag(tag.as_str());
                }
            } else {
                let n = chars.len();
                let mut k: usize = 0;
                assert(l.skip(0) =~= l);
                while k < n && chars[k] != '\t'
                    invariant
                        k <= n == chars@.len(),
                        chars@ == l,
                        tab_place(l) == k + tab_place(l.skip(k as int)),
                    decreases n - k,
                {
                    assert(l.skip(k as int).skip(1) =~= l.skip(k + 1));
                    k = k + 1;
                }
                let number = string_of(&chars, 0, k);
                assert(number@ =~= l.take(k as int));
                if let Some(id) = parse_number(number.as_str()) {
                    let surface = if k < n {
                        let raw = string_of(&chars, k + 1, n);
                        assert(raw@ =~= l.skip(k + 1));
                        unescape_tsv(raw.as_str())
                    } else {
                        let none = String::new();
                        assert(none@ =~= Seq::<char>::empty());
                        none
                    };
                    pairs.push((id, surface));
                    assert(pair_texts(pairs@) =~= before.pairs.push((id, surface@)));
                }
            }
        }
        assert((VocabFile { mode, pairs: pair_texts(pairs@) }) =~= before.with_line(l));
    }
    assert(ls.take(ls.len() as int) =~= ls);
    (mode, pairs)
}

impl HimalayanTokenization {
    /// The vocabulary as lines, with the folding mode in the header.
    pub fn write_vocab_lines(&self) -> (lines: Vec<String>)
        ensures
            texts(lines@) == vocab_lines(self.vocab@, self.normalizer.fold_mode()),
    {
        let ghost v = self.vocab@;
        let mode = self.normalizer.mode();
        let ghost goal = vocab_lines(v, mode);
        let mut lines: Vec<String> = Vec::new();
        let front: Vec<char> = vec![
            '#', ' ', 'n', 'e', 'p', 'b', 'p', 'e', '-', 'v', '4', ' ', 'm', 'o', 'd', 'e', '=',
        ];
        let mut header = string_of(&front, 0, front.len());
        assert(header@ =~= header_front());
        push_text(&mut header, mode.tag());
        lines.push(header);
        assert(texts(lines@) =~= goal.take(1));
        let pairs = self.vocab.get_all_surfaces();
        let n = pairs.len();
        proof {
            let all = Seq::new(v.surfaces.len(), |i: int| (i as usize, v.surfaces[i]));
            assert(pair_texts(pairs@) == all);
            assert(all.len() == v.surfaces.len());
            assert forall|j: int| 0 <= j < pairs@.len() implies (#[trigger] pairs@[j]).0 == j
                && pairs@[j].1@ == v.surfaces[j] by {
                assert(pair_texts(pairs@)[j] == all[j]);
            }
        }
        for i in 0..n
            invariant
                v == self.vocab@,
                goal == vocab_lines(v, mode),
                n == pairs@.len(),
                n == v.surfaces.len(),
                forall|j: int|
                    0 <= j < pairs@.len() ==> (#[trigger] pairs@[j]).0 == j && pairs@[j].1@
                        == v.surfaces[j],
                texts(lines@) == goal.take(i + 1),
        {
            let mut line = decimal_text(pairs[i].0);
            line.push('\t');
            let surface = escape_tsv(pairs[i].1.as_str());
            push_text(&mut line, surface.as_str());
            let ghost before = texts(lines@);
            lines.push(line);
            assert(line@ == row(i as nat, v.surfaces[i as int]));
            assert(goal[i + 1] == line@);
            assert(texts(lines@) =~= before.push(line@));
            assert(texts(lines@) =~= goal.take(i + 2));
        }
        assert(goal.take(v.surfaces.len() as int + 1) =~= goal);
        lines
    }

    /// Loads a vocabulary from lines and gives its size, and whether the lines named
    /// the folding mode. A vocabulary that was made with another mode is refused,
    /// unless that is allowed.
    pub fn load_vocab_lines(&mut self, lines: &Vec<String>, allow_mode_mismatch: bool) -> (r: Result<
        (usize, bool),
        ModeMismatch,
    >)
        requires
            old(self).wf(),
        ensures
            final(self).wf(),
            *final(self) == (Self {
                vocab: final(self).vocab,
                seed_max_len: final(self).seed_max_len,
                ..*old(self)
            }),
            ({
                let file = VocabFile::read(texts(lines@));
                let mode = old(self).normalizer.fold_mode();
                match r {
                    Ok((n, named)) => {
                        &&& allow_mode_mismatch || file.mode is None || file.mode == Some(mode)
                        &&& named == (file.mode is Some)
                        &&& n == final(self).vocab@.len()
                        &&& final(self).vocab@ == loaded(file.pairs, byte_decoder())
                        &&& final(self).seed_max_len == longest_abbreviation(
                            file.pairs.map_values(|p: (usize, Seq<char>)| p.1),
                            2,
                        )
                    },
                    Err(e) => {
                        &&& !allow_mode_mismatch
                        &&& e.expected == mode
                        &&& e.found != mode
                        &&& file.mode == Some(e.found)
                        &&& *final(self) == *old(self)
                    },
                }
            }),
    {
        let (file_mode, pairs) = read_vocab_lines(lines);
        let expected = self.normalizer.mode();
        if let Some(found) = file_mode {
            if found != expected && !allow_mode_mismatch {
                return Err(ModeMismatch { found, expected });
            }
        }
        self.load_vocab(pairs);
        Ok((self.vocab.len(), file_mode.is_some()))
    }
}

/// A vocabulary that is written out as lines and loaded again has the same surfaces
/// under the same numbers; and if no surface stands twice, every text is encoded as
/// before with the same abbreviations.
pub proof fn law_saved_vocabulary_loads_back(e: EncoderModel, mode: FoldMode, s: Seq<char>)
    requires
        e.vocab.valid(),
        e.vocab.lookup(seq![crate::script::DEV_MARKER]) is Some,
        e.vocab.lookup(seq![crate::script::LAT_MARKER]) is Some,
    ensures
        ({
            let file = VocabFile::read(vocab_lines(e.vocab, mode));
            let w = loaded(file.pairs, byte_decoder());
            &&& file.mode == Some(mode)
            &&& w.valid()
            &&& w.surfaces == e.vocab.surfaces
            &&& e.vocab.surfaces.no_duplicates() ==> w.index == e.vocab.index && (EncoderModel {
                vocab: w,
                ..e
            }).encoded(s) == e.encoded(s)
        }),
{
    law_vocabulary_lines_read_back(e.vocab, mode);
    crate::lossless::law_listed_vocabulary_loads_back(e.vocab);
    let w = loaded(listed(e.vocab), byte_decoder());
    if e.vocab.surfaces.no_duplicates() {
        crate::encoding::law_encoding_goes_by_the_index(EncoderModel { vocab: w, ..e }, e, s);
    }
}

} // verus!
