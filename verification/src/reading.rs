//! What the lines of a vocabulary file say.

use crate::normalize::{mode_of_tag, FoldMode};
use crate::tsv::{
    all_digits, behind_mode_word, decimal, escaped, is_digit, mode_word, parsed_number, row,
    tab_place, unescaped, value, vocab_lines, VocabFile,
};
use crate::vocab::VocabModel;
use vstd::prelude::*;

verus! {

/// Files are read line by line.
pub proof fn law_lines_are_read_in_order(lines: Seq<Seq<char>>, l: Seq<char>)
    ensures
        VocabFile::read(Seq::<Seq<char>>::empty()).mode is None,
        VocabFile::read(Seq::<Seq<char>>::empty()).pairs == Seq::<(usize, Seq<char>)>::empty(),
        VocabFile::read(lines.push(l)) == VocabFile::read(lines).with_line(l),
{
    assert(lines.push(l).drop_last() =~= lines);
}

proof fn lemma_tab(p: Seq<char>, q: Seq<char>)
    requires
        forall|i: int| 0 <= i < p.len() ==> #[trigger] p[i] != '\t',
    ensures
        tab_place(p.push('\t') + q) == p.len(),
        tab_place(p) == p.len(),
    decreases p.len(),
{
    let t = p.push('\t') + q;
    if p.len() > 0 {
        let p1 = p.skip(1);
        assert forall|i: int| 0 <= i < p1.len() implies #[trigger] p1[i] != '\t' by {
            assert(p[i + 1] != '\t');
        }
        lemma_tab(p1, q);
        assert(t.skip(1) =~= p1.push('\t') + q);
        assert(t[0] == p[0]);
    } else {
        assert(t[0] == '\t');
    }
}

/// A line that begins with a number and a tab is a row: the number, and behind the tab
/// the surface with its escapes read. A plus sign may stand before the digits.
pub proof fn law_rows_are_read(f: VocabFile, digits: Seq<char>, text: Seq<char>, plus: bool)
    requires
        digits.len() > 0,
        forall|i: int| 0 <= i < digits.len() ==> '0' <= #[trigger] digits[i] <= '9',
        value(digits) <= usize::MAX,
    ensures
        ({
            let number = if plus {
                seq!['+'] + digits
            } else {
                digits
            };
            let g = f.with_line(number.push('\t') + text);
            &&& g.mode == f.mode
            &&& g.pairs == f.pairs.push((value(digits) as usize, unescaped(text)))
            &&& f.with_line(number).mode == f.mode
            &&& f.with_line(number).pairs == f.pairs.push(
                (value(digits) as usize, Seq::<char>::empty()),
            )
        }),
{
    let number = if plus {
        seq!['+'] + digits
    } else {
        digits
    };
    assert forall|i: int| 0 <= i < number.len() implies #[trigger] number[i] != '\t' && number[i]
        != '#' by {
        if plus {
            if i > 0 {
                assert(number[i] == digits[i - 1]);
            }
        } else {
            assert(number[i] == digits[i]);
        }
    }
    let l = number.push('\t') + text;
    lemma_tab(number, text);
    assert(l[0] == number[0]);
    assert(l.take(number.len() as int) =~= number);
    assert(number.take(number.len() as int) =~= number);
    assert(l.skip(number.len() as int + 1) =~= text);
    assert forall|i: int| 0 <= i < digits.len() implies is_digit(#[trigger] digits[i]) by {}
    assert(all_digits(digits));
    if plus {
        assert(number.skip(1) =~= digits);
    } else {
        assert(digits[0] != '+');
    }
    assert(parsed_number(number) == Some(value(digits) as usize));
}

/// A line that has no number before its first tab is passed over, and so is an empty
/// line.
pub proof fn law_other_lines_are_passed_over(f: VocabFile, front: Seq<char>, text: Seq<char>, k: int)
    requires
        front.len() == 0 || front[0] != '#',
        forall|i: int| 0 <= i < front.len() ==> #[trigger] front[i] != '\t',
        front.len() == 0 || (0 <= k < front.len() && !('0' <= front[k] <= '9') && (k > 0 || front[0]
            != '+' || front.len() == 1)),
    ensures
        f.with_line(front.push('\t') + text) == f,
        f.with_line(front) == f,
{
    let l = front.push('\t') + text;
    lemma_tab(front, text);
    assert(l.take(front.len() as int) =~= front);
    assert(front.take(front.len() as int) =~= front);
    if front.len() > 0 {
        assert(l[0] == front[0]);
        if front[0] == '+' {
            if front.len() > 1 {
                assert(front.skip(1)[k - 1] == front[k]);
                assert(!is_digit(front.skip(1)[k - 1]));
            }
        } else {
            assert(!is_digit(front[k]));
        }
    } else {
        assert(l[0] == '\t');
    }
}

/// A number that is too great for a token is no number.
pub proof fn law_great_numbers_are_passed_over(f: VocabFile, digits: Seq<char>, text: Seq<char>)
    requires
        digits.len() > 0,
        forall|i: int| 0 <= i < digits.len() ==> '0' <= #[trigger] digits[i] <= '9',
        value(digits) > usize::MAX,
    ensures
        f.with_line(digits.push('\t') + text) == f,
{
    assert forall|i: int| 0 <= i < digits.len() implies #[trigger] digits[i] != '\t' by {}
    lemma_tab(digits, text);
    let l = digits.push('\t') + text;
    assert(l.take(digits.len() as int) =~= digits);
    assert(l[0] == digits[0]);
    assert(digits[0] != '+');
}

/// The value of digits, from left to right.
pub proof fn law_values_of_digits(digits: Seq<char>, c: char)
    requires
        '0' <= c <= '9',
    ensures
        value(Seq::<char>::empty()) == 0,
        value(digits.push(c)) == 10 * value(digits) + (c as int - '0' as int),
{
    assert(digits.push(c).drop_last() =~= digits);
}

/// A line that begins with a number sign names a mode behind its first mode word; one
/// without that word says nothing.
pub proof fn law_headers_are_read(f: VocabFile, t: Seq<char>, n: int)
    requires
        0 <= n,
        n + 5 <= t.len(),
        t.subrange(n, n + 5) == seq!['m', 'o', 'd', 'e', '='],
        forall|k: int|
            0 <= k < n ==> #[trigger] t.subrange(k, k + 5) != seq!['m', 'o', 'd', 'e', '='],
    ensures
        f.with_line(seq!['#'] + t) == (VocabFile {
            mode: mode_of_tag(t.skip(n + 5)),
            pairs: f.pairs,
        }),
{
    let l = seq!['#'] + t;
    assert(l.skip(1) =~= t);
    assert(l[0] == '#');
    assert forall|k: int| 0 <= k < n implies (#[trigger] t.skip(k)).take(5) != mode_word() by {
        assert(t.skip(k).take(5) =~= t.subrange(k, k + 5));
    }
    assert(t.skip(n).take(5) =~= t.subrange(n, n + 5));
    lemma_mode_word(t, n);
}

proof fn lemma_mode_word(t: Seq<char>, n: int)
    requires
        0 <= n,
        n + 5 <= t.len(),
        t.skip(n).take(5) == mode_word(),
        forall|k: int| 0 <= k < n ==> (#[trigger] t.skip(k)).take(5) != mode_word(),
    ensures
        behind_mode_word(t) == Some(t.skip(n + 5)),
    decreases n,
{
    assert(t.skip(0) =~= t);
    if n > 0 {
        let u = t.skip(1);
        assert(u.skip(n - 1) =~= t.skip(n));
        assert forall|k: int| 0 <= k < n - 1 implies (#[trigger] u.skip(k)).take(5)
            != mode_word() by {
            assert(u.skip(k) =~= t.skip(k + 1));
        }
        lemma_mode_word(u, n - 1);
        assert(u.skip(n + 4) =~= t.skip(n + 5));
        assert(t.skip(0).take(5) != mode_word());
    }
}

/// A remark that names no mode says nothing.
pub proof fn law_other_remarks_say_nothing(f: VocabFile, t: Seq<char>)
    requires
        forall|k: int|
            0 <= k && k + 5 <= t.len() ==> #[trigger] t.subrange(k, k + 5) != seq![
                'm',
                'o',
                'd',
                'e',
                '=',
            ],
    ensures
        f.with_line(seq!['#'] + t) == f,
{
    assert forall|k: int| 0 <= k && k + 5 <= t.len() implies (#[trigger] t.skip(k)).take(5)
        != mode_word() by {
        assert(t.skip(k).take(5) =~= t.subrange(k, k + 5));
    }
    assert((seq!['#'] + t).skip(1) =~= t);
    assert((seq!['#'] + t)[0] == '#');
    lemma_no_mode_word(t);
}

proof fn lemma_no_mode_word(t: Seq<char>)
    requires
        forall|k: int|
            0 <= k && k + 5 <= t.len() ==> (#[trigger] t.skip(k)).take(5) != mode_word(),
    ensures
        behind_mode_word(t) is None,
    decreases t.len(),
{
    if t.len() >= 5 {
        assert(t.skip(0) =~= t);
        assert(t.skip(0).take(5) != mode_word());
        let u = t.skip(1);
        assert forall|k: int| 0 <= k && k + 5 <= u.len() implies (#[trigger] u.skip(k)).take(5)
            != mode_word() by {
            assert(u.skip(k) =~= t.skip(k + 1));
        }
        lemma_no_mode_word(u);
    }
}

/// How escapes are read: a backslash with a `t`, an `n` or a backslash stands for a tab,
/// a line feed or a backslash; any other character, and a backslash before any other or
/// at the end, stands for itself.
pub proof fn law_escapes_are_read(c: char, s: Seq<char>)
    ensures
        unescaped(Seq::<char>::empty()) == Seq::<char>::empty(),
        c != '\\' ==> unescaped(seq![c] + s) == seq![c] + unescaped(s),
        unescaped(seq!['\\', 't'] + s) == seq!['\t'] + unescaped(s),
        unescaped(seq!['\\', 'n'] + s) == seq!['\n'] + unescaped(s),
        unescaped(seq!['\\', '\\'] + s) == seq!['\\'] + unescaped(s),
        c != '\\' && c != 't' && c != 'n' ==> unescaped(seq!['\\', c] + s) == seq!['\\', c]
            + unescaped(s),
        unescaped(seq!['\\']) == seq!['\\'],
{
    assert((seq![c] + s).skip(1) =~= s);
    assert((seq![c] + s)[0] == c);
    let a = seq!['\\', 't'] + s;
    let b = seq!['\\', 'n'] + s;
    let d = seq!['\\', '\\'] + s;
    let e = seq!['\\', c] + s;
    assert(a.skip(2) =~= s && b.skip(2) =~= s && d.skip(2) =~= s && e.skip(2) =~= s);
    assert(a[0] == '\\' && a[1] == 't' && b[0] == '\\' && b[1] == 'n');
    assert(d[0] == '\\' && d[1] == '\\' && e[0] == '\\' && e[1] == c);
    assert(seq!['\\'].skip(1) =~= Seq::<char>::empty());
    assert(unescaped(seq!['\\'].skip(1)) =~= Seq::<char>::empty());
    assert(unescaped(seq!['\\']) =~= seq!['\\']);
}

/// How characters are written: a tab, a line feed and a backslash with a backslash before
/// their sign, and any other as it is.
pub proof fn law_escapes_are_written(s: Seq<char>, c: char)
    ensures
        escaped(Seq::<char>::empty()) == Seq::<char>::empty(),
        escaped(s.push('\t')) == escaped(s) + seq!['\\', 't'],
        escaped(s.push('\n')) == escaped(s) + seq!['\\', 'n'],
        escaped(s.push('\\')) == escaped(s) + seq!['\\', '\\'],
        c != '\t' && c != '\n' && c != '\\' ==> escaped(s.push(c)) == escaped(s).push(c),
{
    assert(s.push('\t').drop_last() =~= s);
    assert(s.push('\n').drop_last() =~= s);
    assert(s.push('\\').drop_last() =~= s);
    assert(s.push(c).drop_last() =~= s);
    assert(escaped(s) + seq![c] =~= escaped(s).push(c));
}

/// The lines of a vocabulary: a header with the mode, and then a row for each token, with
/// its number, a tab and its surface.
pub proof fn law_lines_of_a_vocabulary(v: VocabModel, mode: FoldMode, i: int, header: Seq<char>)
    requires
        0 <= i < v.surfaces.len(),
        header == "# nepbpe-v4 mode="@,
    ensures
        ({
            let lines = vocab_lines(v, mode);
            &&& lines.len() == v.surfaces.len() + 1
            &&& lines[0] == header + if mode == FoldMode::LM {
                seq!['L', 'M']
            } else {
                seq!['O', 'C', 'R']
            }
            &&& lines[i + 1] == decimal(i as nat).push('\t') + escaped(v.surfaces[i])
        }),
{
    reveal_strlit("# nepbpe-v4 mode=");
    assert(header =~= crate::tsv::header_front());
    assert(vocab_lines(v, mode)[i + 1] == row(i as nat, v.surfaces[i]));
}

/// Decimal notation: the last digit is the number of ones, and what stands before it is
/// the number of tens.
pub proof fn law_decimal_notation(n: nat, d: nat)
    requires
        d < 10,
    ensures
        decimal(d).len() == 1,
        decimal(d)[0] as int == '0' as int + d,
        n > 0 ==> decimal(10 * n + d) == decimal(n) + decimal(d),
{
    if n > 0 {
        assert((10 * n + d) / 10 == n && (10 * n + d) % 10 == d) by (nonlinear_arith)
            requires
                d < 10,
        ;
        assert(decimal(n) + decimal(d) =~= decimal(n).push(crate::tsv::digit(d)));
    }
}

/// What is a number: digits, at most one plus sign before them, and not more than a token
/// number can be.
pub proof fn law_numbers_are_parsed(digits: Seq<char>, other: Seq<char>, k: int)
    requires
        digits.len() > 0,
        forall|i: int| 0 <= i < digits.len() ==> '0' <= #[trigger] digits[i] <= '9',
        other.len() == 0 || other == seq!['+'] || (0 <= k < other.len() && !('0' <= other[k] <= '9')
            && (k > 0 || other[0] != '+')),
    ensures
        value(digits) <= usize::MAX ==> parsed_number(digits) == Some(value(digits) as usize)
            && parsed_number(seq!['+'] + digits) == Some(value(digits) as usize),
        value(digits) > usize::MAX ==> parsed_number(digits) is None && parsed_number(
            seq!['+'] + digits,
        ) is None,
        parsed_number(other) is None,
{
    assert forall|i: int| 0 <= i < digits.len() implies is_digit(#[trigger] digits[i]) by {}
    assert(all_digits(digits));
    assert((seq!['+'] + digits).skip(1) =~= digits);
    assert((seq!['+'] + digits)[0] == '+');
    assert(digits[0] != '+');
    if other.len() > 0 {
        if other[0] == '+' {
            if other == seq!['+'] {
                assert(other.skip(1).len() == 0);
            } else {
                assert(other.skip(1)[k - 1] == other[k]);
                assert(!is_digit(other.skip(1)[k - 1]));
            }
        } else {
            if other == seq!['+'] {
                assert(other[0] == '+');
            }
            assert(!is_digit(other[k]));
        }
    }
}

} // verus!
