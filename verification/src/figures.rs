//! What counts and sums are made of.

use crate::akshara::DfaModel;
use crate::corpus::{counted_words, single_words, weight, WordModel};
use crate::counting::{
    distinct_words, kept, lemma_place_of, lemma_places, place_of, places, tallied, total_len,
};
use crate::encoding::{decoded, EncoderModel};
use crate::harvest::{
    akshara_run_len, akshara_units, by_count, count_sum, is_akshara_char, lemma_by_count,
    lemma_filter_all, ranked, text_leq,
};
use crate::metrics::sum_over;
use crate::pipeline::{has_alphanumeric, word_tokens};
use crate::script::Script;
use crate::sorting::{lemma_sorted, sorted};
use crate::text::{is_ascii_alphanumeric, is_white_space, lemma_word_len, word_len, words};
use crate::tokenizer::HimalayanTokenization;
use crate::vocab::of_script;
use vstd::prelude::*;

verus! {

/// Whether a text holds an ASCII letter or digit at any place.
pub open spec fn holds_letter_or_digit(s: Seq<char>) -> bool {
    exists|i: int|
        0 <= i < s.len() && ('a' <= #[trigger] s[i] <= 'z' || 'A' <= s[i] <= 'Z' || '0' <= s[i]
            <= '9')
}

proof fn lemma_letter_or_digit(s: Seq<char>)
    ensures
        has_alphanumeric(s) == holds_letter_or_digit(s),
{
    if has_alphanumeric(s) {
        let i = choose|i: int| 0 <= i < s.len() && is_ascii_alphanumeric(#[trigger] s[i]);
        assert('a' <= s[i] <= 'z' || 'A' <= s[i] <= 'Z' || '0' <= s[i] <= '9');
    }
    if holds_letter_or_digit(s) {
        let i = choose|i: int|
            0 <= i < s.len() && ('a' <= #[trigger] s[i] <= 'z' || 'A' <= s[i] <= 'Z' || '0' <= s[i]
                <= '9');
        assert(is_ascii_alphanumeric(s[i]));
    }
}

/// Counting adds to the count of a word as many as it stands among the words that are
/// counted, keeps the words that were there at their places, and lists none twice.
pub proof fn law_counting_adds_occurrences<T>(
    t: Seq<(T, u64)>,
    ws: Seq<T>,
    w: T,
    stands: spec_fn(int) -> bool,
    before: nat,
)
    requires
        distinct_words(t),
        ws.len() <= u64::MAX,
        forall|i: int| 0 <= i < t.len() ==> (#[trigger] t[i]).1 + ws.len() <= u64::MAX,
        forall|i: int| 0 <= i < ws.len() ==> (#[trigger] stands(i) <==> ws[i] == w),
        forall|i: int| 0 <= i < t.len() && (#[trigger] t[i]).0 == w ==> t[i].1 == before,
        before > 0 ==> exists|i: int| 0 <= i < t.len() && (#[trigger] t[i]).0 == w,
    ensures
        distinct_words(tallied(t, ws)),
        tallied(t, ws).len() >= t.len(),
        forall|i: int| 0 <= i < t.len() ==> (#[trigger] tallied(t, ws)[i]).0 == t[i].0,
        forall|i: int|
            0 <= i < t.len() ==> (#[trigger] tallied(t, ws)[i]).1 <= t[i].1 + ws.len(),
        forall|i: int|
            t.len() <= i < tallied(t, ws).len() ==> (#[trigger] tallied(t, ws)[i]).1 <= ws.len(),
        forall|i: int|
            0 <= i < tallied(t, ws).len() && (#[trigger] tallied(t, ws)[i]).0 == w ==> tallied(
                t,
                ws,
            )[i].1 == before + places(ws.len(), stands).len(),
        before + places(ws.len(), stands).len() > 0 ==> exists|i: int|
            0 <= i < tallied(t, ws).len() && (#[trigger] tallied(t, ws)[i]).0 == w,
    decreases ws.len(),
{
    lemma_places(ws.len(), stands);
    if ws.len() > 0 {
        let x = ws.last();
        assert forall|i: int| 0 <= i < ws.drop_last().len() implies (#[trigger] stands(i)
            <==> ws.drop_last()[i] == w) by {
            assert(ws.drop_last()[i] == ws[i]);
        }
        law_counting_adds_occurrences(t, ws.drop_last(), w, stands, before);
        let front = tallied(t, ws.drop_last());
        let r = tallied(t, ws);
        assert(stands(ws.len() - 1) <==> x == w);
        lemma_place_of(front, x);
        match place_of(front, x) {
            Some(k) => {
                assert(front[k].1 < u64::MAX) by {
                    if k < t.len() {
                        assert(front[k].1 <= t[k].1 + ws.drop_last().len());
                    }
                }
                assert(r == front.update(k, (x, (front[k].1 + 1) as u64)));
                assert forall|i: int, j: int|
                    0 <= i < r.len() && 0 <= j < r.len() && i != j implies (#[trigger] r[i]).0 != (
                #[trigger] r[j]).0 by {
                    assert(front[i].0 != front[j].0);
                }
                assert forall|i: int| 0 <= i < r.len() && (#[trigger] r[i]).0 == w implies r[i].1
                    == before + places(ws.len(), stands).len() by {
                    assert(front[i].0 == w);
                    if i == k {
                        assert(x == w);
                    } else {
                        assert(r[k].0 == x);
                    }
                }
                if before + places(ws.len(), stands).len() > 0 {
                    if x == w {
                        assert(r[k].0 == w);
                    } else {
                        let i = choose|i: int| 0 <= i < front.len() && (#[trigger] front[i]).0 == w;
                        assert(front[i].0 == w);
                        assert(r[i].0 == w);
                    }
                }
            },
            None => {
                assert(r == front.push((x, 1)));
                assert forall|i: int, j: int|
                    0 <= i < r.len() && 0 <= j < r.len() && i != j implies (#[trigger] r[i]).0 != (
                #[trigger] r[j]).0 by {
                    if i < front.len() && j < front.len() {
                        assert(front[i].0 != front[j].0);
                    } else if i < front.len() {
                        assert(front[i].0 != x);
                    } else {
                        assert(front[j].0 != x);
                    }
                }
                if x == w {
                    assert(before + places(ws.drop_last().len(), stands).len() == 0) by {
                        if before + places(ws.drop_last().len(), stands).len() > 0 {
                            let i = choose|i: int|
                                0 <= i < front.len() && (#[trigger] front[i]).0 == w;
                            assert(front[i].0 != x);
                        }
                    }
                    assert(r[front.len() as int].0 == w);
                }
                assert forall|i: int| 0 <= i < r.len() && (#[trigger] r[i]).0 == w implies r[i].1
                    == before + places(ws.len(), stands).len() by {
                    if i < front.len() {
                        assert(front[i].0 == w);
                    }
                }
                if x != w && before + places(ws.len(), stands).len() > 0 {
                    let i = choose|i: int| 0 <= i < front.len() && (#[trigger] front[i]).0 == w;
                    assert(front[i].0 == w);
                    assert(r[i].0 == w);
                }
            },
        }
    } else if before > 0 {
        let i = choose|i: int| 0 <= i < t.len() && (#[trigger] t[i]).0 == w;
        assert(tallied(t, ws)[i].0 == w);
    }
}

/// Words are taken one by one, each as its tokens: one that has tokens and, in a Latin
/// count, holds an ASCII letter or digit at any place, gives them; any other gives
/// nothing.
pub proof fn law_each_word_gives_its_tokens(
    e: EncoderModel,
    ws: Seq<Seq<char>>,
    w: Seq<char>,
    latin_only: bool,
)
    ensures
        word_tokens(e, Seq::<Seq<char>>::empty(), latin_only) == Seq::<Seq<usize>>::empty(),
        word_tokens(e, ws.push(w), latin_only) == if e.encoded(w).len() > 0 && (latin_only
            ==> holds_letter_or_digit(w)) {
            word_tokens(e, ws, latin_only).push(e.encoded(w))
        } else {
            word_tokens(e, ws, latin_only)
        },
{
    lemma_letter_or_digit(w);
    assert(ws.push(w).drop_last() =~= ws);
}

proof fn lemma_word_places(
    e: EncoderModel,
    ws: Seq<Seq<char>>,
    latin_only: bool,
    ids: Seq<usize>,
    counted: spec_fn(int) -> bool,
    stands: spec_fn(int) -> bool,
)
    requires
        ids.len() > 0,
        forall|i: int|
            0 <= i < ws.len() ==> (#[trigger] counted(i) <==> e.encoded(ws[i]) == ids && (latin_only
                ==> holds_letter_or_digit(ws[i]))),
        forall|i: int|
            0 <= i < word_tokens(e, ws, latin_only).len() ==> (#[trigger] stands(i) <==> word_tokens(
                e,
                ws,
                latin_only,
            )[i] == ids),
    ensures
        places(word_tokens(e, ws, latin_only).len(), stands).len() == places(
            ws.len(),
            counted,
        ).len(),
    decreases ws.len(),
{
    lemma_places(ws.len(), counted);
    let out = word_tokens(e, ws, latin_only);
    lemma_places(out.len(), stands);
    if ws.len() > 0 {
        let front = word_tokens(e, ws.drop_last(), latin_only);
        lemma_letter_or_digit(ws.last());
        assert(counted(ws.len() - 1) <==> e.encoded(ws.last()) == ids && (latin_only
            ==> holds_letter_or_digit(ws.last())));
        assert forall|i: int| 0 <= i < front.len() implies (#[trigger] stands(i) <==> front[i]
            == ids) by {
            assert(front[i] == out[i]);
        }
        assert forall|i: int| 0 <= i < ws.drop_last().len() implies (#[trigger] counted(i)
            <==> e.encoded(ws.drop_last()[i]) == ids && (latin_only ==> holds_letter_or_digit(
            ws.drop_last()[i],
        ))) by {
            assert(ws.drop_last()[i] == ws[i]);
        }
        lemma_word_places(e, ws.drop_last(), latin_only, ids, counted, stands);
        if out.len() > front.len() {
            assert(stands(out.len() - 1) <==> e.encoded(ws.last()) == ids);
        }
    }
}

/// What a line adds to the count of a token sequence: one for each of its words that has
/// these tokens and, in a Latin count, holds an ASCII letter or digit, wherever that
/// stands in the word.
pub proof fn law_line_counts_its_words(
    t: &HimalayanTokenization,
    counts: Seq<WordModel>,
    line: Seq<char>,
    latin_only: bool,
    ids: Seq<usize>,
    counted: spec_fn(int) -> bool,
    before: nat,
)
    requires
        ids.len() > 0,
        distinct_words(counts),
        ({
            let ws = words(t.normalizer.normalized(line));
            let n = t.line_words(line, latin_only).len();
            &&& n <= u64::MAX
            &&& forall|i: int| 0 <= i < counts.len() ==> (#[trigger] counts[i]).1 + n <= u64::MAX
            &&& forall|i: int|
                0 <= i < ws.len() ==> (#[trigger] counted(i) <==> t.encoder().encoded(ws[i]) == ids
                    && (latin_only ==> holds_letter_or_digit(ws[i])))
        }),
        forall|i: int|
            0 <= i < counts.len() && (#[trigger] counts[i]).0 == ids ==> counts[i].1 == before,
        before > 0 ==> exists|i: int| 0 <= i < counts.len() && (#[trigger] counts[i]).0 == ids,
    ensures
        ({
            let ws = words(t.normalizer.normalized(line));
            let r = tallied(counts, t.line_words(line, latin_only));
            let n = before + places(ws.len(), counted).len();
            &&& forall|i: int| 0 <= i < r.len() && (#[trigger] r[i]).0 == ids ==> r[i].1 == n
            &&& n > 0 ==> exists|i: int| 0 <= i < r.len() && (#[trigger] r[i]).0 == ids
        }),
{
    let ws = words(t.normalizer.normalized(line));
    let out = t.line_words(line, latin_only);
    let stands = |i: int| out[i] == ids;
    lemma_word_places(t.encoder(), ws, latin_only, ids, counted, stands);
    law_counting_adds_occurrences(counts, out, ids, stands, before);
}

/// A line counts as many words as have tokens and, in a Latin count, hold an ASCII letter
/// or digit.
pub proof fn law_number_of_counted_words(
    e: EncoderModel,
    ws: Seq<Seq<char>>,
    latin_only: bool,
    counted: spec_fn(int) -> bool,
)
    requires
        forall|i: int|
            0 <= i < ws.len() ==> (#[trigger] counted(i) <==> e.encoded(ws[i]).len() > 0 && (
            latin_only ==> holds_letter_or_digit(ws[i]))),
    ensures
        word_tokens(e, ws, latin_only).len() == places(ws.len(), counted).len(),
    decreases ws.len(),
{
    lemma_places(ws.len(), counted);
    if ws.len() > 0 {
        lemma_letter_or_digit(ws.last());
        assert(counted(ws.len() - 1) <==> e.encoded(ws.last()).len() > 0 && (latin_only
            ==> holds_letter_or_digit(ws.last())));
        assert forall|i: int| 0 <= i < ws.drop_last().len() implies (#[trigger] counted(i)
            <==> e.encoded(ws.drop_last()[i]).len() > 0 && (latin_only ==> holds_letter_or_digit(
            ws.drop_last()[i],
        ))) by {
            assert(ws.drop_last()[i] == ws[i]);
        }
        law_number_of_counted_words(e, ws.drop_last(), latin_only, counted);
    }
}

/// The words of lines are those of each line, in order.
pub proof fn law_words_of_lines(
    t: &HimalayanTokenization,
    lines: Seq<Seq<char>>,
    line: Seq<char>,
    latin_only: bool,
)
    ensures
        t.corpus_words(Seq::<Seq<char>>::empty(), latin_only) == Seq::<Seq<usize>>::empty(),
        t.corpus_words(lines.push(line), latin_only) == t.corpus_words(lines, latin_only)
            + word_tokens(t.encoder(), words(t.normalizer.normalized(line)), latin_only),
{
    assert(lines.push(line).drop_last() =~= lines);
}

/// The words of a text that was parted at white space are those of the parts, and a text
/// without white space is one word.
pub proof fn law_words_are_parted_at_white_space(a: Seq<char>, c: char, b: Seq<char>)
    ensures
        c == ' ' || c == '\t' || c == '\n' || c == '\u{B}' || c == '\u{C}' || c == '\r' || c
            == '\u{85}' || c == '\u{A0}' || c == '\u{1680}' || '\u{2000}' <= c <= '\u{200A}' || c
            == '\u{2028}' || c == '\u{2029}' || c == '\u{202F}' || c == '\u{205F}' || c
            == '\u{3000}' <==> is_white_space(c),
        is_white_space(c) ==> words(a.push(c) + b) == words(a) + words(b),
        a.len() > 0 && (forall|i: int| 0 <= i < a.len() ==> !is_white_space(#[trigger] a[i]))
            ==> words(a) == seq![a],
        words(Seq::<char>::empty()) == Seq::<Seq<char>>::empty(),
{
    if is_white_space(c) {
        lemma_words_parted(a, c, b);
    }
    if a.len() > 0 && (forall|i: int| 0 <= i < a.len() ==> !is_white_space(#[trigger] a[i])) {
        lemma_word_len(a);
        assert(word_len(a) == a.len());
        assert(a.take(a.len() as int) =~= a);
        assert(a.skip(a.len() as int) =~= Seq::<char>::empty());
        assert(words(a.skip(a.len() as int)) =~= Seq::<Seq<char>>::empty());
        assert(!is_white_space(a[0]));
        assert(words(a) =~= seq![a]);
    }
}

proof fn lemma_words_parted(a: Seq<char>, c: char, b: Seq<char>)
    requires
        is_white_space(c),
    ensures
        words(a.push(c) + b) == words(a) + words(b),
    decreases a.len(),
{
    let t = a.push(c) + b;
    if a.len() == 0 {
        assert(t.skip(1) =~= b);
        assert(t[0] == c);
        assert(words(a) + words(b) =~= words(b));
    } else if is_white_space(a[0]) {
        assert(t[0] == a[0]);
        assert(t.skip(1) =~= a.skip(1).push(c) + b);
        lemma_words_parted(a.skip(1), c, b);
    } else {
        lemma_word_len(a);
        lemma_word_len(t);
        let k = word_len(a) as int;
        let n = word_len(t) as int;
        assert(n == k) by {
            if n < k {
                assert(t[n] == a[n]);
            } else if n > k {
                assert(t[k] == a.push(c)[k]);
            }
        }
        assert(t[0] == a[0]);
        assert(k > 0) by {
            if k == 0 {
                assert(is_white_space(a[0]));
            }
        }
        assert(t.take(k) =~= a.take(k));
        assert(t.skip(k) =~= a.skip(k).push(c) + b);
        lemma_words_parted(a.skip(k), c, b);
        assert(seq![a.take(k)] + (words(a.skip(k)) + words(b)) =~= seq![a.take(k)] + words(
            a.skip(k),
        ) + words(b));
    }
}

/// The number of malformed tokens of a text is the number of places in its tokens at
/// which a token of the malformed script stands, or a number that is no token.
pub proof fn law_malformed_tokens_are_counted(
    t: &HimalayanTokenization,
    n: Seq<char>,
    malformed: spec_fn(int) -> bool,
)
    requires
        ({
            let ids = t.encoder().encoded(n);
            let scripts = t.vocab@.scripts;
            forall|i: int|
                0 <= i < ids.len() ==> (#[trigger] malformed(i) <==> ids[i] >= scripts.len()
                    || scripts[ids[i] as int] == Script::MAL)
        }),
    ensures
        t.malformed_number()(n) == places(t.encoder().encoded(n).len(), malformed).len(),
        (forall|i: int|
            0 <= i < t.encoder().encoded(n).len() ==> !#[trigger] malformed(i))
            ==> t.malformed_number()(n) == 0,
        (forall|i: int| 0 <= i < t.encoder().encoded(n).len() ==> #[trigger] malformed(i))
            ==> t.malformed_number()(n) == t.encoder().encoded(n).len(),
{
    let ids = t.encoder().encoded(n);
    let pick = |id: usize| t.vocab@.script_of(id) == Script::MAL;
    lemma_picked_places(ids, pick, malformed);
    assert(t.malformed_number()(n) == ids.filter(pick).len());
    lemma_places_ends(ids.len(), malformed);
}

proof fn lemma_picked_places(
    ids: Seq<usize>,
    pick: spec_fn(usize) -> bool,
    holds: spec_fn(int) -> bool,
)
    requires
        forall|i: int| 0 <= i < ids.len() ==> #[trigger] holds(i) == pick(ids[i]),
    ensures
        ids.filter(pick).len() == places(ids.len(), holds).len(),
    decreases ids.len(),
{
    reveal(Seq::filter);
    lemma_places(ids.len(), holds);
    if ids.len() > 0 {
        assert(holds(ids.len() - 1) == pick(ids.last()));
        assert forall|i: int| 0 <= i < ids.drop_last().len() implies #[trigger] holds(i) == pick(
            ids.drop_last()[i],
        ) by {
            assert(ids.drop_last()[i] == ids[i]);
        }
        lemma_picked_places(ids.drop_last(), pick, holds);
    }
}

proof fn lemma_places_ends(n: nat, holds: spec_fn(int) -> bool)
    ensures
        (forall|i: int| 0 <= i < n ==> !#[trigger] holds(i)) ==> places(n, holds).len() == 0,
        (forall|i: int| 0 <= i < n ==> #[trigger] holds(i)) ==> places(n, holds).len() == n,
    decreases n,
{
    lemma_places(n, holds);
    if n > 0 {
        lemma_places_ends((n - 1) as nat, holds);
        if forall|i: int| 0 <= i < n ==> !#[trigger] holds(i) {
            assert(!holds(n - 1));
        }
        if forall|i: int| 0 <= i < n ==> #[trigger] holds(i) {
            assert(holds(n - 1));
        }
    }
}

/// Sums over texts add up: nothing is zero, and each text adds its number.
pub proof fn law_sums_add_up(
    a: Seq<Seq<char>>,
    b: Seq<Seq<char>>,
    f: spec_fn(Seq<char>) -> nat,
    n: Seq<char>,
)
    ensures
        sum_over(Seq::<Seq<char>>::empty(), f) == 0,
        sum_over(seq![n], f) == f(n),
        sum_over(a + b, f) == sum_over(a, f) + sum_over(b, f),
    decreases b.len(),
{
    assert(seq![n].drop_last() =~= Seq::<Seq<char>>::empty());
    if b.len() == 0 {
        assert(a + b =~= a);
    } else {
        law_sums_add_up(a, b.drop_last(), f, n);
        assert((a + b).drop_last() =~= a + b.drop_last());
    }
}

/// What one text adds to the sums of an evaluation.
pub proof fn law_numbers_of_a_text(t: &HimalayanTokenization, n: Seq<char>)
    ensures
        t.token_number()(n) == t.encoder().encoded(n).len(),
        t.roundtrip_number()(n) == 1 <==> decoded(t.vocab@, t.encoder().encoded(n)) == n,
        t.roundtrip_number()(n) == 0 <==> decoded(t.vocab@, t.encoder().encoded(n)) != n,
{
}

/// The number of tokens of a script is the number of places at which it stands.
pub proof fn law_tokens_of_a_script_are_counted(
    scripts: Seq<Script>,
    s: Script,
    holds: spec_fn(int) -> bool,
)
    requires
        forall|i: int| 0 <= i < scripts.len() ==> (#[trigger] holds(i) <==> scripts[i] == s),
    ensures
        of_script(scripts, s) == places(scripts.len(), holds).len(),
    decreases scripts.len(),
{
    lemma_places(scripts.len(), holds);
    if scripts.len() > 0 {
        assert(holds(scripts.len() - 1) <==> scripts.last() == s);
        assert forall|i: int| 0 <= i < scripts.drop_last().len() implies (#[trigger] holds(i)
            <==> scripts.drop_last()[i] == s) by {
            assert(scripts.drop_last()[i] == scripts[i]);
        }
        law_tokens_of_a_script_are_counted(scripts.drop_last(), s, holds);
    }
}

/// The aksharas of a text that was parted at a character which belongs to none are those
/// of the parts; and a text of nothing but such characters is cut by the automaton.
pub proof fn law_aksharas_of_a_text(d: DfaModel, a: Seq<char>, c: char, b: Seq<char>)
    ensures
        !('\u{0900}' <= c <= '\u{0963}' || '\u{0966}' <= c <= '\u{097F}') ==> akshara_units(
            d,
            a.push(c) + b,
        ) == akshara_units(d, a) + akshara_units(d, b),
        (forall|i: int|
            0 <= i < a.len() ==> '\u{0900}' <= #[trigger] a[i] <= '\u{0963}' || '\u{0966}' <= a[i]
                <= '\u{097F}') ==> akshara_units(d, a) == d.units(a),
{
    if !('\u{0900}' <= c <= '\u{0963}' || '\u{0966}' <= c <= '\u{097F}') {
        lemma_aksharas_parted(d, a, c, b);
    }
    if forall|i: int|
        0 <= i < a.len() ==> '\u{0900}' <= #[trigger] a[i] <= '\u{0963}' || '\u{0966}' <= a[i]
            <= '\u{097F}' {
        if a.len() > 0 {
            lemma_akshara_run(a);
            assert(is_akshara_char(a[0]));
            let k = akshara_run_len(a) as int;
            assert(k == a.len()) by {
                if k < a.len() {
                    assert(is_akshara_char(a[k]));
                }
            }
            assert(a.take(k) =~= a);
            assert(a.skip(k) =~= Seq::<char>::empty());
            assert(akshara_units(d, a.skip(k)) =~= Seq::<Seq<char>>::empty());
            assert(akshara_units(d, a) =~= d.units(a));
        } else {
            assert(akshara_units(d, a) =~= d.units(a));
        }
    }
}

proof fn lemma_akshara_run(t: Seq<char>)
    ensures
        akshara_run_len(t) <= t.len(),
        forall|i: int| 0 <= i < akshara_run_len(t) ==> is_akshara_char(#[trigger] t[i]),
        akshara_run_len(t) < t.len() ==> !is_akshara_char(t[akshara_run_len(t) as int]),
    decreases t.len(),
{
    if t.len() > 0 && is_akshara_char(t[0]) {
        lemma_akshara_run(t.skip(1));
        assert forall|i: int| 0 <= i < akshara_run_len(t) implies is_akshara_char(
            #[trigger] t[i],
        ) by {
            if i > 0 {
                assert(t[i] == t.skip(1)[i - 1]);
            }
        }
    }
}

proof fn lemma_aksharas_parted(d: DfaModel, a: Seq<char>, c: char, b: Seq<char>)
    requires
        !is_akshara_char(c),
    ensures
        akshara_units(d, a.push(c) + b) == akshara_units(d, a) + akshara_units(d, b),
    decreases a.len(),
{
    let t = a.push(c) + b;
    if a.len() == 0 {
        assert(t.skip(1) =~= b);
        assert(t[0] == c);
        assert(akshara_units(d, a) + akshara_units(d, b) =~= akshara_units(d, b));
    } else if !is_akshara_char(a[0]) {
        assert(t[0] == a[0]);
        assert(t.skip(1) =~= a.skip(1).push(c) + b);
        lemma_aksharas_parted(d, a.skip(1), c, b);
    } else {
        lemma_akshara_run(a);
        lemma_akshara_run(t);
        let k = akshara_run_len(a) as int;
        let n = akshara_run_len(t) as int;
        assert(n == k) by {
            if n < k {
                assert(t[n] == a[n]);
            } else if n > k {
                assert(t[k] == a.push(c)[k]);
            }
        }
        assert(t[0] == a[0]);
        assert(k > 0);
        assert(t.take(k) =~= a.take(k));
        assert(t.skip(k) =~= a.skip(k).push(c) + b);
        lemma_aksharas_parted(d, a.skip(k), c, b);
        assert(d.units(a.take(k)) + (akshara_units(d, a.skip(k)) + akshara_units(d, b)) =~= d.units(
            a.take(k),
        ) + akshara_units(d, a.skip(k)) + akshara_units(d, b));
    }
}

/// What is kept are the words that were counted often enough, in their order.
pub proof fn law_frequent_words_are_kept<T>(t: Seq<(T, u64)>, x: (T, u64), min: u64)
    ensures
        kept(Seq::<(T, u64)>::empty(), min) == Seq::<(T, u64)>::empty(),
        kept(t.push(x), min) == if x.1 >= min {
            kept(t, min).push(x)
        } else {
            kept(t, min)
        },
{
    reveal(Seq::filter);
    assert(t.push(x).drop_last() =~= t);
    assert(kept(Seq::<(T, u64)>::empty(), min) =~= Seq::<(T, u64)>::empty());
}

/// Whether a text comes before another in the order of its characters: at the first
/// place where they differ it has the smaller one, or it ends there.
pub open spec fn comes_before(a: Seq<char>, b: Seq<char>, k: int) -> bool {
    &&& 0 <= k <= a.len()
    &&& k <= b.len()
    &&& a.take(k) == b.take(k)
    &&& k == a.len() || (k < b.len() && a[k] < b[k])
}

proof fn lemma_comes_before(a: Seq<char>, b: Seq<char>)
    requires
        text_leq(a, b),
    ensures
        exists|k: int| #[trigger] comes_before(a, b, k),
    decreases a.len(),
{
    if a.len() == 0 {
        assert(a.take(0) =~= b.take(0));
        assert(comes_before(a, b, 0));
    } else if a[0] != b[0] {
        assert(a.take(0) =~= b.take(0));
        assert(comes_before(a, b, 0));
    } else {
        lemma_comes_before(a.skip(1), b.skip(1));
        let k = choose|k: int| #[trigger] comes_before(a.skip(1), b.skip(1), k);
        assert forall|i: int| 0 <= i < k + 1 implies #[trigger] a.take(k + 1)[i] == b.take(k
            + 1)[i] by {
            if i > 0 {
                assert(a.skip(1).take(k)[i - 1] == b.skip(1).take(k)[i - 1]);
            }
        }
        assert(a.take(k + 1) =~= b.take(k + 1));
        assert(comes_before(a, b, k + 1));
    }
}

/// The inventory holds the texts that were counted often enough, each once; one that was
/// counted more often comes first, and of equals the one that comes before in the order
/// of its characters.
pub proof fn law_inventory(t: Seq<(Seq<char>, u64)>, min: u64, x: int, y: int, i: int, j: int)
    requires
        distinct_words(t),
        0 <= x < y < ranked(t, min).len(),
        0 <= i < t.len(),
        0 <= j < t.len(),
        ranked(t, min)[x] == t[i].0,
        ranked(t, min)[y] == t[j].0,
    ensures
        t[i].1 >= min,
        t[j].1 >= min,
        t[i].1 > t[j].1 || (t[i].1 == t[j].1 && exists|k: int| #[trigger]
            comes_before(t[i].0, t[j].0, k)),
        i != j,
{
    lemma_by_count();
    let ks = kept(t, min);
    let rows = sorted(ks, by_count());
    lemma_sorted(ks, by_count());
    lemma_row_of(t, min, rows, x, i);
    lemma_row_of(t, min, rows, y, j);
    assert(by_count()(rows[x], rows[y]));
    if t[i].1 == t[j].1 {
        lemma_comes_before(t[i].0, t[j].0);
    }
    lemma_kept_distinct(t, min);
    lemma_sorted_distinct(ks);
    assert(rows[x] != rows[y]);
}

proof fn lemma_row_of(
    t: Seq<(Seq<char>, u64)>,
    min: u64,
    rows: Seq<(Seq<char>, u64)>,
    x: int,
    i: int,
)
    requires
        distinct_words(t),
        rows == sorted(kept(t, min), by_count()),
        rows.to_multiset() == kept(t, min).to_multiset(),
        0 <= x < rows.len(),
        0 <= i < t.len(),
        rows[x].0 == t[i].0,
    ensures
        rows[x] == t[i],
        t[i].1 >= min,
{
    let ks = kept(t, min);
    vstd::seq_lib::to_multiset_contains(rows, rows[x]);
    vstd::seq_lib::to_multiset_contains(ks, rows[x]);
    assert(rows.contains(rows[x]));
    assert(ks.contains(rows[x]));
    let pick = |w: (Seq<char>, u64)| w.1 >= min;
    crate::training::lemma_filter_holds(t, pick, rows[x]);
    let k = choose|k: int| 0 <= k < t.len() && t[k] == rows[x];
    if k != i {
        assert(t[k].0 != t[i].0);
    }
}

proof fn lemma_kept_distinct(t: Seq<(Seq<char>, u64)>, min: u64)
    requires
        distinct_words(t),
    ensures
        kept(t, min).no_duplicates(),
{
    assert(t.no_duplicates()) by {
        assert forall|i: int, j: int| 0 <= i < t.len() && 0 <= j < t.len() && i != j implies t[i]
            != t[j] by {
            assert(t[i].0 != t[j].0);
        }
    }
    let pick = |w: (Seq<char>, u64)| w.1 >= min;
    lemma_filter_distinct(t, pick);
}

proof fn lemma_filter_distinct<T>(t: Seq<T>, pick: spec_fn(T) -> bool)
    requires
        t.no_duplicates(),
    ensures
        t.filter(pick).no_duplicates(),
        forall|x: T| #[trigger] t.filter(pick).contains(x) ==> t.contains(x),
    decreases t.len(),
{
    reveal(Seq::filter);
    if t.len() > 0 {
        let front = t.drop_last();
        assert(front.no_duplicates());
        lemma_filter_distinct(front, pick);
        let f = front.filter(pick);
        let x = t.last();
        assert(front.push(x) =~= t);
        if pick(x) {
            if f.contains(x) {
                assert(front.contains(x));
                let i = choose|i: int| 0 <= i < front.len() && front[i] == x;
                assert(t[i] != t[t.len() - 1]);
            }
            assert forall|i: int, j: int|
                0 <= i < f.push(x).len() && 0 <= j < f.push(x).len() && i != j implies f.push(x)[i]
                != f.push(x)[j] by {
                if i < f.len() && j < f.len() {
                } else if i < f.len() {
                    assert(f.contains(f[i]));
                } else {
                    assert(f.contains(f[j]));
                }
            }
        }
        assert forall|y: T| #[trigger] t.filter(pick).contains(y) implies t.contains(y) by {
            crate::akshara::lemma_push_contains(f, x, y);
            crate::akshara::lemma_push_contains(front, x, y);
        }
    }
}

proof fn lemma_sorted_distinct(ks: Seq<(Seq<char>, u64)>)
    requires
        ks.no_duplicates(),
    ensures
        sorted(ks, by_count()).no_duplicates(),
{
    lemma_by_count();
    lemma_sorted(ks, by_count());
    let rows = sorted(ks, by_count());
    ks.lemma_multiset_has_no_duplicates();
    rows.lemma_multiset_has_no_duplicates_conv();
}

/// A text is in the inventory exactly where it was counted often enough.
pub proof fn law_inventory_members(t: Seq<(Seq<char>, u64)>, min: u64, s: Seq<char>)
    ensures
        ranked(t, min).contains(s) <==> exists|i: int|
            0 <= i < t.len() && (#[trigger] t[i]).0 == s && t[i].1 >= min,
{
    lemma_by_count();
    let ks = kept(t, min);
    let rows = sorted(ks, by_count());
    lemma_sorted(ks, by_count());
    if ranked(t, min).contains(s) {
        let k = choose|k: int| 0 <= k < ranked(t, min).len() && ranked(t, min)[k] == s;
        vstd::seq_lib::to_multiset_contains(rows, rows[k]);
        vstd::seq_lib::to_multiset_contains(ks, rows[k]);
        assert(rows.contains(rows[k]));
        let pick = |w: (Seq<char>, u64)| w.1 >= min;
        crate::training::lemma_filter_holds(t, pick, rows[k]);
        let i = choose|i: int| 0 <= i < t.len() && t[i] == rows[k];
        assert(t[i].0 == s);
    }
    if exists|i: int| 0 <= i < t.len() && (#[trigger] t[i]).0 == s && t[i].1 >= min {
        let i = choose|i: int| 0 <= i < t.len() && (#[trigger] t[i]).0 == s && t[i].1 >= min;
        lemma_filter_all(t, min, i);
        vstd::seq_lib::to_multiset_contains(ks, t[i]);
        vstd::seq_lib::to_multiset_contains(rows, t[i]);
        let k = choose|k: int| 0 <= k < rows.len() && rows[k] == t[i];
        assert(ranked(t, min)[k] == s);
    }
}

/// Sizes add up: each word brings its tokens as often as it was counted, each text its
/// count, and each token sequence its length.
pub proof fn law_sizes_add_up(
    words: Seq<WordModel>,
    w: WordModel,
    lists: Seq<Seq<usize>>,
    ids: Seq<usize>,
)
    ensures
        weight(Seq::<WordModel>::empty()) == 0,
        weight(words.push(w)) == weight(words) + w.1 * w.0.len(),
        count_sum(Seq::<WordModel>::empty()) == 0,
        count_sum(words.push(w)) == count_sum(words) + w.1,
        total_len(Seq::<Seq<usize>>::empty()) == 0,
        total_len(lists.push(ids)) == total_len(lists) + ids.len(),
{
    assert(words.push(w).drop_last() =~= words);
    assert(lists.push(ids).drop_last() =~= lists);
}

/// The words of a corpus: those of a list of counts with their counts, and those of a
/// list of sequences each once.
pub proof fn law_words_of_a_corpus(
    counts: Seq<(Vec<usize>, u64)>,
    sequences: Seq<Vec<usize>>,
    i: int,
)
    ensures
        counted_words(counts).len() == counts.len(),
        0 <= i < counts.len() ==> counted_words(counts)[i] == (counts[i].0@, counts[i].1),
        single_words(sequences).len() == sequences.len(),
        0 <= i < sequences.len() ==> single_words(sequences)[i] == (sequences[i]@, 1u64),
{
}

} // verus!
