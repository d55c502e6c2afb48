//! What encoding finds at a place of a text, told from the characters and the
//! vocabulary.

use crate::akshara::{cuts, lemma_cuts_concat, lemma_cuts_nonneg, lemma_cuts_singles};
use crate::encoding::{
    byte_ids, class_of, decoded, flushed, greedy_pieces, has_stop, is_stop, joined_units, lemma_longest_match,
    lemma_more_len, lemma_plain_len, lemma_piece_ids_concat, lemma_run_units_text, lemma_seed_at,
    lemma_seed_len, longest_match, marked, marked_text, marker_len, min_nat, more_len, piece_ids,
    plain_len, run_len, surface_text, DecoderState, EncoderModel, MChar, Piece,
};
use crate::external::replaced_utf8;
use crate::script::{byte_char, classify_char, is_marker, is_self_spelled, shifted_below, Script};
use crate::vocab::{TokenModel, VocabModel};
use vstd::prelude::*;
use vstd::utf8::{decode_utf8, encode_utf8, valid_utf8};

verus! {

/// Whether a text stands at a place of a marked text, with no marker in it.
pub open spec fn stands_at(text: Seq<char>, m: Seq<MChar>, at: int) -> bool {
    &&& 0 <= at
    &&& at + text.len() <= m.len()
    &&& forall|i: int|
        0 <= i < text.len() ==> (#[trigger] m[at + i]).ch == text[i] && !m[at + i].synthetic
            && text[i] != '\u{2581}' && text[i] != '\u{2582}'
}

/// Whether a text holds a full stop or a danda.
pub open spec fn holds_stop(text: Seq<char>) -> bool {
    exists|i: int| 0 <= i < text.len() && (#[trigger] text[i] == '.' || text[i] == '\u{0964}')
}

/// The place behind the marker that a marked text may begin with.
pub open spec fn behind_marker(m: Seq<MChar>) -> int {
    if m[0].synthetic {
        1
    } else {
        0
    }
}

/// Whether the text is one that is taken whole at the front of a marked text, behind a
/// marker or without one: at least two characters with a stop among them, a token of the
/// vocabulary, not longer than the limit, and its end is the end of a unit.
pub open spec fn may_be_taken(e: EncoderModel, m: Seq<MChar>, text: Seq<char>) -> bool {
    &&& stands_at(text, m, behind_marker(m))
    &&& 2 <= text.len() <= e.seed_max_len
    &&& holds_stop(text)
    &&& e.vocab.index.contains_key(text)
    &&& cuts(e.text_units(m), behind_marker(m) + text.len())
}

proof fn lemma_stands_plain(text: Seq<char>, m: Seq<MChar>)
    requires
        stands_at(text, m, 0),
    ensures
        plain_len(m) >= text.len(),
        marked_text(m.take(text.len() as int)) == text,
        holds_stop(text) == has_stop(text),
{
    lemma_plain_len(m);
    let n = plain_len(m) as int;
    if n < text.len() {
        assert(m[0 + n].ch == text[n]);
    }
    assert forall|i: int| 0 <= i < text.len() implies #[trigger] marked_text(
        m.take(text.len() as int),
    )[i] == text[i] by {
        assert(m[0 + i].ch == text[i]);
    }
    assert(marked_text(m.take(text.len() as int)) =~= text);
    if has_stop(text) {
        let k = choose|k: int| 0 <= k < text.len() && is_stop(#[trigger] text[k]);
        assert(text[k] == '.' || text[k] == '\u{0964}');
    }
    if holds_stop(text) {
        let k = choose|k: int|
            0 <= k < text.len() && (#[trigger] text[k] == '.' || text[k] == '\u{0964}');
        assert(is_stop(text[k]));
    }
}

proof fn lemma_stands_behind(text: Seq<char>, m: Seq<MChar>)
    requires
        m.len() > 0,
        stands_at(text, m, behind_marker(m)),
    ensures
        stands_at(text, m.skip(behind_marker(m)), 0),
{
    let o = behind_marker(m);
    assert forall|i: int| 0 <= i < text.len() implies (#[trigger] m.skip(o)[0 + i]).ch == text[i]
        && !m.skip(o)[0 + i].synthetic && text[i] != '\u{2581}' && text[i] != '\u{2582}' by {
        assert(m[o + i].ch == text[i]);
    }
}

/// At every place where encoding takes up a text, behind a marker or not, an
/// abbreviation that stands there is not taken apart: a token that holds a stop and is
/// at least as long is given for it whole, and encoding goes on behind it.
pub proof fn law_abbreviations_are_taken_whole(e: EncoderModel, m: Seq<MChar>, text: Seq<char>)
    requires
        m.len() > 0,
        may_be_taken(e, m, text),
    ensures
        ({
            let o = behind_marker(m);
            let p = e.pieces(m)[o];
            &&& e.pieces(m).len() > o
            &&& p.text.len() >= text.len()
            &&& may_be_taken(e, m, p.text)
            &&& p.ids == seq![e.vocab.index[p.text]]
            &&& o == 1 ==> e.pieces(m)[0].text == seq![m[0].ch]
            &&& o == 1 ==> e.pieces(m)[0].ids == if e.vocab.index.contains_key(seq![m[0].ch]) {
                seq![e.vocab.index[seq![m[0].ch]]]
            } else {
                Seq::<usize>::empty()
            }
            &&& e.pieces(m).skip(o + 1) == e.pieces(m.skip(o + p.text.len()))
        }),
{
    reveal(EncoderModel::seed_at);
    let o = behind_marker(m);
    let rest = m.skip(o);
    assert(o == marker_len(m));
    lemma_stands_behind(text, m);
    lemma_stands_plain(text, rest);
    assert(e.is_abbreviation(m, text.len()));
    lemma_plain_len(rest);
    lemma_seed_len(e, m, min_nat(e.seed_max_len, plain_len(rest)));
    lemma_seed_at(e, m);
    let n = e.seed_at(m) as int;
    assert(n >= text.len()) by {
        if n < text.len() {
            assert(!e.is_abbreviation(m, text.len()));
        }
    }
    let taken = marked_text(rest.take(n));
    lemma_taken(e, m, taken, n);
    assert(e.pieces(m) == e.seed_pieces(m, n as nat) + e.pieces(m.skip(o + n)));
    assert(e.pieces(m).skip(o + 1) =~= e.pieces(m.skip(o + n)));
    assert(e.pieces(m)[o] == e.seed_pieces(m, n as nat)[o]);
}

/// What is found as an abbreviation is one.
proof fn lemma_taken(e: EncoderModel, m: Seq<MChar>, taken: Seq<char>, n: int)
    requires
        m.len() > 0,
        0 <= n <= plain_len(m.skip(behind_marker(m))),
        n <= e.seed_max_len,
        e.is_abbreviation(m, n as nat),
        taken == marked_text(m.skip(behind_marker(m)).take(n)),
    ensures
        may_be_taken(e, m, taken),
{
    let o = behind_marker(m);
    let rest = m.skip(o);
    lemma_plain_len(rest);
    assert(taken.len() == n);
    assert forall|i: int| 0 <= i < taken.len() implies (#[trigger] m[o + i]).ch == taken[i]
        && !m[o + i].synthetic && taken[i] != '\u{2581}' && taken[i] != '\u{2582}' by {
        assert(rest[i] == m[o + i]);
        assert(!is_marker(rest[i].ch));
    }
    assert(stands_at(taken, m, o));
    lemma_stands_behind(taken, m);
    lemma_stands_plain(taken, rest);
}

/// The first run of a marked text: up to `r` there is one class, and no marker but at
/// the very front.
pub open spec fn is_first_run(m: Seq<MChar>, r: int) -> bool {
    &&& 0 < r <= m.len()
    &&& forall|i: int|
        0 < i < r ==> !(#[trigger] m[i]).synthetic && class_of(m[i]) == class_of(m[0])
    &&& r < m.len() ==> m[r].synthetic || class_of(m[r]) != class_of(m[0])
}

proof fn lemma_first_run(m: Seq<MChar>, r: int)
    requires
        is_first_run(m, r),
    ensures
        run_len(m) == r,
{
    let c = class_of(m[0]);
    let t = m.skip(1);
    lemma_more_len(t, c);
    let n = more_len(t, c) as int;
    if n + 1 < r {
        assert(t[n] == m[n + 1]);
    }
    if n + 1 > r {
        assert(t[r - 1] == m[r]);
    }
}

/// Where no abbreviation stands, the first run is matched on its own, and encoding goes
/// on behind it.
pub proof fn law_runs_are_matched_one_by_one(e: EncoderModel, m: Seq<MChar>, r: int)
    requires
        is_first_run(m, r),
        forall|text: Seq<char>| !#[trigger] may_be_taken(e, m, text),
    ensures
        e.pieces(m) == e.run_pieces(m.take(r), class_of(m[0])) + e.pieces(m.skip(r)),
{
    lemma_first_run(m, r);
    lemma_seed_at(e, m);
    if e.seed_at(m) > 0 {
        let n = e.seed_at(m) as int;
        assert(behind_marker(m) == marker_len(m));
        assert(n <= e.seed_max_len) by {
            reveal(EncoderModel::seed_at);
            lemma_seed_len(
                e,
                m,
                min_nat(e.seed_max_len, plain_len(m.skip(marker_len(m)))),
            );
        }
        lemma_taken(e, m, marked_text(m.skip(behind_marker(m)).take(n)), n);
    }
}

/// A unit ends at the end of every run; inside a run that is not Devanagari, behind every
/// character; inside a Devanagari run, behind the marker and where the automaton ends a
/// unit; and behind a run where one ends in the text behind it.
pub proof fn law_units_of_runs(e: EncoderModel, m: Seq<MChar>, r: int, k: int)
    requires
        is_first_run(m, r),
        0 < k <= m.len(),
    ensures
        k == r ==> cuts(e.text_units(m), k),
        k > r ==> (cuts(e.text_units(m), k) <==> cuts(e.text_units(m.skip(r)), k - r)),
        k < r && class_of(m[0]) != Script::DEV ==> cuts(e.text_units(m), k),
        k < r && class_of(m[0]) == Script::DEV ==> (cuts(e.text_units(m), k) <==> cuts(
            e.dfa.units(marked_text(m.subrange(behind_marker(m), r))),
            k - behind_marker(m),
        )),
{
    lemma_first_run(m, r);
    let c = class_of(m[0]);
    let run = m.take(r);
    let us = e.run_units(run, c);
    let rest = e.text_units(m.skip(r));
    lemma_more_len(m.skip(1), c);
    lemma_run_units_text(e, run, c);
    lemma_cuts_concat(us, rest, k);
    assert(us.flatten().len() == r);
    if cuts(us, k) {
        lemma_cuts_nonneg(us, k);
    }
    if cuts(rest, k - r) {
        lemma_cuts_nonneg(rest, k - r);
    }
    if c != Script::DEV {
        if k < r {
            lemma_cuts_singles(marked_text(run), k);
        }
    } else if m[0].synthetic {
        let inner = e.dfa.units(marked_text(run.skip(1)));
        assert(us.drop_first() =~= inner);
        assert(us[0].len() == 1);
        assert(run.skip(1) =~= m.subrange(1, r));
    } else {
        assert(run =~= m.subrange(0, r));
    }
}

/// The classes of characters. A character of a class is what its range says, and a
/// marker that the text itself holds is malformed.
pub proof fn law_classes_of_characters(x: MChar)
    ensures
        x.synthetic ==> class_of(x) == if x.ch == '\u{2581}' {
            Script::DEV
        } else {
            Script::LAT
        },
        !x.synthetic ==> {
            let c = x.ch;
            &&& class_of(x) == Script::FMT <==> c == '\u{200C}'
            &&& class_of(x) == Script::LAT <==> 'a' <= c <= 'z' || 'A' <= c <= 'Z' || '0' <= c <= '9'
            &&& class_of(x) == Script::PUN <==> '!' <= c <= '/' || ':' <= c <= '@' || '[' <= c <= '`'
                || '{' <= c <= '~' || c == '\u{0964}' || c == '\u{0965}' || '\u{2010}' <= c
                <= '\u{2015}' || '\u{2018}' <= c <= '\u{201F}' || c == '\u{2026}'
            &&& class_of(x) == Script::DEV <==> '\u{0900}' <= c <= '\u{0963}' || '\u{0966}' <= c
                <= '\u{097F}'
            &&& !is_marker(c) ==> classify_char(c) == class_of(x)
        },
{
}

/// Marking puts one marker in front of the text and one in place of each space, for a
/// Latin word where an ASCII letter or digit comes next, and changes nothing else.
pub proof fn law_marking(s: Seq<char>, i: int)
    requires
        0 <= i <= s.len(),
    ensures
        marked(s).len() == s.len() + 1,
        marked_text(marked(s)).len() == s.len() + 1,
        marked_text(marked(s))[i] == marked(s)[i].ch,
        ({
            let x = marked(s)[i];
            let latin = i < s.len() && ('a' <= s[i] <= 'z' || 'A' <= s[i] <= 'Z' || '0' <= s[i]
                <= '9');
            if i == 0 || s[i - 1] == ' ' {
                x.synthetic && x.ch == if latin {
                    '\u{2582}'
                } else {
                    '\u{2581}'
                }
            } else {
                !x.synthetic && x.ch == s[i - 1]
            }
        }),
{
}

proof fn lemma_joined_take(us: Seq<Seq<char>>, j: int)
    requires
        0 <= j <= us.len(),
    ensures
        joined_units(us, 0, j) == us.take(j).flatten(),
    decreases j,
{
    if j > 0 {
        lemma_joined_take(us, j - 1);
        assert(us.take(j).drop_last() =~= us.take(j - 1));
        us.take(j).lemma_flatten_and_flatten_alt_are_equivalent();
        us.take(j - 1).lemma_flatten_and_flatten_alt_are_equivalent();
    } else {
        assert(us.take(0) =~= Seq::<Seq<char>>::empty());
        assert(joined_units(us, 0, 0) =~= us.take(0).flatten());
    }
}

proof fn lemma_joined_shift(us: Seq<Seq<char>>, n: int, i: int, j: int)
    requires
        0 <= n <= i <= j <= us.len(),
    ensures
        joined_units(us, i, j) == joined_units(us.skip(n), i - n, j - n),
    decreases j - i,
{
    if i < j {
        lemma_joined_shift(us, n, i, j - 1);
        assert(us.skip(n)[j - n - 1] == us[j - 1]);
    }
}

proof fn lemma_longest_shift(v: VocabModel, us: Seq<Seq<char>>, n: int, i: int, j: int)
    requires
        0 <= n <= i <= j <= us.len(),
    ensures
        longest_match(v, us, i, j) == n + longest_match(v, us.skip(n), i - n, j - n),
    decreases j - i,
{
    if i < j {
        lemma_joined_shift(us, n, i, j);
        lemma_longest_shift(v, us, n, i, j - 1);
    }
}

proof fn lemma_greedy_shift(v: VocabModel, us: Seq<Seq<char>>, n: int, i: int)
    requires
        0 <= n <= i <= us.len(),
    ensures
        greedy_pieces(v, us, i) == greedy_pieces(v, us.skip(n), i - n),
    decreases us.len() - i,
{
    if i < us.len() {
        let len = us.len() as int;
        let j = longest_match(v, us, i, len);
        lemma_longest_match(v, us, i, len);
        lemma_longest_shift(v, us, n, i, len);
        lemma_joined_shift(us, n, i, j);
        assert(us.skip(n)[i - n] == us[i]);
        if j > i {
            lemma_greedy_shift(v, us, n, j);
        } else {
            lemma_greedy_shift(v, us, n, i + 1);
        }
    }
}

/// Matching takes the longest stretch of units from the front that has a token, and goes
/// on behind it.
pub proof fn law_longest_known_stretch_comes_first(v: VocabModel, us: Seq<Seq<char>>, j: int)
    requires
        0 < j <= us.len(),
        v.index.contains_key(us.take(j).flatten()),
        forall|i: int|
            j < i <= us.len() ==> !v.index.contains_key((#[trigger] us.take(i)).flatten()),
    ensures
        ({
            let ps = greedy_pieces(v, us, 0);
            &&& ps.len() > 0
            &&& ps[0].text == us.take(j).flatten()
            &&& ps[0].ids == seq![v.index[us.take(j).flatten()]]
            &&& ps.skip(1) == greedy_pieces(v, us.skip(j), 0)
        }),
{
    let len = us.len() as int;
    let k = longest_match(v, us, 0, len);
    lemma_longest_match(v, us, 0, len);
    lemma_joined_take(us, j);
    if k < j {
        assert(v.lookup(joined_units(us, 0, j)) is None);
    }
    if k > j {
        lemma_joined_take(us, k);
        assert(!v.index.contains_key(us.take(k).flatten()));
    }
    lemma_greedy_shift(v, us, j, j);
    assert(greedy_pieces(v, us, 0).skip(1) =~= greedy_pieces(v, us, j));
}

/// Where no stretch of units from the front has a token, the first unit alone is spelled
/// in bytes, and matching goes on behind it.
pub proof fn law_unknown_unit_is_spelled(v: VocabModel, us: Seq<Seq<char>>)
    requires
        us.len() > 0,
        forall|i: int|
            0 < i <= us.len() ==> !v.index.contains_key((#[trigger] us.take(i)).flatten()),
    ensures
        ({
            let ps = greedy_pieces(v, us, 0);
            &&& ps.len() > 0
            &&& ps[0].text == us[0]
            &&& ps[0].ids == byte_ids(v, encode_utf8(us[0]))
            &&& ps.skip(1) == greedy_pieces(v, us.skip(1), 0)
        }),
{
    let len = us.len() as int;
    let k = longest_match(v, us, 0, len);
    lemma_longest_match(v, us, 0, len);
    if k > 0 {
        lemma_joined_take(us, k);
        assert(!v.index.contains_key(us.take(k).flatten()));
    }
    lemma_greedy_shift(v, us, 1, 1);
    assert(greedy_pieces(v, us, 0).skip(1) =~= greedy_pieces(v, us, 1));
}

/// How a run is matched: Latin and punctuation by characters, Devanagari by the marker
/// and the units of the automaton, and the other classes each character on its own.
pub proof fn law_matching_of_runs(e: EncoderModel, run: Seq<MChar>, us: Seq<Seq<char>>, i: int)
    requires
        0 <= i < run.len(),
        us.len() == run.len(),
        forall|j: int| 0 <= j < us.len() ==> #[trigger] us[j] == seq![run[j].ch],
    ensures
        e.run_pieces(run, Script::LAT) == greedy_pieces(e.vocab, us, 0),
        e.run_pieces(run, Script::PUN) == greedy_pieces(e.vocab, us, 0),
        run[0].synthetic ==> e.run_pieces(run, Script::DEV) == greedy_pieces(
            e.vocab,
            seq![us[0]] + e.dfa.units(marked_text(run.skip(1))),
            0,
        ),
        !run[0].synthetic ==> e.run_pieces(run, Script::DEV) == greedy_pieces(
            e.vocab,
            e.dfa.units(marked_text(run)),
            0,
        ),
        e.run_pieces(run, Script::FMT).len() == run.len(),
        e.run_pieces(run, Script::FMT)[i].text == us[i],
        e.run_pieces(run, Script::FMT)[i].ids == if e.vocab.index.contains_key(us[i]) {
            seq![e.vocab.index[us[i]]]
        } else {
            Seq::<usize>::empty()
        },
        e.run_pieces(run, Script::MAL).len() == run.len(),
        e.run_pieces(run, Script::MAL)[i].text == us[i],
        e.run_pieces(run, Script::MAL)[i].ids == byte_ids(e.vocab, encode_utf8(us[i])),
{
    assert(e.run_units(run, Script::LAT) =~= us);
    assert(e.run_units(run, Script::PUN) =~= us);
    assert(us[0] == seq![run[0].ch]);
    assert(us[i] == seq![run[i].ch]);
}

/// Bytes are spelled one by one, in order, each by the token of its character.
pub proof fn law_spelling(v: VocabModel, bytes: Seq<u8>, more: Seq<u8>, b: u8)
    ensures
        byte_ids(v, bytes + more) == byte_ids(v, bytes) + byte_ids(v, more),
        byte_ids(v, Seq::<u8>::empty()) == Seq::<usize>::empty(),
        byte_ids(v, seq![b]) == if v.index.contains_key(seq![byte_char(b)]) {
            seq![v.index[seq![byte_char(b)]]]
        } else {
            Seq::<usize>::empty()
        },
    decreases bytes.len(),
{
    assert(seq![b].skip(1) =~= Seq::<u8>::empty());
    assert(byte_ids(v, seq![b].skip(1)) =~= Seq::<usize>::empty());
    if bytes.len() == 0 {
        assert(bytes + more =~= more);
        assert(byte_ids(v, bytes) + byte_ids(v, more) =~= byte_ids(v, more));
    } else {
        law_spelling(v, bytes.skip(1), more, b);
        assert((bytes + more).skip(1) =~= bytes.skip(1) + more);
        assert((bytes + more)[0] == bytes[0]);
        assert(byte_ids(v, bytes + more) =~= byte_ids(v, bytes) + byte_ids(v, more));
    }
}

proof fn lemma_shifted(b: nat)
    requires
        b <= 256,
    ensures
        shifted_below(b) == if b <= 0x21 {
            b as int
        } else if b <= 0x7F {
            0x21
        } else if b <= 0xA1 {
            0x21 + (b - 0x7F)
        } else if b <= 0xAD {
            0x43
        } else {
            0x44
        },
    decreases b,
{
    if b > 0 {
        lemma_shifted((b - 1) as nat);
    }
}

/// The characters of the byte alphabet: visible ASCII and visible Latin-1 stand for
/// themselves, and the other bytes in order for the characters from U+0100 on.
pub proof fn law_byte_alphabet(b: u8)
    ensures
        byte_char(b) as int == if 0x21 <= b <= 0x7E || 0xA1 <= b <= 0xAC || 0xAE <= b {
            b as int
        } else if b <= 0x20 {
            0x100 + b
        } else if b <= 0xA0 {
            0x121 + (b - 0x7F)
        } else {
            0x143int
        },
{
    lemma_shifted(b as nat);
    assert(!is_self_spelled(b) ==> byte_char(b) as int == 256 + shifted_below(b as nat));
}

/// The tokens of a text are those of its pieces, in order.
pub proof fn law_tokens_of_pieces(
    e: EncoderModel,
    s: Seq<char>,
    p: Seq<Piece>,
    q: Seq<Piece>,
    x: Piece,
)
    ensures
        e.encoded(s) == piece_ids(e.pieces(marked(s))),
        piece_ids(p + q) == piece_ids(p) + piece_ids(q),
        piece_ids(seq![x]) == x.ids,
        piece_ids(Seq::<Piece>::empty()) == Seq::<usize>::empty(),
        e.pieces(Seq::<MChar>::empty()) == Seq::<Piece>::empty(),
{
    lemma_piece_ids_concat(p, q);
    assert(seq![x].skip(1) =~= Seq::<Piece>::empty());
    assert(piece_ids(seq![x].skip(1)) =~= Seq::<usize>::empty());
    assert(piece_ids(seq![x]) =~= x.ids);
}

/// Decoding of one more token that stands for no byte: its surface is added, with a space
/// for each marker.
pub proof fn law_decoding_adds_surfaces(v: VocabModel, ids: Seq<usize>, id: usize, shown: Seq<char>)
    requires
        id < v.len(),
        !(v.tokens[id as int] is ByteFallback),
        shown.len() == v.surfaces[id as int].len(),
        forall|i: int|
            0 <= i < shown.len() ==> #[trigger] shown[i] == if v.surfaces[id as int][i]
                == '\u{2581}' || v.surfaces[id as int][i] == '\u{2582}' {
                ' '
            } else {
                v.surfaces[id as int][i]
            },
    ensures
        DecoderState::start().after(v, ids.push(id)).finish() == DecoderState::start().after(
            v,
            ids,
        ).finish() + shown,
{
    assert(ids.push(id).drop_last() =~= ids);
    assert(surface_text(v.surfaces[id as int]) =~= shown);
    lemma_nothing_flushed();
    let d = DecoderState::start().after(v, ids.push(id));
    assert(d.finish() =~= d.text);
}

/// A number that is no token adds nothing of its own.
pub proof fn law_decoding_skips_unknown_numbers(v: VocabModel, ids: Seq<usize>, id: usize)
    requires
        id >= v.len(),
    ensures
        DecoderState::start().after(v, ids.push(id)).finish() == DecoderState::start().after(
            v,
            ids,
        ).finish(),
{
    assert(ids.push(id).drop_last() =~= ids);
    lemma_nothing_flushed();
    let d = DecoderState::start().after(v, ids.push(id));
    assert(d.finish() =~= d.text);
}

proof fn lemma_nothing_flushed()
    ensures
        flushed(Seq::<u8>::empty()) == Seq::<char>::empty(),
{
    vstd::utf8::encode_utf8_decode_utf8(Seq::<char>::empty());
    vstd::utf8::encode_utf8_valid_utf8(Seq::<char>::empty());
    assert(encode_utf8(Seq::<char>::empty()) =~= Seq::<u8>::empty());
}

/// Tokens that stand for bytes are decoded together, as far as they follow each other:
/// where the bytes are the encoding of a text, that text is added.
pub proof fn law_decoding_joins_bytes(
    v: VocabModel,
    ids: Seq<usize>,
    spelled: Seq<usize>,
    text: Seq<char>,
)
    requires
        ids.len() == 0 || ids.last() >= v.len() || !(v.tokens[ids.last() as int] is ByteFallback),
        spelled.len() == encode_utf8(text).len(),
        forall|i: int|
            0 <= i < spelled.len() ==> #[trigger] spelled[i] < v.len()
                && v.tokens[spelled[i] as int] == TokenModel::ByteFallback(encode_utf8(text)[i]),
    ensures
        DecoderState::start().after(v, ids + spelled).finish() == DecoderState::start().after(
            v,
            ids,
        ).finish() + text,
{
    let bytes = encode_utf8(text);
    let d = DecoderState::start().after(v, ids);
    assert(d.bytes =~= Seq::<u8>::empty());
    lemma_nothing_flushed();
    assert(d.finish() =~= d.text);
    lemma_bytes_wait(v, ids, spelled, bytes);
    assert(bytes.take(bytes.len() as int) =~= bytes);
    vstd::utf8::encode_utf8_decode_utf8(text);
    vstd::utf8::encode_utf8_valid_utf8(text);
}

/// Whatever the bytes are: what is not the encoding of a text is replaced as a whole.
pub proof fn law_decoding_of_bytes(
    v: VocabModel,
    ids: Seq<usize>,
    spelled: Seq<usize>,
    bytes: Seq<u8>,
)
    requires
        ids.len() == 0 || ids.last() >= v.len() || !(v.tokens[ids.last() as int] is ByteFallback),
        spelled.len() == bytes.len(),
        forall|i: int|
            0 <= i < spelled.len() ==> #[trigger] spelled[i] < v.len()
                && v.tokens[spelled[i] as int] == TokenModel::ByteFallback(bytes[i]),
    ensures
        DecoderState::start().after(v, ids + spelled).finish() == DecoderState::start().after(
            v,
            ids,
        ).finish() + if valid_utf8(bytes) {
            decode_utf8(bytes)
        } else {
            replaced_utf8(bytes)
        },
{
    let d = DecoderState::start().after(v, ids);
    assert(d.bytes =~= Seq::<u8>::empty());
    lemma_nothing_flushed();
    assert(d.finish() =~= d.text);
    lemma_bytes_wait(v, ids, spelled, bytes);
    assert(bytes.take(bytes.len() as int) =~= bytes);
}

proof fn lemma_bytes_wait(v: VocabModel, ids: Seq<usize>, spelled: Seq<usize>, bytes: Seq<u8>)
    requires
        DecoderState::start().after(v, ids).bytes.len() == 0,
        spelled.len() <= bytes.len(),
        forall|i: int|
            0 <= i < spelled.len() ==> #[trigger] spelled[i] < v.len()
                && v.tokens[spelled[i] as int] == TokenModel::ByteFallback(bytes[i]),
    ensures
        DecoderState::start().after(v, ids + spelled).text == DecoderState::start().after(
            v,
            ids,
        ).text,
        DecoderState::start().after(v, ids + spelled).bytes == bytes.take(spelled.len() as int),
    decreases spelled.len(),
{
    if spelled.len() == 0 {
        assert(ids + spelled =~= ids);
        assert(DecoderState::start().after(v, ids).bytes =~= bytes.take(0));
    } else {
        let front = spelled.drop_last();
        assert forall|i: int| 0 <= i < front.len() implies #[trigger] front[i] < v.len()
            && v.tokens[front[i] as int] == TokenModel::ByteFallback(bytes[i]) by {
            assert(front[i] == spelled[i]);
        }
        lemma_bytes_wait(v, ids, front, bytes);
        assert((ids + spelled).drop_last() =~= ids + front);
        let n = spelled.len() as int;
        assert(spelled[n - 1] < v.len());
        assert((ids + spelled).last() == spelled[n - 1]);
        assert(bytes.take(n) =~= bytes.take(n - 1).push(bytes[n - 1]));
    }
}

/// The decoded text is without one space at its front, and no tokens are the empty text.
pub proof fn law_decoding_drops_one_space(v: VocabModel, ids: Seq<usize>)
    ensures
        ({
            let whole = DecoderState::start().after(v, ids).finish();
            decoded(v, ids) == if whole.len() > 0 && whole[0] == ' ' {
                whole.skip(1)
            } else {
                whole
            }
        }),
        DecoderState::start().after(v, Seq::<usize>::empty()).finish() == Seq::<char>::empty(),
{
    lemma_nothing_flushed();
    assert(DecoderState::start().after(v, Seq::<usize>::empty()).finish()
        =~= Seq::<char>::empty());
}

/// The same for the tokens of a whole text: wherever encoding has come to a place, an
/// abbreviation there, behind a marker or not, gives one token that holds a stop and is
/// at least as long, behind the token of the marker.
pub proof fn law_tokens_of_abbreviations(
    e: EncoderModel,
    s: Seq<char>,
    done: Seq<Piece>,
    k: int,
    text: Seq<char>,
)
    requires
        0 <= k <= s.len(),
        e.pieces(marked(s)) == done + e.pieces(marked(s).skip(k)),
        may_be_taken(e, marked(s).skip(k), text),
    ensures
        ({
            let m = marked(s).skip(k);
            let front = piece_ids(done) + if m[0].synthetic && e.vocab.index.contains_key(
                seq![m[0].ch],
            ) {
                seq![e.vocab.index[seq![m[0].ch]]]
            } else {
                Seq::<usize>::empty()
            };
            exists|t: Seq<char>| #[trigger]
                may_be_taken(e, m, t) && t.len() >= text.len() && e.encoded(s) == front
                    + seq![e.vocab.index[t]] + piece_ids(
                    e.pieces(m.skip(behind_marker(m) + t.len())),
                )
        }),
{
    let m = marked(s).skip(k);
    let o = behind_marker(m);
    law_abbreviations_are_taken_whole(e, m, text);
    let ps = e.pieces(m);
    let t = ps[o].text;
    let rest = e.pieces(m.skip(o + t.len()));
    lemma_piece_ids_concat(done, ps);
    lemma_piece_ids_concat(ps.take(o + 1), rest);
    assert(ps =~= ps.take(o + 1) + rest);
    law_tokens_of_pieces(e, s, seq![ps[0]], seq![ps[o]], ps[0]);
    law_tokens_of_pieces(e, s, seq![ps[0]], seq![ps[o]], ps[o]);
    if o == 1 {
        assert(ps.take(2) =~= seq![ps[0]] + seq![ps[1]]);
    } else {
        assert(ps.take(1) =~= seq![ps[0]]);
    }
    let front = piece_ids(done) + if m[0].synthetic && e.vocab.index.contains_key(seq![m[0].ch]) {
        seq![e.vocab.index[seq![m[0].ch]]]
    } else {
        Seq::<usize>::empty()
    };
    assert(e.encoded(s) =~= front + seq![e.vocab.index[t]] + piece_ids(rest));
    assert(may_be_taken(e, m, t));
}

} // verus!
