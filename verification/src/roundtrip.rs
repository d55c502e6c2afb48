//! What encoding and decoding promise together.

use crate::akshara::law_units_partition;
use crate::encoding::{
    byte_ids, class_of, decoded, flushed, greedy_pieces, joined_units, known_or_spelled,
    law_unmark_undoes_mark, lemma_longest_match, lemma_more_len, lemma_piece_ids_concat,
    lemma_plain_len, lemma_seed_at, lemma_singles, marked, marked_text, marker_len, optional_id,
    piece_ids, run_len, spelled_piece, surface_text, unmarked, DecoderState, EncoderModel, MChar,
    Piece,
};
use crate::script::{
    byte_char, is_marker, lemma_byte_char, Script, DEV_MARKER, LAT_MARKER, ZWNJ,
};
use crate::text::is_ascii_graphic;
use crate::vocab::{TokenModel, VocabModel};
use vstd::prelude::*;
use vstd::utf8::{
    decode_utf8, decode_utf8_encode_utf8, encode_scalar, encode_utf8, encode_utf8_decode_utf8,
    encode_utf8_first_scalar, encode_utf8_valid_utf8, is_ascii_chars, is_ascii_chars_encode_utf8,
    valid_utf8,
};

verus! {

/// A vocabulary that can spell everything: it has the two markers, the non-joiner and
/// every byte; the bytes that are no visible ASCII characters have byte tokens; and
/// byte tokens stand under the character of their byte.
pub open spec fn lossless(v: VocabModel) -> bool {
    &&& v.valid()
    &&& v.lookup(seq![DEV_MARKER]) is Some
    &&& v.lookup(seq![LAT_MARKER]) is Some
    &&& v.lookup(seq![ZWNJ]) is Some
    &&& forall|b: u8| v.lookup(seq![#[trigger] byte_char(b)]) is Some
    &&& forall|b: u8|
        !is_ascii_graphic(b) ==> v.tokens[v.index[seq![#[trigger] byte_char(b)]] as int]
            == TokenModel::ByteFallback(b)
    &&& forall|i: int|
        0 <= i < v.len() ==> (#[trigger] v.tokens[i] matches TokenModel::ByteFallback(b)
            ==> v.surfaces[i] == seq![byte_char(b)])
}

proof fn lemma_encode_concat(p: Seq<char>, q: Seq<char>)
    ensures
        encode_utf8(p + q) == encode_utf8(p) + encode_utf8(q),
    decreases p.len(),
{
    if p.len() == 0 {
        assert(p + q =~= q);
        assert(encode_utf8(p) + encode_utf8(q) =~= encode_utf8(q));
    } else {
        lemma_encode_concat(p.drop_first(), q);
        assert((p + q).drop_first() =~= p.drop_first() + q);
        assert(encode_scalar(p[0] as u32) + (encode_utf8(p.drop_first()) + encode_utf8(q))
            =~= encode_scalar(p[0] as u32) + encode_utf8(p.drop_first()) + encode_utf8(q));
    }
}

proof fn lemma_byte_ids_concat(v: VocabModel, p: Seq<u8>, q: Seq<u8>)
    ensures
        byte_ids(v, p + q) == byte_ids(v, p) + byte_ids(v, q),
    decreases p.len(),
{
    if p.len() == 0 {
        assert(p + q =~= q);
        assert(byte_ids(v, p) + byte_ids(v, q) =~= byte_ids(v, q));
    } else {
        lemma_byte_ids_concat(v, p.skip(1), q);
        assert((p + q).skip(1) =~= p.skip(1) + q);
        let first = optional_id(v.lookup(seq![byte_char(p[0])]));
        assert(first + (byte_ids(v, p.skip(1)) + byte_ids(v, q)) =~= first + byte_ids(v, p.skip(1))
            + byte_ids(v, q));
    }
}

proof fn lemma_after_concat(st: DecoderState, v: VocabModel, p: Seq<usize>, q: Seq<usize>)
    ensures
        st.after(v, p + q) == st.after(v, p).after(v, q),
    decreases q.len(),
{
    if q.len() == 0 {
        assert(p + q =~= p);
    } else {
        lemma_after_concat(st, v, p, q.drop_last());
        assert((p + q).drop_last() =~= p + q.drop_last());
    }
}

/// One more character behind valid bytes.
proof fn lemma_flushed_push(bytes: Seq<u8>, c: char)
    requires
        valid_utf8(bytes),
    ensures
        valid_utf8(bytes + encode_utf8(seq![c])),
        flushed(bytes + encode_utf8(seq![c])) == flushed(bytes).push(c),
{
    let d = decode_utf8(bytes);
    decode_utf8_encode_utf8(bytes);
    lemma_encode_concat(d, seq![c]);
    assert(d + seq![c] =~= d.push(c));
    encode_utf8_valid_utf8(d.push(c));
    encode_utf8_decode_utf8(d.push(c));
}

proof fn lemma_no_bytes()
    ensures
        valid_utf8(Seq::<u8>::empty()),
        flushed(Seq::<u8>::empty()) == Seq::<char>::empty(),
{
}

spec fn is_ascii_char(c: char) -> bool {
    c <= '\u{7F}'
}

/// The bytes of a character: one below 0x80 for an ASCII character, else only bytes
/// from 0x80 on.
proof fn lemma_char_bytes(c: char)
    ensures
        ({
            let b = encode_utf8(seq![c]);
            &&& is_ascii_char(c) ==> b == seq![c as u8] && c as u8 as int == c as int
            &&& !is_ascii_char(c) ==> forall|i: int| 0 <= i < b.len() ==> #[trigger] b[i] >= 0x80
        }),
{
    let s = seq![c];
    let b = encode_utf8(s);
    assert(s.drop_first() =~= Seq::<char>::empty());
    reveal_with_fuel(encode_utf8, 2);
    assert(b =~= encode_scalar(c as u32));
    if is_ascii_char(c) {
        assert(is_ascii_chars(s));
        is_ascii_chars_encode_utf8(s);
        assert(b =~= seq![c as u8]);
    } else {
        encode_utf8_first_scalar(s);
    }
}

/// After the byte tokens of bytes from 0x80 on, these bytes wait.
proof fn lemma_after_high_bytes(v: VocabModel, st: DecoderState, bytes: Seq<u8>)
    requires
        lossless(v),
        forall|i: int| 0 <= i < bytes.len() ==> #[trigger] bytes[i] >= 0x80,
    ensures
        st.after(v, byte_ids(v, bytes)) == (DecoderState {
            text: st.text,
            bytes: st.bytes + bytes,
        }),
    decreases bytes.len(),
{
    if bytes.len() == 0 {
        assert(st.bytes + bytes =~= st.bytes);
    } else {
        let b = bytes[0];
        let id = v.index[seq![byte_char(b)]];
        let first = seq![id];
        assert(v.lookup(seq![byte_char(b)]) is Some);
        lemma_after_concat(st, v, first, byte_ids(v, bytes.skip(1)));
        assert(first.drop_last() =~= Seq::<usize>::empty());
        let mid = st.next(v, id);
        reveal_with_fuel(DecoderState::after, 2);
        assert(st.after(v, first) == mid);
        lemma_after_high_bytes(v, mid, bytes.skip(1));
        assert(st.bytes.push(b) + bytes.skip(1) =~= st.bytes + bytes);
    }
}

/// The byte tokens of a character add this character.
proof fn lemma_after_spelled_char(v: VocabModel, st: DecoderState, c: char)
    requires
        lossless(v),
        valid_utf8(st.bytes),
    ensures
        ({
            let next = st.after(v, byte_ids(v, encode_utf8(seq![c])));
            &&& valid_utf8(next.bytes)
            &&& next.finish() == st.finish().push(c)
        }),
{
    let bytes = encode_utf8(seq![c]);
    let next = st.after(v, byte_ids(v, bytes));
    lemma_char_bytes(c);
    lemma_flushed_push(st.bytes, c);
    lemma_no_bytes();
    if is_ascii_char(c) {
        let b = c as u8;
        let id = v.index[seq![byte_char(b)]];
        assert(v.lookup(seq![byte_char(b)]) is Some);
        assert(bytes.skip(1) =~= Seq::<u8>::empty());
        reveal_with_fuel(byte_ids, 2);
        assert(byte_ids(v, bytes) =~= seq![id]);
        assert(seq![id].drop_last() =~= Seq::<usize>::empty());
        reveal_with_fuel(DecoderState::after, 2);
        assert(next == st.next(v, id));
        lemma_byte_char(b, b);
        assert(v.surfaces[id as int] == seq![byte_char(b)]);
        match v.tokens[id as int] {
            TokenModel::ByteFallback(x) => {
                assert(seq![byte_char(x)][0] == seq![byte_char(b)][0]);
                lemma_byte_char(x, b);
                assert(st.bytes.push(b) =~= st.bytes + bytes);
                assert(st.text + flushed(st.bytes).push(c) =~= (st.text + flushed(st.bytes)).push(
                    c,
                ));
            },
            _ => {
                assert(is_ascii_graphic(b));
                assert(byte_char(b) == c);
                assert(surface_text(seq![c]) =~= seq![c]);
                assert(next.text + Seq::<char>::empty() =~= next.text);
                assert(next.text =~= (st.text + flushed(st.bytes)).push(c));
            },
        }
    } else {
        lemma_after_high_bytes(v, st, bytes);
        assert(st.text + flushed(st.bytes).push(c) =~= (st.text + flushed(st.bytes)).push(c));
    }
}

/// The byte tokens of a text add this text.
proof fn lemma_after_spelled(v: VocabModel, st: DecoderState, text: Seq<char>)
    requires
        lossless(v),
        valid_utf8(st.bytes),
    ensures
        ({
            let next = st.after(v, spelled_piece(v, text).ids);
            &&& valid_utf8(next.bytes)
            &&& next.finish() == st.finish() + text
        }),
    decreases text.len(),
{
    if text.len() == 0 {
        assert(st.finish() + text =~= st.finish());
    } else {
        let front = text.drop_last();
        let c = text.last();
        assert(text =~= front + seq![c]);
        lemma_encode_concat(front, seq![c]);
        lemma_byte_ids_concat(v, encode_utf8(front), encode_utf8(seq![c]));
        lemma_after_concat(
            st,
            v,
            byte_ids(v, encode_utf8(front)),
            byte_ids(v, encode_utf8(seq![c])),
        );
        lemma_after_spelled(v, st, front);
        let mid = st.after(v, byte_ids(v, encode_utf8(front)));
        lemma_after_spelled_char(v, mid, c);
        assert(st.finish() + text =~= (st.finish() + front).push(c));
    }
}

/// A character that is no character of the byte alphabet beyond ASCII.
spec fn apart(c: char) -> bool {
    is_ascii_char(c) || c > '\u{1FF}'
}

/// The token of a text adds the text, its markers as spaces.
proof fn lemma_after_known(v: VocabModel, st: DecoderState, text: Seq<char>)
    requires
        lossless(v),
        valid_utf8(st.bytes),
        v.lookup(text) is Some,
        text.len() == 1 ==> apart(text[0]),
    ensures
        ({
            let next = st.after(v, seq![v.lookup(text)->0]);
            &&& valid_utf8(next.bytes)
            &&& next.finish() == st.finish() + surface_text(text)
        }),
{
    let id = v.lookup(text)->0;
    let next = st.after(v, seq![id]);
    assert(seq![id].drop_last() =~= Seq::<usize>::empty());
    reveal_with_fuel(DecoderState::after, 2);
    assert(next == st.next(v, id));
    assert(v.surfaces[id as int] == text);
    lemma_no_bytes();
    match v.tokens[id as int] {
        TokenModel::ByteFallback(b) => {
            assert(text == seq![byte_char(b)]);
            let c = text[0];
            lemma_byte_char(b, b);
            lemma_char_bytes(c);
            assert(c as u8 == b);
            lemma_flushed_push(st.bytes, c);
            assert(st.bytes.push(b) =~= st.bytes + encode_utf8(seq![c]));
            assert(surface_text(text) =~= seq![c]);
            assert(st.text + flushed(st.bytes).push(c) =~= st.text + flushed(st.bytes) + seq![c]);
        },
        _ => {
            assert(next.text + Seq::<char>::empty() =~= next.text);
        },
    }
}

/// Units that are apart from the byte alphabet, each of them one marker or without
/// any.
spec fn clean(units: Seq<Seq<char>>) -> bool {
    forall|i: int| 0 <= i < units.len() ==> clean_unit(#[trigger] units[i])
}

spec fn clean_unit(u: Seq<char>) -> bool {
    &&& forall|j: int| 0 <= j < u.len() ==> apart(#[trigger] u[j])
    &&& u == seq![DEV_MARKER] || u == seq![LAT_MARKER] || forall|j: int|
        0 <= j < u.len() ==> !is_marker(#[trigger] u[j])
}

proof fn lemma_joined_apart(units: Seq<Seq<char>>, i: int, j: int)
    requires
        clean(units),
        0 <= i <= j <= units.len(),
    ensures
        forall|k: int|
            0 <= k < joined_units(units, i, j).len() ==> apart(
                #[trigger] joined_units(units, i, j)[k],
            ),
    decreases j - i,
{
    if i < j {
        lemma_joined_apart(units, i, j - 1);
        let front = joined_units(units, i, j - 1);
        let u = units[j - 1];
        assert(clean_unit(u));
        assert forall|k: int| 0 <= k < joined_units(units, i, j).len() implies apart(
            #[trigger] joined_units(units, i, j)[k],
        ) by {
            if k < front.len() {
                assert(apart(front[k]));
            } else {
                assert(apart(u[k - front.len()]));
            }
        }
    }
}

pub proof fn lemma_joined_split(units: Seq<Seq<char>>, i: int, j: int, k: int)
    requires
        i <= j <= k,
    ensures
        joined_units(units, i, k) == joined_units(units, i, j) + joined_units(units, j, k),
    decreases k - j,
{
    if j < k {
        lemma_joined_split(units, i, j, k - 1);
        assert(joined_units(units, i, j) + (joined_units(units, j, k - 1) + units[k - 1])
            =~= joined_units(units, i, j) + joined_units(units, j, k - 1) + units[k - 1]);
    } else {
        assert(joined_units(units, i, j) + Seq::<char>::empty() =~= joined_units(units, i, j));
    }
}

proof fn lemma_surface_text_concat(p: Seq<char>, q: Seq<char>)
    ensures
        surface_text(p + q) == surface_text(p) + surface_text(q),
{
    assert(surface_text(p + q) =~= surface_text(p) + surface_text(q));
}

/// The tokens of units add their text, markers as spaces.
proof fn lemma_after_greedy(v: VocabModel, st: DecoderState, units: Seq<Seq<char>>, i: int)
    requires
        lossless(v),
        valid_utf8(st.bytes),
        clean(units),
        0 <= i <= units.len(),
    ensures
        ({
            let next = st.after(v, piece_ids(greedy_pieces(v, units, i)));
            &&& valid_utf8(next.bytes)
            &&& next.finish() == st.finish() + surface_text(
                joined_units(units, i, units.len() as int),
            )
        }),
    decreases units.len() - i,
{
    let n = units.len() as int;
    if i == n {
        assert(surface_text(joined_units(units, i, n)) =~= Seq::<char>::empty());
        assert(st.finish() + Seq::<char>::empty() =~= st.finish());
    } else {
        let j = longest_end(v, units, i);
        let piece = first_piece(v, units, i);
        let rest = greedy_pieces(v, units, j);
        lemma_first_piece(v, units, i);
        assert((seq![piece] + rest).skip(1) =~= rest);
        lemma_after_concat(st, v, piece.ids, piece_ids(rest));
        let text = joined_units(units, i, j);
        let mid = st.after(v, piece.ids);
        if v.lookup(text) is Some {
            lemma_joined_apart(units, i, j);
            lemma_after_known(v, st, text);
        } else {
            lemma_after_spelled(v, st, text);
            assert(clean_unit(units[i]));
            assert(surface_text(text) =~= text);
        }
        lemma_after_greedy(v, mid, units, j);
        lemma_joined_split(units, i, j, n);
        lemma_surface_text_concat(text, joined_units(units, j, n));
        assert(st.finish() + surface_text(text) + surface_text(joined_units(units, j, n))
            =~= st.finish() + (surface_text(text) + surface_text(joined_units(units, j, n))));
    }
}

/// The end of the first piece of the units from `i` on.
pub open spec fn longest_end(v: VocabModel, units: Seq<Seq<char>>, i: int) -> int {
    let j = crate::encoding::longest_match(v, units, i, units.len() as int);
    if j > i {
        j
    } else {
        i + 1
    }
}

pub open spec fn first_piece(v: VocabModel, units: Seq<Seq<char>>, i: int) -> Piece {
    known_or_spelled(v, joined_units(units, i, longest_end(v, units, i)))
}

/// The units from `i` on are one piece of whole units, and the pieces of the rest.
pub proof fn lemma_first_piece(v: VocabModel, units: Seq<Seq<char>>, i: int)
    requires
        0 <= i < units.len(),
    ensures
        i < longest_end(v, units, i) <= units.len(),
        greedy_pieces(v, units, i) == seq![first_piece(v, units, i)] + greedy_pieces(
            v,
            units,
            longest_end(v, units, i),
        ),
        v.lookup(joined_units(units, i, longest_end(v, units, i))) is None ==> longest_end(
            v,
            units,
            i,
        ) == i + 1 && joined_units(units, i, i + 1) == units[i],
{
    let n = units.len() as int;
    lemma_longest_match(v, units, i, n);
    assert(joined_units(units, i, i + 1) =~= units[i]) by {
        assert(joined_units(units, i, i) =~= Seq::<char>::empty());
    }
}

pub proof fn lemma_joined_all(units: Seq<Seq<char>>)
    ensures
        joined_units(units, 0, units.len() as int) == units.flatten(),
    decreases units.len(),
{
    let n = units.len() as int;
    if n > 0 {
        let front = units.drop_last();
        lemma_joined_all(front);
        assert(units.take(n - 1) =~= front.take(n - 1));
        lemma_joined_same(units, front, n - 1);
        front.lemma_flatten_push(units.last());
        assert(front.push(units.last()) =~= units);
    }
}

proof fn lemma_joined_same(p: Seq<Seq<char>>, q: Seq<Seq<char>>, j: int)
    requires
        0 <= j <= p.len(),
        j <= q.len(),
        p.take(j) == q.take(j),
    ensures
        joined_units(p, 0, j) == joined_units(q, 0, j),
    decreases j,
{
    if j > 0 {
        assert(p.take(j - 1) =~= p.take(j).take(j - 1));
        assert(q.take(j - 1) =~= q.take(j).take(j - 1));
        assert(p.take(j)[j - 1] == q.take(j)[j - 1]);
        lemma_joined_same(p, q, j - 1);
    }
}

/// A run: characters of one class, of which only the first may be a marker that
/// marking put there.
spec fn is_run(run: Seq<MChar>, script: Script) -> bool {
    &&& run.len() > 0
    &&& class_of(run[0]) == script
    &&& run[0].synthetic ==> is_marker(run[0].ch)
    &&& forall|i: int|
        0 < i < run.len() ==> !(#[trigger] run[i]).synthetic && class_of(run[i]) == script
}

/// The characters of runs that are not malformed.
proof fn lemma_class_apart(x: MChar)
    requires
        x.synthetic ==> is_marker(x.ch),
        class_of(x) != Script::MAL,
    ensures
        apart(x.ch),
        is_marker(x.ch) ==> x.synthetic,
{
}

proof fn lemma_run_text(run: Seq<MChar>, script: Script)
    requires
        is_run(run, script),
        script != Script::MAL,
    ensures
        surface_text(marked_text(run)) == unmarked(run),
{
    assert forall|i: int| 0 <= i < run.len() implies #[trigger] surface_text(marked_text(run))[i]
        == unmarked(run)[i] by {
        lemma_class_apart(run[i]);
    }
    assert(surface_text(marked_text(run)) =~= unmarked(run));
}

/// The units of a run are clean, and together they are its text.
proof fn lemma_run_units(e: EncoderModel, run: Seq<MChar>, script: Script)
    requires
        is_run(run, script),
        script != Script::MAL,
    ensures
        clean(e.run_units(run, script)),
        e.run_units(run, script).flatten() == marked_text(run),
{
    let units = e.run_units(run, script);
    if script == Script::DEV {
        let tail = if run[0].synthetic {
            run.skip(1)
        } else {
            run
        };
        let t = marked_text(tail);
        let parts = e.dfa.units(t);
        law_units_partition(e.dfa, t);
        assert forall|i: int| 0 <= i < parts.len() implies clean_unit(#[trigger] parts[i]) by {
            assert forall|j: int| 0 <= j < parts[i].len() implies apart(#[trigger] parts[i][j])
                && !is_marker(parts[i][j]) by {
                assert(t.contains(parts[i][j]));
                let k = choose|k: int| 0 <= k < t.len() && t[k] == parts[i][j];
                assert(tail[k] == run[k + (run.len() - tail.len())]);
                lemma_class_apart(tail[k]);
            }
        }
        if run[0].synthetic {
            let marker = seq![run[0].ch];
            assert(units == seq![marker] + parts);
            assert(clean_unit(marker)) by {
                lemma_class_apart(run[0]);
                assert(marker =~= seq![DEV_MARKER] || marker =~= seq![LAT_MARKER]);
            }
            assert(units.drop_first() =~= parts);
            assert(units.first() == marker);
            assert(marker + t =~= marked_text(run));
            assert forall|i: int| 0 <= i < units.len() implies clean_unit(#[trigger] units[i]) by {
                if i > 0 {
                    assert(units[i] == parts[i - 1]);
                }
            }
        }
    } else {
        let t = marked_text(run);
        assert forall|i: int| 0 <= i < units.len() implies clean_unit(#[trigger] units[i]) by {
            lemma_class_apart(run[i]);
            assert(units[i] =~= seq![run[i].ch]);
            assert(is_marker(run[i].ch) ==> units[i] =~= seq![DEV_MARKER] || units[i] =~= seq![
                LAT_MARKER,
            ]);
        }
        lemma_singles(t);
    }
}

/// The tokens of a run add its text.
proof fn lemma_after_run(e: EncoderModel, st: DecoderState, run: Seq<MChar>, script: Script)
    requires
        lossless(e.vocab),
        valid_utf8(st.bytes),
        is_run(run, script),
    ensures
        ({
            let next = st.after(e.vocab, piece_ids(e.run_pieces(run, script)));
            &&& valid_utf8(next.bytes)
            &&& next.finish() == st.finish() + unmarked(run)
        }),
{
    let v = e.vocab;
    if script == Script::DEV || script == Script::LAT || script == Script::PUN {
        let units = e.run_units(run, script);
        lemma_run_units(e, run, script);
        lemma_run_text(run, script);
        lemma_joined_all(units);
        lemma_after_greedy(v, st, units, 0);
    } else {
        lemma_after_singles(e, st, run, script, run.len() as int);
        assert(run.take(run.len() as int) =~= run);
        let ps = e.run_pieces(run, script);
        assert(ps.take(run.len() as int) =~= ps);
    }
}

proof fn lemma_after_singles(
    e: EncoderModel,
    st: DecoderState,
    run: Seq<MChar>,
    script: Script,
    n: int,
)
    requires
        lossless(e.vocab),
        valid_utf8(st.bytes),
        is_run(run, script),
        script == Script::FMT || script == Script::MAL,
        0 <= n <= run.len(),
    ensures
        ({
            let next = st.after(e.vocab, piece_ids(e.run_pieces(run, script).take(n)));
            &&& valid_utf8(next.bytes)
            &&& next.finish() == st.finish() + unmarked(run.take(n))
        }),
    decreases n,
{
    let v = e.vocab;
    let ps = e.run_pieces(run, script);
    if n == 0 {
        assert(ps.take(0) =~= Seq::<Piece>::empty());
        assert(unmarked(run.take(0)) =~= Seq::<char>::empty());
        assert(st.finish() + Seq::<char>::empty() =~= st.finish());
    } else {
        lemma_after_singles(e, st, run, script, n - 1);
        let mid = st.after(v, piece_ids(ps.take(n - 1)));
        let x = run[n - 1];
        let c = x.ch;
        let piece = ps[n - 1];
        assert(ps.take(n) =~= ps.take(n - 1) + seq![piece]);
        lemma_piece_ids_concat(ps.take(n - 1), seq![piece]);
        assert(seq![piece].skip(1) =~= Seq::<Piece>::empty());
        reveal_with_fuel(piece_ids, 2);
        assert(piece_ids(seq![piece]) =~= piece.ids);
        lemma_after_concat(st, v, piece_ids(ps.take(n - 1)), piece.ids);
        assert(!x.synthetic);
        if script == Script::MAL {
            lemma_after_spelled(v, mid, seq![c]);
        } else {
            lemma_class_apart(x);
            assert(c == ZWNJ);
            assert(surface_text(seq![c]) =~= seq![c]);
            lemma_after_known(v, mid, seq![c]);
            assert(piece.ids =~= seq![v.lookup(seq![c])->0]);
        }
        assert(unmarked(run.take(n)) =~= unmarked(run.take(n - 1)).push(c));
        assert(st.finish() + unmarked(run.take(n)) =~= st.finish() + unmarked(run.take(n - 1))
            + seq![c]);
    }
}

/// A marked text: what is synthetic is a marker.
spec fn well_marked(m: Seq<MChar>) -> bool {
    forall|i: int| 0 <= i < m.len() && (#[trigger] m[i]).synthetic ==> is_marker(m[i].ch)
}

/// The tokens of a seed and of the marker before it add their text.
proof fn lemma_after_seed(e: EncoderModel, st: DecoderState, m: Seq<MChar>)
    requires
        lossless(e.vocab),
        valid_utf8(st.bytes),
        m.len() > 0,
        well_marked(m),
        e.seed_at(m) > 0,
    ensures
        ({
            let len = e.seed_at(m);
            let end = marker_len(m) + len;
            let next = st.after(e.vocab, piece_ids(e.seed_pieces(m, len)));
            &&& valid_utf8(next.bytes)
            &&& next.finish() == st.finish() + unmarked(m.take(end))
        }),
{
    let v = e.vocab;
    let len = e.seed_at(m);
    let rest = m.skip(marker_len(m));
    lemma_seed_at(e, m);
    lemma_plain_len(rest);
    let text = marked_text(rest.take(len as int));
    let ps = e.seed_pieces(m, len);
    let seed = ps.last();
    assert(surface_text(text) =~= text);
    assert(unmarked(rest.take(len as int)) =~= text);
    assert(seed.ids =~= seq![v.lookup(text)->0]);
    reveal_with_fuel(piece_ids, 3);
    if m[0].synthetic {
        let marker = seq![m[0].ch];
        assert(ps.skip(1).skip(1) =~= Seq::<Piece>::empty());
        assert(marker =~= seq![DEV_MARKER] || marker =~= seq![LAT_MARKER]);
        assert(ps[0].ids =~= seq![v.lookup(marker)->0]);
        assert(piece_ids(ps) =~= ps[0].ids + seed.ids);
        lemma_after_concat(st, v, ps[0].ids, seed.ids);
        lemma_after_known(v, st, marker);
        lemma_after_known(v, st.after(v, ps[0].ids), text);
        assert(surface_text(marker) =~= seq![' ']);
        assert(unmarked(m.take(len as int + 1)) =~= seq![' '] + text);
        assert(st.finish() + seq![' '] + text =~= st.finish() + (seq![' '] + text));
    } else {
        assert(ps.skip(1) =~= Seq::<Piece>::empty());
        assert(piece_ids(ps) =~= seed.ids);
        assert(rest =~= m);
        lemma_after_known(v, st, text);
    }
}

proof fn lemma_after_pieces(e: EncoderModel, st: DecoderState, m: Seq<MChar>)
    requires
        lossless(e.vocab),
        valid_utf8(st.bytes),
        well_marked(m),
    ensures
        ({
            let next = st.after(e.vocab, piece_ids(e.pieces(m)));
            &&& valid_utf8(next.bytes)
            &&& next.finish() == st.finish() + unmarked(m)
        }),
    decreases m.len(),
{
    let v = e.vocab;
    if m.len() == 0 {
        assert(st.finish() + unmarked(m) =~= st.finish());
    } else {
        let len = e.seed_at(m);
        lemma_seed_at(e, m);
        lemma_more_len(m.skip(1), class_of(m[0]));
        let end = if len > 0 {
            marker_len(m) + len
        } else {
            run_len(m) as int
        };
        let front = m.take(end);
        let rest = m.skip(end);
        let ps = if len > 0 {
            e.seed_pieces(m, len)
        } else {
            e.run_pieces(front, class_of(m[0]))
        };
        assert(e.pieces(m) == ps + e.pieces(rest));
        lemma_piece_ids_concat(ps, e.pieces(rest));
        lemma_after_concat(st, v, piece_ids(ps), piece_ids(e.pieces(rest)));
        if len > 0 {
            lemma_after_seed(e, st, m);
        } else {
            assert(is_run(front, class_of(m[0]))) by {
                assert forall|i: int| 0 < i < front.len() implies !(#[trigger] front[i]).synthetic
                    && class_of(front[i]) == class_of(m[0]) by {
                    assert(front[i] == m.skip(1)[i - 1]);
                }
            }
            lemma_after_run(e, st, front, class_of(m[0]));
        }
        let mid = st.after(v, piece_ids(ps));
        assert(well_marked(rest)) by {
            assert forall|i: int| 0 <= i < rest.len() && (#[trigger] rest[i]).synthetic implies is_marker(
                rest[i].ch,
            ) by {
                assert(m[i + end].synthetic);
            }
        }
        lemma_after_pieces(e, mid, rest);
        assert(unmarked(m) =~= unmarked(front) + unmarked(rest));
        assert(st.finish() + unmarked(front) + unmarked(rest) =~= st.finish() + (unmarked(front)
            + unmarked(rest)));
    }
}

/// Decoding gives back what was encoded, for every text, if the vocabulary can spell
/// everything.
pub proof fn law_decode_undoes_encode(e: EncoderModel, s: Seq<char>)
    requires
        lossless(e.vocab),
    ensures
        decoded(e.vocab, e.encoded(s)) == s,
{
    let st = DecoderState::start();
    let m = marked(s);
    lemma_no_bytes();
    assert(well_marked(m));
    lemma_after_pieces(e, st, m);
    assert(st.finish() =~= Seq::<char>::empty());
    assert(st.finish() + unmarked(m) =~= unmarked(m));
    law_unmark_undoes_mark(s);
}

} // verus!
