//! Where tokens may begin and end.

use crate::akshara::{
    cuts, default_dfa, joined, law_default_units_whole, lemma_cuts_concat, lemma_cuts_nonneg,
    lemma_cuts_singles, lemma_units_behind,
};
use crate::encoding::{
    class_of, greedy_pieces, joined_units, lemma_longest_match, lemma_more_len,
    lemma_run_units_text, lemma_seed_at, marked, marked_text, marker_len, more_len, piece_texts,
    run_len, spelled_piece, EncoderModel, MChar, Piece,
};
use crate::roundtrip::{first_piece, lemma_first_piece, lemma_joined_split, longest_end};
use crate::script::{is_marker, Script};
use crate::vocab::VocabModel;
use vstd::prelude::*;

verus! {

proof fn lemma_cuts_skip(units: Seq<Seq<char>>, i: int, j: int, k: int)
    requires
        0 <= i <= j <= units.len(),
        cuts(units.skip(j), k),
    ensures
        cuts(units.skip(i), k + joined_units(units, i, j).len()),
    decreases j - i,
{
    if i < j {
        lemma_cuts_skip(units, i + 1, j, k);
        lemma_joined_split(units, i, i + 1, j);
        assert(joined_units(units, i, i) =~= Seq::<char>::empty());
        assert(joined_units(units, i, i + 1) =~= units[i]);
        assert(units.skip(i).drop_first() =~= units.skip(i + 1));
        assert(units.skip(i)[0] == units[i]);
    }
}

/// Greedy matching only cuts where units end.
proof fn lemma_greedy_cuts(v: VocabModel, units: Seq<Seq<char>>, i: int, k: int)
    requires
        0 <= i <= units.len(),
        cuts(piece_texts(greedy_pieces(v, units, i)), k),
    ensures
        cuts(units.skip(i), k),
    decreases units.len() - i,
{
    if k != 0 && i < units.len() {
        lemma_first_piece(v, units, i);
        let j = longest_end(v, units, i);
        let p = first_piece(v, units, i);
        let rest = greedy_pieces(v, units, j);
        assert(piece_texts(seq![p] + rest).drop_first() =~= piece_texts(rest));
        assert(p.text == joined_units(units, i, j));
        lemma_greedy_cuts(v, units, j, k - p.text.len());
        lemma_cuts_skip(units, i, j, k - p.text.len());
    }
}

/// The texts of the pieces of greedy matching are the text of the units.
proof fn lemma_greedy_texts(v: VocabModel, units: Seq<Seq<char>>, i: int)
    requires
        0 <= i <= units.len(),
    ensures
        piece_texts(greedy_pieces(v, units, i)).flatten() == joined_units(
            units,
            i,
            units.len() as int,
        ),
    decreases units.len() - i,
{
    if i < units.len() {
        lemma_first_piece(v, units, i);
        let n = units.len() as int;
        let j = longest_end(v, units, i);
        let p = first_piece(v, units, i);
        let rest = greedy_pieces(v, units, j);
        let ps = greedy_pieces(v, units, i);
        lemma_greedy_texts(v, units, j);
        assert(piece_texts(ps).drop_first() =~= piece_texts(rest));
        assert(piece_texts(ps).first() == p.text);
        lemma_joined_split(units, i, j, n);
    }
}

/// The pieces of a run cover it, and only cut where its units end.
proof fn lemma_run_pieces(e: EncoderModel, run: Seq<MChar>, script: Script, k: int)
    ensures
        piece_texts(e.run_pieces(run, script)).flatten() == marked_text(run),
        cuts(piece_texts(e.run_pieces(run, script)), k) ==> cuts(e.run_units(run, script), k),
{
    let ps = e.run_pieces(run, script);
    let units = e.run_units(run, script);
    lemma_run_units_text(e, run, script);
    if script == Script::FMT || script == Script::MAL {
        assert forall|i: int| 0 <= i < ps.len() implies #[trigger] piece_texts(ps)[i]
            == units[i] by {
            assert(ps[i].text =~= seq![run[i].ch]);
            assert(units[i] =~= seq![run[i].ch]);
        }
        assert(piece_texts(ps) =~= units);
    } else {
        lemma_greedy_texts(e.vocab, units, 0);
        crate::roundtrip::lemma_joined_all(units);
        assert(units.skip(0) =~= units);
        if cuts(piece_texts(ps), k) {
            lemma_greedy_cuts(e.vocab, units, 0, k);
        }
    }
}

/// What stands behind a boundary inside a run is cut as it is on its own.
proof fn lemma_run_behind(e: EncoderModel, run: Seq<MChar>, script: Script, a: int, k: int)
    requires
        0 < a < run.len(),
        forall|i: int| 0 < i < run.len() ==> !(#[trigger] run[i]).synthetic,
        cuts(e.run_units(run, script), a),
        cuts(e.run_units(run.skip(a), script), k),
    ensures
        cuts(e.run_units(run, script), a + k),
{
    let tail = run.skip(a);
    lemma_run_units_text(e, tail, script);
    lemma_cuts_nonneg(e.run_units(tail, script), k);
    assert(!tail[0].synthetic);
    if script == Script::DEV {
        if run[0].synthetic {
            let t = marked_text(run.skip(1));
            assert(e.run_units(run, script).drop_first() =~= e.dfa.units(t));
            assert(t.skip(a - 1) =~= marked_text(tail));
            lemma_units_behind(e.dfa, t, a - 1, k);
        } else {
            assert(marked_text(run).skip(a) =~= marked_text(tail));
            lemma_units_behind(e.dfa, marked_text(run), a, k);
        }
    } else {
        lemma_cuts_singles(marked_text(run), a + k);
    }
}

/// Behind the first characters of a run its length is what is left of it.
proof fn lemma_more_behind(m: Seq<MChar>, script: Script, a: int)
    requires
        0 <= a <= more_len(m, script),
    ensures
        more_len(m.skip(a), script) == more_len(m, script) - a,
    decreases a,
{
    if a == 0 {
        assert(m.skip(0) =~= m);
    } else {
        lemma_more_len(m, script);
        lemma_more_behind(m.skip(1), script, a - 1);
        assert(m.skip(1).skip(a - 1) =~= m.skip(a));
    }
}

/// What stands behind a boundary between the units of a text is cut as it is on its
/// own.
proof fn lemma_text_behind(e: EncoderModel, m: Seq<MChar>, a: int, k: int)
    requires
        0 <= a <= m.len(),
        cuts(e.text_units(m), a),
        cuts(e.text_units(m.skip(a)), k),
    ensures
        cuts(e.text_units(m), a + k),
    decreases m.len(),
{
    if a == 0 {
        assert(m.skip(0) =~= m);
    } else {
        let script = class_of(m[0]);
        lemma_more_len(m.skip(1), script);
        let end = run_len(m) as int;
        let run = m.take(end);
        let rest = m.skip(end);
        let units = e.run_units(run, script);
        lemma_run_units_text(e, run, script);
        lemma_cuts_concat(units, e.text_units(rest), a);
        lemma_cuts_concat(units, e.text_units(rest), a + k);
        if a >= end {
            if cuts(units, a) {
                lemma_cuts_nonneg(units, a);
            }
            assert(rest.skip(a - end) =~= m.skip(a));
            lemma_text_behind(e, rest, a - end, k);
        } else {
            if cuts(e.text_units(rest), a - end) {
                lemma_cuts_nonneg(e.text_units(rest), a - end);
            }
            let t = m.skip(a);
            assert forall|i: int| 0 < i < run.len() implies !(#[trigger] run[i]).synthetic
                && class_of(run[i]) == script by {
                assert(run[i] == m.skip(1)[i - 1]);
            }
            assert(t[0] == run[a]);
            lemma_more_behind(m.skip(1), script, a);
            assert(m.skip(1).skip(a) =~= t.skip(1));
            assert(run_len(t) == end - a);
            assert(t.take(end - a) =~= run.skip(a));
            assert(t.skip(end - a) =~= rest);
            lemma_run_units_text(e, run.skip(a), script);
            lemma_cuts_concat(e.run_units(run.skip(a), script), e.text_units(rest), k);
            if cuts(e.run_units(run.skip(a), script), k) {
                lemma_run_behind(e, run, script, a, k);
            }
        }
    }
}

/// The marker that a text begins with is a unit of its own.
proof fn lemma_marker_cut(e: EncoderModel, m: Seq<MChar>)
    requires
        m.len() > 0,
        m[0].synthetic,
    ensures
        cuts(e.text_units(m), 1),
{
    let script = class_of(m[0]);
    lemma_more_len(m.skip(1), script);
    let run = m.take(run_len(m) as int);
    let units = e.run_units(run, script);
    assert(units[0].len() == 1);
    assert(cuts(units.drop_first(), 0));
    lemma_cuts_concat(units, e.text_units(m.skip(run_len(m) as int)), 1);
}

proof fn lemma_texts_concat(p: Seq<Piece>, q: Seq<Piece>)
    ensures
        piece_texts(p + q) == piece_texts(p) + piece_texts(q),
        piece_texts(p + q).flatten() == piece_texts(p).flatten() + piece_texts(q).flatten(),
{
    assert(piece_texts(p + q) =~= piece_texts(p) + piece_texts(q));
    vstd::seq_lib::lemma_flatten_concat(piece_texts(p), piece_texts(q));
}

/// The pieces of a text, put together, are the marked text: nothing is lost, nothing
/// stands twice.
pub proof fn law_pieces_cover_the_text(e: EncoderModel, m: Seq<MChar>)
    ensures
        piece_texts(e.pieces(m)).flatten() == marked_text(m),
    decreases m.len(),
{
    if m.len() == 0 {
        assert(marked_text(m) =~= Seq::<char>::empty());
        assert(piece_texts(e.pieces(m)) =~= Seq::<Seq<char>>::empty());
    } else {
        let len = e.seed_at(m);
        lemma_seed_at(e, m);
        lemma_more_len(m.skip(1), class_of(m[0]));
        if len > 0 {
            let end = marker_len(m) + len;
            let ps = e.seed_pieces(m, len);
            law_pieces_cover_the_text(e, m.skip(end));
            lemma_texts_concat(ps, e.pieces(m.skip(end)));
            reveal_with_fuel(Seq::<Seq<char>>::flatten, 3);
            assert(piece_texts(ps).flatten() =~= marked_text(m.take(end)));
            assert(marked_text(m) =~= marked_text(m.take(end)) + marked_text(m.skip(end)));
        } else {
            let end = run_len(m) as int;
            let ps = e.run_pieces(m.take(end), class_of(m[0]));
            law_pieces_cover_the_text(e, m.skip(end));
            lemma_run_pieces(e, m.take(end), class_of(m[0]), 0);
            lemma_texts_concat(ps, e.pieces(m.skip(end)));
            assert(marked_text(m) =~= marked_text(m.take(end)) + marked_text(m.skip(end)));
        }
    }
}

/// Tokens begin and end only where units do: the only boundaries inside a unit are
/// those between the bytes of a unit that is spelled in bytes.
pub proof fn law_pieces_end_where_units_end(e: EncoderModel, m: Seq<MChar>, k: int)
    requires
        cuts(piece_texts(e.pieces(m)), k),
    ensures
        cuts(e.text_units(m), k),
    decreases m.len(),
{
    if k != 0 && m.len() > 0 {
        lemma_seed_at(e, m);
        lemma_more_len(m.skip(1), class_of(m[0]));
        let len = e.seed_at(m);
        if len > 0 {
            let end = marker_len(m) + len;
            let ps = e.seed_pieces(m, len);
            let rest = e.pieces(m.skip(end));
            let ts = piece_texts(ps);
            lemma_texts_concat(ps, rest);
            lemma_cuts_concat(ts, piece_texts(rest), k);
            reveal_with_fuel(Seq::<Seq<char>>::flatten, 3);
            reveal_with_fuel(cuts, 3);
            assert(ts.last().len() == len);
            assert(ts.flatten().len() == end);
            if cuts(piece_texts(rest), k - end) {
                law_pieces_end_where_units_end(e, m.skip(end), k - end);
                lemma_text_behind(e, m, end, k - end);
            } else if m[0].synthetic {
                assert(ts[0].len() == 1);
                assert(k == 1 || k == end);
                lemma_marker_cut(e, m);
            } else {
                assert(k == end);
            }
        } else {
            let end = run_len(m) as int;
            let run = m.take(end);
            let script = class_of(m[0]);
            let ps = e.run_pieces(run, script);
            let rest = e.pieces(m.skip(end));
            lemma_texts_concat(ps, rest);
            lemma_run_pieces(e, run, script, k);
            lemma_run_units_text(e, run, script);
            lemma_cuts_concat(piece_texts(ps), piece_texts(rest), k);
            lemma_cuts_concat(e.run_units(run, script), e.text_units(m.skip(end)), k);
            if cuts(piece_texts(rest), k - marked_text(run).len()) {
                law_pieces_end_where_units_end(e, m.skip(end), k - marked_text(run).len());
            }
        }
    }
}

/// What is synthetic is a marker.
spec fn markers_only(m: Seq<MChar>) -> bool {
    forall|i: int| 0 <= i < m.len() && (#[trigger] m[i]).synthetic ==> is_marker(m[i].ch)
}

/// Characters that belong to one akshara are Devanagari, and stand in the text.
proof fn lemma_joined_class(m: Seq<MChar>, k: int)
    requires
        markers_only(m),
        joined(marked_text(m), k),
    ensures
        !m[k].synthetic,
        class_of(m[k]) == Script::DEV,
        !m[k - 1].synthetic,
        class_of(m[k - 1]) == Script::DEV,
{
    let t = marked_text(m);
    assert(t[k] == m[k].ch);
    assert(t[k - 1] == m[k - 1].ch);
    if k >= 2 {
        assert(t[k - 2] == m[k - 2].ch);
    }
}

/// In a suffix of the text, the characters that belong together still do.
proof fn lemma_joined_skip(m: Seq<MChar>, k: int, n: int)
    requires
        markers_only(m),
        joined(marked_text(m), k),
        0 <= n < k,
    ensures
        joined(marked_text(m.skip(n)), k - n) || (n == k - 1 && k >= 2 && class_of(m[k - 2])
            == Script::DEV && !m[k - 2].synthetic && class_of(m[k - 1]) == Script::DEV
            && !m[k - 1].synthetic),
{
    let t = marked_text(m);
    let u = marked_text(m.skip(n));
    lemma_joined_class(m, k);
    assert(t[k] == u[k - n]);
    assert(t[k - 1] == u[k - n - 1]);
    if k >= 2 {
        assert(t[k - 2] == m[k - 2].ch);
        if k - n >= 2 {
            assert(t[k - 2] == u[k - n - 2]);
        }
    }
}

/// The units of a text never part what belongs to one akshara.
proof fn lemma_text_units_whole(e: EncoderModel, m: Seq<MChar>, k: int)
    requires
        e.dfa == default_dfa(),
        markers_only(m),
        cuts(e.text_units(m), k),
    ensures
        !joined(marked_text(m), k),
    decreases m.len(),
{
    if m.len() > 0 && joined(marked_text(m), k) {
        let script = class_of(m[0]);
        lemma_more_len(m.skip(1), script);
        let end = run_len(m) as int;
        let run = m.take(end);
        let rest = m.skip(end);
        let units = e.run_units(run, script);
        lemma_run_units_text(e, run, script);
        lemma_cuts_concat(units, e.text_units(rest), k);
        lemma_joined_class(m, k);
        assert forall|i: int| 0 < i < end implies !(#[trigger] m[i]).synthetic && class_of(m[i])
            == script by {
            assert(m[i] == m.skip(1)[i - 1]);
        }
        if end < m.len() {
            assert(m[end] == m.skip(1)[end - 1]);
        }
        assert(k != end);
        assert(markers_only(rest)) by {
            assert forall|i: int| 0 <= i < rest.len() && (#[trigger] rest[i]).synthetic implies is_marker(
                rest[i].ch,
            ) by {
                assert(m[i + end].synthetic);
            }
        }
        if k > end {
            lemma_joined_skip(m, k, end);
            if cuts(units, k) {
                lemma_cuts_nonneg(units, k);
            }
            lemma_text_units_whole(e, rest, k - end);
        } else {
            if cuts(e.text_units(rest), k - end) {
                lemma_cuts_nonneg(e.text_units(rest), k - end);
            }
            assert(cuts(units, k));
            assert(script == Script::DEV);
            let n = if m[0].synthetic {
                1int
            } else {
                0int
            };
            let tail = run.skip(n);
            let t = marked_text(tail);
            if n == 1 {
                assert(units.drop_first() =~= e.dfa.units(t));
                assert(units[0].len() == 1);
                assert(cuts(e.dfa.units(t), k - 1));
                assert(k > 1);
                lemma_joined_skip(m, k, 1);
            } else {
                assert(tail =~= run);
                lemma_joined_skip(m, k, 0);
            }
            law_default_units_whole(t, k - n);
            let u = marked_text(m.skip(n));
            assert forall|i: int| 0 <= i < t.len() implies #[trigger] t[i] == u[i] by {}
            assert(joined(u, k - n));
            assert(k - n < t.len());
            assert(joined(t, k - n));
        }
    }
}

/// The greedy pieces of units: each has the token of its text, or is one unit spelled in
/// bytes.
proof fn lemma_greedy_kinds(v: VocabModel, units: Seq<Seq<char>>, i: int, k: int)
    requires
        0 <= i <= units.len(),
        0 <= k < greedy_pieces(v, units, i).len(),
    ensures
        ({
            let p = greedy_pieces(v, units, i)[k];
            ||| v.lookup(p.text) is Some && p.ids == seq![v.lookup(p.text)->0]
            ||| units.contains(p.text) && p == spelled_piece(v, p.text)
        }),
    decreases units.len() - i,
{
    lemma_first_piece(v, units, i);
    if k > 0 {
        lemma_greedy_kinds(v, units, longest_end(v, units, i), k - 1);
    } else {
        assert(units.contains(units[i]));
    }
}

/// Each piece of a run is one token of its own text, or one unit that is spelled in
/// bytes as a whole; a non-joiner without a token is dropped.
pub proof fn law_pieces_are_tokens_or_spelled_units(
    e: EncoderModel,
    run: Seq<MChar>,
    script: Script,
    k: int,
)
    requires
        0 <= k < e.run_pieces(run, script).len(),
    ensures
        ({
            let p = e.run_pieces(run, script)[k];
            ||| e.vocab.lookup(p.text) is Some && p.ids == seq![e.vocab.lookup(p.text)->0]
            ||| e.run_units(run, script).contains(p.text) && p == spelled_piece(e.vocab, p.text)
            ||| script == Script::FMT && p.ids.len() == 0
        }),
{
    let units = e.run_units(run, script);
    if script == Script::MAL {
        assert(units[k] =~= seq![run[k].ch]);
        assert(units.contains(units[k]));
    } else if script != Script::FMT {
        lemma_greedy_kinds(e.vocab, units, 0, k);
    }
}

/// Matching is greedy: the first piece is as long as any stretch of units from the same
/// place that has a token.
pub proof fn law_longest_stretch_is_taken(v: VocabModel, units: Seq<Seq<char>>, i: int, j: int)
    requires
        0 <= i < j <= units.len(),
        v.lookup(joined_units(units, i, j)) is Some,
    ensures
        greedy_pieces(v, units, i).len() > 0,
        joined_units(units, i, j).is_prefix_of(greedy_pieces(v, units, i)[0].text),
        v.lookup(greedy_pieces(v, units, i)[0].text) is Some,
{
    let end = longest_end(v, units, i);
    lemma_first_piece(v, units, i);
    lemma_longest_match(v, units, i, units.len() as int);
    lemma_joined_split(units, i, j, end);
}

/// Units that all have tokens are never spelled in bytes: every piece is the one token
/// of its text.
pub proof fn law_known_units_are_not_spelled(
    v: VocabModel,
    units: Seq<Seq<char>>,
    i: int,
    k: int,
)
    requires
        0 <= i <= units.len(),
        forall|j: int| i <= j < units.len() ==> v.lookup(#[trigger] units[j]) is Some,
        0 <= k < greedy_pieces(v, units, i).len(),
    ensures
        v.lookup(greedy_pieces(v, units, i)[k].text) is Some,
        greedy_pieces(v, units, i)[k].ids == seq![v.lookup(
            greedy_pieces(v, units, i)[k].text,
        )->0],
    decreases units.len() - i,
{
    lemma_first_piece(v, units, i);
    assert(v.lookup(units[i]) is Some);
    if k > 0 {
        law_known_units_are_not_spelled(v, units, longest_end(v, units, i), k - 1);
    }
}

/// With the Devanagari automaton, no token begins or ends inside an akshara: no sign is
/// parted from its consonant, and no conjunct is broken.
pub proof fn law_no_token_splits_an_akshara(e: EncoderModel, s: Seq<char>, k: int)
    requires
        e.dfa == default_dfa(),
        cuts(piece_texts(e.pieces(marked(s))), k),
    ensures
        !joined(marked_text(marked(s)), k),
{
    let m = marked(s);
    law_pieces_end_where_units_end(e, m, k);
    assert(markers_only(m));
    lemma_text_units_whole(e, m, k);
}

} // verus!
