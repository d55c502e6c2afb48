//! How a text is cut into tokens, and how tokens are put together again.

use crate::akshara::{cuts, law_units_partition, DfaModel};
use crate::external::replaced_utf8;
use crate::script::{byte_char, classify_char, is_marker, marker_of, Script, DANDA, DEV_MARKER};
use crate::vocab::{TokenModel, VocabModel};
use vstd::prelude::*;
use vstd::utf8::{decode_utf8, encode_utf8, valid_utf8};

verus! {

/// A character of a marked text. A synthetic character is a marker that marking put
/// there.
#[derive(Debug, Clone, Copy)]
pub struct MChar {
    pub ch: char,
    pub synthetic: bool,
}

/// A character that stands in the text itself.
pub open spec fn plain_char(c: char) -> MChar {
    MChar { ch: c, synthetic: false }
}

/// The marker before the place `i` of a text.
pub open spec fn marker_before(s: Seq<char>, i: int) -> MChar {
    MChar {
        ch: marker_of(
            if i < s.len() {
                Some(s[i])
            } else {
                None
            },
        ),
        synthetic: true,
    }
}

/// A marked text: every space, and one more in front of the text, is a marker that
/// tells the script of the word behind it.
pub open spec fn marked(s: Seq<char>) -> Seq<MChar> {
    seq![marker_before(s, 0)] + Seq::new(
        s.len(),
        |i: int|
            if s[i] == ' ' {
                marker_before(s, i + 1)
            } else {
                plain_char(s[i])
            },
    )
}

/// A marked text with its markers turned back into spaces.
pub open spec fn unmarked(m: Seq<MChar>) -> Seq<char> {
    m.map_values(
        |x: MChar|
            if x.synthetic {
                ' '
            } else {
                x.ch
            },
    )
}

/// The characters of a marked text.
pub open spec fn marked_text(m: Seq<MChar>) -> Seq<char> {
    m.map_values(|x: MChar| x.ch)
}

/// A text without one space at its front.
pub open spec fn without_first_space(s: Seq<char>) -> Seq<char> {
    if s.len() > 0 && s[0] == ' ' {
        s.skip(1)
    } else {
        s
    }
}

/// Marking can be undone, for every text.
pub proof fn law_unmark_undoes_mark(s: Seq<char>)
    ensures
        without_first_space(unmarked(marked(s))) == s,
{
    assert(unmarked(marked(s)).skip(1) =~= s);
}

/// The class of a character of a marked text. A marker that the text itself holds is
/// malformed, so that it is spelled in bytes and never taken for a space.
pub open spec fn class_of(x: MChar) -> Script {
    if x.synthetic {
        if x.ch == DEV_MARKER {
            Script::DEV
        } else {
            Script::LAT
        }
    } else if is_marker(x.ch) {
        Script::MAL
    } else {
        classify_char(x.ch)
    }
}

/// A stretch of a marked text and the tokens that stand for it.
#[verifier::ext_equal]
pub struct Piece {
    pub text: Seq<char>,
    pub ids: Seq<usize>,
}

pub open spec fn piece_ids(ps: Seq<Piece>) -> Seq<usize>
    decreases ps.len(),
{
    if ps.len() == 0 {
        Seq::empty()
    } else {
        ps[0].ids + piece_ids(ps.skip(1))
    }
}

pub open spec fn piece_texts(ps: Seq<Piece>) -> Seq<Seq<char>> {
    ps.map_values(|p: Piece| p.text)
}

pub open spec fn optional_id(id: Option<usize>) -> Seq<usize> {
    match id {
        Some(id) => seq![id],
        None => Seq::empty(),
    }
}

/// The tokens that spell bytes. A byte without a token is left out.
pub open spec fn byte_ids(v: VocabModel, bytes: Seq<u8>) -> Seq<usize>
    decreases bytes.len(),
{
    if bytes.len() == 0 {
        Seq::empty()
    } else {
        optional_id(v.lookup(seq![byte_char(bytes[0])])) + byte_ids(v, bytes.skip(1))
    }
}

/// A text spelled in bytes.
pub open spec fn spelled_piece(v: VocabModel, text: Seq<char>) -> Piece {
    Piece { text, ids: byte_ids(v, encode_utf8(text)) }
}

/// A text that has a token, or is spelled in bytes.
pub open spec fn known_or_spelled(v: VocabModel, text: Seq<char>) -> Piece {
    match v.lookup(text) {
        Some(id) => Piece { text, ids: seq![id] },
        None => spelled_piece(v, text),
    }
}

/// A text that has a token, or is left out.
pub open spec fn known_or_dropped(v: VocabModel, text: Seq<char>) -> Piece {
    Piece { text, ids: optional_id(v.lookup(text)) }
}

/// The units from `i` up to `j`, put together.
pub open spec fn joined_units(units: Seq<Seq<char>>, i: int, j: int) -> Seq<char>
    decreases j - i,
{
    if i >= j {
        Seq::empty()
    } else {
        joined_units(units, i, j - 1) + units[j - 1]
    }
}

/// The furthest place, not beyond `j`, up to which the units from `i` on have a
/// token; `i` itself where there is none.
pub open spec fn longest_match(v: VocabModel, units: Seq<Seq<char>>, i: int, j: int) -> int
    decreases j - i,
{
    if i >= j {
        i
    } else if v.lookup(joined_units(units, i, j)) is Some {
        j
    } else {
        longest_match(v, units, i, j - 1)
    }
}

pub proof fn lemma_longest_match(v: VocabModel, units: Seq<Seq<char>>, i: int, j: int)
    requires
        i <= j,
    ensures
        i <= longest_match(v, units, i, j) <= j,
        longest_match(v, units, i, j) > i ==> v.lookup(
            joined_units(units, i, longest_match(v, units, i, j)),
        ) is Some,
        forall|k: int|
            longest_match(v, units, i, j) < k <= j ==> v.lookup(
                #[trigger] joined_units(units, i, k),
            ) is None,
    decreases j - i,
{
    if i < j && v.lookup(joined_units(units, i, j)) is None {
        lemma_longest_match(v, units, i, j - 1);
    }
}

/// The units from `i` on as pieces: again and again the longest stretch of whole units
/// that has a token, or one unit spelled in bytes.
pub open spec fn greedy_pieces(v: VocabModel, units: Seq<Seq<char>>, i: int) -> Seq<Piece>
    decreases units.len() - i,
{
    if i >= units.len() {
        Seq::empty()
    } else {
        let j = longest_match(v, units, i, units.len() as int);
        proof {
            lemma_longest_match(v, units, i, units.len() as int);
        }
        if j > i {
            seq![known_or_spelled(v, joined_units(units, i, j))] + greedy_pieces(v, units, j)
        } else {
            seq![spelled_piece(v, units[i])] + greedy_pieces(v, units, i + 1)
        }
    }
}

/// The number of characters at the front that neither are nor look like markers.
pub open spec fn plain_len(m: Seq<MChar>) -> nat
    decreases m.len(),
{
    if m.len() == 0 || m[0].synthetic || is_marker(m[0].ch) {
        0
    } else {
        1 + plain_len(m.skip(1))
    }
}

pub open spec fn min_nat(a: nat, b: nat) -> nat {
    if a < b {
        a
    } else {
        b
    }
}

/// A full stop or a danda, which abbreviations hold.
#[verifier::allow_in_spec]
pub fn is_stop(c: char) -> bool
    returns
        c == '.' || c == DANDA,
{
    c == '.' || c == DANDA
}

/// Whether a text holds a full stop or a danda.
pub open spec fn has_stop(s: Seq<char>) -> bool {
    exists|k: int| 0 <= k < s.len() && is_stop(#[trigger] s[k])
}

/// The length of the marker that a text may begin with.
pub open spec fn marker_len(m: Seq<MChar>) -> int {
    if m.len() > 0 && m[0].synthetic {
        1
    } else {
        0
    }
}

/// The number of characters at the front that are of the class and in the same word.
pub open spec fn more_len(m: Seq<MChar>, script: Script) -> nat
    decreases m.len(),
{
    if m.len() == 0 || m[0].synthetic || class_of(m[0]) != script {
        0
    } else {
        1 + more_len(m.skip(1), script)
    }
}

/// The length of the run at the front of a text that is not empty.
pub open spec fn run_len(m: Seq<MChar>) -> nat {
    1 + more_len(m.skip(1), class_of(m[0]))
}

/// What encoding goes by.
#[verifier::ext_equal]
pub struct EncoderModel {
    pub vocab: VocabModel,
    pub dfa: DfaModel,
    pub seed_max_len: nat,
}

impl EncoderModel {
    /// The units of a marked text, run by run.
    pub open spec fn text_units(self, m: Seq<MChar>) -> Seq<Seq<char>>
        decreases m.len(),
    {
        if m.len() == 0 {
            Seq::empty()
        } else {
            let end = run_len(m) as int;
            proof {
                lemma_more_len(m.skip(1), class_of(m[0]));
            }
            self.run_units(m.take(end), class_of(m[0])) + self.text_units(m.skip(end))
        }
    }

    /// Whether the first `len` characters behind the marker that the text may begin
    /// with are an abbreviation: they hold a stop, have a token, and end where a unit
    /// ends. A single character is none.
    pub open spec fn is_abbreviation(self, m: Seq<MChar>, len: nat) -> bool {
        let text = marked_text(m.skip(marker_len(m)).take(len as int));
        &&& len >= 2
        &&& has_stop(text)
        &&& self.vocab.lookup(text) is Some
        &&& cuts(self.text_units(m), marker_len(m) + len)
    }

    /// The length of the longest abbreviation that is not longer than `len`; zero where
    /// there is none.
    pub open spec fn seed_len(self, m: Seq<MChar>, len: nat) -> nat
        decreases len,
    {
        if len == 0 {
            0
        } else if self.is_abbreviation(m, len) {
            len
        } else {
            self.seed_len(m, (len - 1) as nat)
        }
    }

    /// The length of the abbreviation behind the marker that the text may begin with;
    /// zero where there is none. It holds no marker and is not longer than the longest
    /// that is looked for.
    #[verifier::opaque]
    pub open spec fn seed_at(self, m: Seq<MChar>) -> nat {
        self.seed_len(m, min_nat(self.seed_max_len, plain_len(m.skip(marker_len(m)))))
    }

    /// The pieces of an abbreviation of the given length and of the marker before it.
    pub open spec fn seed_pieces(self, m: Seq<MChar>, len: nat) -> Seq<Piece> {
        let text = marked_text(m.skip(marker_len(m)).take(len as int));
        let seed = known_or_dropped(self.vocab, text);
        if marker_len(m) > 0 {
            seq![known_or_dropped(self.vocab, seq![m[0].ch]), seed]
        } else {
            seq![seed]
        }
    }

    /// The units of a run: the marker and the aksharas in a Devanagari run, and else the
    /// single characters.
    pub open spec fn run_units(self, run: Seq<MChar>, script: Script) -> Seq<Seq<char>> {
        if script == Script::DEV {
            if run.len() > 0 && run[0].synthetic {
                seq![seq![run[0].ch]] + self.dfa.units(marked_text(run.skip(1)))
            } else {
                self.dfa.units(marked_text(run))
            }
        } else {
            marked_text(run).map_values(|c: char| seq![c])
        }
    }

    /// The pieces of a run of one class.
    pub open spec fn run_pieces(self, run: Seq<MChar>, script: Script) -> Seq<Piece> {
        let v = self.vocab;
        match script {
            Script::DEV => greedy_pieces(v, self.run_units(run, script), 0),
            Script::LAT => greedy_pieces(v, self.run_units(run, script), 0),
            Script::PUN => greedy_pieces(v, self.run_units(run, script), 0),
            Script::FMT => run.map_values(|x: MChar| known_or_dropped(v, seq![x.ch])),
            Script::MAL => run.map_values(|x: MChar| spelled_piece(v, seq![x.ch])),
        }
    }

    /// The pieces of a marked text: abbreviations where there are any, and else runs.
    pub open spec fn pieces(self, m: Seq<MChar>) -> Seq<Piece>
        decreases m.len(),
    {
        if m.len() == 0 {
            Seq::empty()
        } else {
            let len = self.seed_at(m);
            if len > 0 {
                let end = marker_len(m) + len;
                proof {
                    lemma_seed_at(self, m);
                }
                self.seed_pieces(m, len) + self.pieces(m.skip(end))
            } else {
                let end = run_len(m) as int;
                proof {
                    lemma_more_len(m.skip(1), class_of(m[0]));
                }
                self.run_pieces(m.take(end), class_of(m[0])) + self.pieces(m.skip(end))
            }
        }
    }

    /// The tokens of a normalized text.
    pub open spec fn encoded(self, s: Seq<char>) -> Seq<usize> {
        piece_ids(self.pieces(marked(s)))
    }
}

pub proof fn lemma_plain_len(m: Seq<MChar>)
    ensures
        plain_len(m) <= m.len(),
        forall|i: int| 0 <= i < plain_len(m) ==> !(#[trigger] m[i]).synthetic && !is_marker(m[i].ch),
        plain_len(m) < m.len() ==> m[plain_len(m) as int].synthetic || is_marker(
            m[plain_len(m) as int].ch,
        ),
    decreases m.len(),
{
    if m.len() > 0 && !m[0].synthetic && !is_marker(m[0].ch) {
        let t = m.skip(1);
        lemma_plain_len(t);
        assert forall|i: int| 0 <= i < plain_len(m) implies !(#[trigger] m[i]).synthetic
            && !is_marker(m[i].ch) by {
            if i > 0 {
                assert(m[i] == t[i - 1]);
            }
        }
    }
}

pub proof fn lemma_seed_len(e: EncoderModel, m: Seq<MChar>, len: nat)
    ensures
        e.seed_len(m, len) <= len,
        e.seed_len(m, len) > 0 ==> e.is_abbreviation(m, e.seed_len(m, len)),
        forall|k: nat| e.seed_len(m, len) < k <= len ==> !#[trigger] e.is_abbreviation(m, k),
    decreases len,
{
    if len > 0 {
        lemma_seed_len(e, m, (len - 1) as nat);
    }
}

/// An abbreviation lies within the text, in one word, and holds no marker.
pub proof fn lemma_seed_at(e: EncoderModel, m: Seq<MChar>)
    requires
        m.len() > 0,
    ensures
        ({
            let rest = m.skip(marker_len(m));
            let len = e.seed_at(m);
            &&& len <= plain_len(rest) <= rest.len()
            &&& len > 0 ==> e.is_abbreviation(m, len)
        }),
{
    reveal(EncoderModel::seed_at);
    let rest = m.skip(marker_len(m));
    lemma_plain_len(rest);
    lemma_seed_len(e, m, min_nat(e.seed_max_len, plain_len(rest)));
}

/// Without a stop there is no abbreviation.
pub proof fn lemma_no_stop(e: EncoderModel, m: Seq<MChar>, len: nat)
    requires
        len <= m.skip(marker_len(m)).len(),
        forall|k: int| 0 <= k < len ==> !is_stop((#[trigger] m.skip(marker_len(m))[k]).ch),
    ensures
        e.seed_len(m, len) == 0,
    decreases len,
{
    if len > 0 {
        let rest = m.skip(marker_len(m));
        let text = marked_text(rest.take(len as int));
        if has_stop(text) {
            let k = choose|k: int| 0 <= k < text.len() && is_stop(#[trigger] text[k]);
            assert(text[k] == rest[k].ch);
        }
        lemma_no_stop(e, m, (len - 1) as nat);
    }
}

/// The longest abbreviation is taken whole, with the marker before it.
pub proof fn law_longest_abbreviation_is_taken(e: EncoderModel, m: Seq<MChar>, len: nat)
    requires
        m.len() > 0,
        e.is_abbreviation(m, len),
        len <= e.seed_max_len,
        len <= plain_len(m.skip(marker_len(m))),
    ensures
        e.seed_at(m) >= len,
        e.is_abbreviation(m, e.seed_at(m)),
        e.pieces(m) == e.seed_pieces(m, e.seed_at(m)) + e.pieces(
            m.skip(marker_len(m) + e.seed_at(m)),
        ),
{
    reveal(EncoderModel::seed_at);
    lemma_seed_len(e, m, min_nat(e.seed_max_len, plain_len(m.skip(marker_len(m)))));
    lemma_seed_at(e, m);
}

pub proof fn lemma_singles(t: Seq<char>)
    ensures
        t.map_values(|c: char| seq![c]).flatten() == t,
    decreases t.len(),
{
    let parts = t.map_values(|c: char| seq![c]);
    if t.len() > 0 {
        lemma_singles(t.drop_first());
        assert(parts.drop_first() =~= t.drop_first().map_values(|c: char| seq![c]));
        assert(parts.first() =~= seq![t[0]]);
        assert(seq![t[0]] + t.drop_first() =~= t);
    } else {
        assert(t =~= Seq::<char>::empty());
    }
}

/// The units of a run, put together, are the run.
pub proof fn lemma_run_units_text(e: EncoderModel, run: Seq<MChar>, script: Script)
    ensures
        e.run_units(run, script).flatten() == marked_text(run),
{
    if script == Script::DEV {
        if run.len() > 0 && run[0].synthetic {
            let t = marked_text(run.skip(1));
            let units = e.run_units(run, script);
            law_units_partition(e.dfa, t);
            assert(units.drop_first() =~= e.dfa.units(t));
            assert(units.first() == seq![run[0].ch]);
            assert(seq![run[0].ch] + t =~= marked_text(run));
        } else {
            law_units_partition(e.dfa, marked_text(run));
        }
    } else {
        lemma_singles(marked_text(run));
    }
}

pub proof fn lemma_more_len(m: Seq<MChar>, script: Script)
    ensures
        more_len(m, script) <= m.len(),
        forall|i: int|
            0 <= i < more_len(m, script) ==> !(#[trigger] m[i]).synthetic && class_of(m[i])
                == script,
        more_len(m, script) < m.len() ==> m[more_len(m, script) as int].synthetic || class_of(
            m[more_len(m, script) as int],
        ) != script,
    decreases m.len(),
{
    if m.len() > 0 && !m[0].synthetic && class_of(m[0]) == script {
        let t = m.skip(1);
        lemma_more_len(t, script);
        assert forall|i: int| 0 <= i < more_len(m, script) implies !(#[trigger] m[i]).synthetic
            && class_of(m[i]) == script by {
            if i > 0 {
                assert(m[i] == t[i - 1]);
            }
        }
    }
}

pub proof fn lemma_piece_ids_concat(p: Seq<Piece>, q: Seq<Piece>)
    ensures
        piece_ids(p + q) == piece_ids(p) + piece_ids(q),
    decreases p.len(),
{
    if p.len() == 0 {
        assert(p + q =~= q);
        assert(piece_ids(p) + piece_ids(q) =~= piece_ids(q));
    } else {
        lemma_piece_ids_concat(p.skip(1), q);
        assert((p + q).skip(1) =~= p.skip(1) + q);
        assert(p[0].ids + (piece_ids(p.skip(1)) + piece_ids(q)) =~= p[0].ids + piece_ids(p.skip(1))
            + piece_ids(q));
    }
}

proof fn lemma_same_byte_ids(v: VocabModel, w: VocabModel, bytes: Seq<u8>)
    requires
        v.index == w.index,
    ensures
        byte_ids(v, bytes) == byte_ids(w, bytes),
    decreases bytes.len(),
{
    if bytes.len() > 0 {
        lemma_same_byte_ids(v, w, bytes.skip(1));
    }
}

proof fn lemma_same_longest(v: VocabModel, w: VocabModel, units: Seq<Seq<char>>, i: int, j: int)
    requires
        v.index == w.index,
    ensures
        longest_match(v, units, i, j) == longest_match(w, units, i, j),
    decreases j - i,
{
    if i < j {
        lemma_same_longest(v, w, units, i, j - 1);
    }
}

proof fn lemma_same_greedy(v: VocabModel, w: VocabModel, units: Seq<Seq<char>>, i: int)
    requires
        v.index == w.index,
        0 <= i <= units.len(),
    ensures
        greedy_pieces(v, units, i) == greedy_pieces(w, units, i),
    decreases units.len() - i,
{
    if i < units.len() {
        let n = units.len() as int;
        lemma_longest_match(v, units, i, n);
        lemma_same_longest(v, w, units, i, n);
        let j = longest_match(v, units, i, n);
        if j > i {
            lemma_same_byte_ids(v, w, encode_utf8(joined_units(units, i, j)));
            lemma_same_greedy(v, w, units, j);
        } else {
            lemma_same_byte_ids(v, w, encode_utf8(units[i]));
            lemma_same_greedy(v, w, units, i + 1);
        }
    }
}

proof fn lemma_same_units(e: EncoderModel, f: EncoderModel, m: Seq<MChar>)
    requires
        e.dfa == f.dfa,
    ensures
        e.text_units(m) == f.text_units(m),
    decreases m.len(),
{
    if m.len() > 0 {
        lemma_more_len(m.skip(1), class_of(m[0]));
        lemma_same_units(e, f, m.skip(run_len(m) as int));
    }
}

proof fn lemma_same_seed_len(e: EncoderModel, f: EncoderModel, m: Seq<MChar>, len: nat)
    requires
        e.vocab.index == f.vocab.index,
        e.dfa == f.dfa,
    ensures
        e.seed_len(m, len) == f.seed_len(m, len),
    decreases len,
{
    if len > 0 {
        lemma_same_units(e, f, m);
        lemma_same_seed_len(e, f, m, (len - 1) as nat);
    }
}

proof fn lemma_same_run(e: EncoderModel, f: EncoderModel, run: Seq<MChar>, script: Script)
    requires
        e.vocab.index == f.vocab.index,
        e.dfa == f.dfa,
    ensures
        e.run_pieces(run, script) == f.run_pieces(run, script),
{
    if script == Script::DEV || script == Script::LAT || script == Script::PUN {
        lemma_same_greedy(e.vocab, f.vocab, e.run_units(run, script), 0);
    } else {
        assert forall|i: int| 0 <= i < run.len() implies #[trigger] e.run_pieces(run, script)[i]
            == f.run_pieces(run, script)[i] by {
            lemma_same_byte_ids(e.vocab, f.vocab, encode_utf8(seq![run[i].ch]));
        }
        assert(e.run_pieces(run, script) =~= f.run_pieces(run, script));
    }
}

proof fn lemma_same_pieces(e: EncoderModel, f: EncoderModel, m: Seq<MChar>)
    requires
        e.vocab.index == f.vocab.index,
        e.dfa == f.dfa,
        e.seed_max_len == f.seed_max_len,
    ensures
        e.pieces(m) == f.pieces(m),
    decreases m.len(),
{
    if m.len() > 0 {
        lemma_seed_at(e, m);
        lemma_more_len(m.skip(1), class_of(m[0]));
        lemma_same_seed_len(
            e,
            f,
            m,
            min_nat(e.seed_max_len, plain_len(m.skip(marker_len(m)))),
        );
        let len = e.seed_at(m);
        assert(f.seed_at(m) == len) by {
            reveal(EncoderModel::seed_at);
        }
        if len > 0 {
            let end = marker_len(m) + len;
            assert(e.seed_pieces(m, len) =~= f.seed_pieces(m, len));
            lemma_same_pieces(e, f, m.skip(end));
        } else {
            let end = run_len(m) as int;
            lemma_same_run(e, f, m.take(end), class_of(m[0]));
            lemma_same_pieces(e, f, m.skip(end));
        }
    }
}

/// Encoding goes by the index alone: what else a vocabulary says of its tokens does
/// not change the tokens of any text.
pub proof fn law_encoding_goes_by_the_index(e: EncoderModel, f: EncoderModel, s: Seq<char>)
    requires
        e.vocab.index == f.vocab.index,
        e.dfa == f.dfa,
        e.seed_max_len == f.seed_max_len,
    ensures
        e.encoded(s) == f.encoded(s),
{
    lemma_same_pieces(e, f, marked(s));
}

/// Bytes as text; what is not valid UTF-8 is replaced.
pub open spec fn flushed(bytes: Seq<u8>) -> Seq<char> {
    if valid_utf8(bytes) {
        decode_utf8(bytes)
    } else {
        replaced_utf8(bytes)
    }
}

/// The surface of a token with markers as spaces.
pub open spec fn surface_text(s: Seq<char>) -> Seq<char> {
    s.map_values(
        |c: char|
            if is_marker(c) {
                ' '
            } else {
                c
            },
    )
}

/// What decoding has after some tokens: the text so far, and the bytes that wait for
/// the token behind them.
#[verifier::ext_equal]
pub struct DecoderState {
    pub text: Seq<char>,
    pub bytes: Seq<u8>,
}

impl DecoderState {
    pub open spec fn start() -> DecoderState {
        DecoderState { text: Seq::empty(), bytes: Seq::empty() }
    }

    /// After one more token. A number that is no token only ends the bytes before it.
    pub open spec fn next(self, v: VocabModel, id: usize) -> DecoderState {
        if id < v.len() {
            match v.tokens[id as int] {
                TokenModel::ByteFallback(b) => DecoderState { bytes: self.bytes.push(b), ..self },
                _ => DecoderState {
                    text: self.text + flushed(self.bytes) + surface_text(v.surfaces[id as int]),
                    bytes: Seq::empty(),
                },
            }
        } else {
            DecoderState { text: self.text + flushed(self.bytes), bytes: Seq::empty() }
        }
    }

    pub open spec fn after(self, v: VocabModel, ids: Seq<usize>) -> DecoderState
        decreases ids.len(),
    {
        if ids.len() == 0 {
            self
        } else {
            self.after(v, ids.drop_last()).next(v, ids.last())
        }
    }

    pub open spec fn finish(self) -> Seq<char> {
        self.text + flushed(self.bytes)
    }
}

/// The text that tokens stand for.
pub open spec fn decoded(v: VocabModel, ids: Seq<usize>) -> Seq<char> {
    without_first_space(DecoderState::start().after(v, ids).finish())
}

} // verus!
