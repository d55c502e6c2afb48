//! The tokenizer.

use crate::akshara::{
    cuts, default_dfa, lemma_cuts_concat, lemma_cuts_nonneg, lemma_cuts_singles, Akshara,
    AksharaDFA,
};
use crate::encoding::{
    byte_ids, class_of, decoded, flushed, greedy_pieces, has_stop, is_stop, joined_units,
    known_or_spelled, lemma_more_len, lemma_no_stop, lemma_piece_ids_concat, lemma_plain_len,
    lemma_run_units_text, lemma_seed_at, longest_match, marked, marked_text, marker_before,
    marker_len, min_nat, more_len, piece_ids, plain_char, plain_len, run_len, spelled_piece,
    surface_text, DecoderState, EncoderModel, MChar, Piece,
};
use crate::external::from_utf8_lossy;
use crate::lossless::law_base_inventory_is_lossless;
use crate::normalize::{longer_first, rule_texts, FoldMode, Normalizer};
use crate::paradigm::ParadigmRegistry;
use crate::roundtrip::{law_decode_undoes_encode, lossless};
use crate::script::{
    byte_char, byte_decoder, byte_table, bytes_to_unicode, classify_char, decoder_of, is_marker,
    marker_for, Script, DEV_MARKER, ZWNJ,
};
use crate::sorting::sorted;
use crate::text::{
    chars_of, copy_texts, push_text, push_texts, same_text, string_of, string_of_char, texts,
};
use crate::vocab::{
    akshara_texts, by_prior, initialized, loaded, pair_texts, prior_value, rootless,
    tagged_roots, Entry, Token, TokenModel, VocabModel, Vocabulary,
};
use std::collections::HashMap;
use vstd::hash_map::StringHashMap;
use vstd::prelude::*;
use vstd::utf8::encode_utf8;

verus! {

/// The tokenizer: normalization, aksharas, vocabulary and paradigms.
pub struct HimalayanTokenization {
    pub normalizer: Normalizer,
    pub akshara_dfa: AksharaDFA,
    pub vocab: Vocabulary,
    pub paradigm_registry: ParadigmRegistry,
    /// The characters that stand for bytes.
    pub byte_encoder: [char; 256],
    /// The longest abbreviation that encoding looks for; zero for none.
    pub seed_max_len: usize,
    /// The priors of the roots, as multiples of two to the power of minus 32. Only their
    /// order and their proportions count.
    pub root_prior: HashMap<usize, i64>,
    /// The weights of the tokens, as multiples of two to the power of minus 32.
    pub token_weight: HashMap<usize, i64>,
    pub use_probabilistic_k: bool,
    pub root_set_cap: usize,
    /// The roots of whole surfaces.
    pub lexicon: StringHashMap<usize>,
    /// The roots of the tokens, as far as they were built.
    pub paradigm_embedding: HashMap<usize, Option<usize>>,
}

impl HimalayanTokenization {
    /// The parts are sound, and the byte alphabet is in place.
    pub open spec fn wf(&self) -> bool {
        &&& self.akshara_dfa.wf()
        &&& self.vocab@.valid()
        &&& self.paradigm_registry.wf()
        &&& self.byte_encoder@ == byte_table()
    }

    /// What encoding goes by.
    pub open spec fn encoder(&self) -> EncoderModel {
        EncoderModel {
            vocab: self.vocab@,
            dfa: self.akshara_dfa@,
            seed_max_len: self.seed_max_len as nat,
        }
    }

    /// Puts the markers into a normalized text.
    pub fn mark(&self, normalized: &str) -> (m: Vec<MChar>)
        ensures
            m@ == marked(normalized@),
    {
        let src = chars_of(normalized);
        let n = src.len();
        let ghost s = normalized@;
        let mut m: Vec<MChar> = Vec::new();
        let first = if n > 0 {
            Some(src[0])
        } else {
            None
        };
        m.push(MChar { ch: marker_for(first), synthetic: true });
        assert(m@ =~= marked(s).take(1));
        for i in 0..n
            invariant
                n == s.len(),
                src@ == s,
                m@ == marked(s).take(i + 1),
        {
            let ch = src[i];
            if ch == ' ' {
                let next = if i < n - 1 {
                    Some(src[i + 1])
                } else {
                    None
                };
                m.push(MChar { ch: marker_for(next), synthetic: true });
                assert(m@.last() == marker_before(s, i + 1));
            } else {
                m.push(MChar { ch, synthetic: false });
                assert(m@.last() == plain_char(s[i as int]));
            }
            assert(m@.last() == marked(s)[i + 1]);
            assert(m@ =~= marked(s).take(i + 2));
        }
        assert(marked(s).take(n + 1) =~= marked(s));
        m
    }

    pub fn classify_mchar(&self, m: MChar) -> (s: Script)
        ensures
            s == class_of(m),
    {
        if m.synthetic {
            if m.ch == DEV_MARKER {
                Script::DEV
            } else {
                Script::LAT
            }
        } else if is_marker(m.ch) {
            Script::MAL
        } else {
            classify_char(m.ch)
        }
    }

    /// Appends the tokens that spell a text in bytes.
    fn emit_byte_fallback(&self, text: &str, tokens: &mut Vec<usize>)
        requires
            self.wf(),
        ensures
            final(tokens)@ == old(tokens)@ + byte_ids(self.vocab@, encode_utf8(text@)),
    {
        let bytes = text.as_bytes();
        let n = bytes.len();
        let ghost all = byte_ids(self.vocab@, bytes@);
        assert(bytes@.skip(0) =~= bytes@);
        for i in 0..n
            invariant
                self.wf(),
                n == bytes@.len(),
                tokens@ + byte_ids(self.vocab@, bytes@.skip(i as int)) == old(tokens)@ + all,
        {
            let b = bytes[i];
            let ch = self.byte_encoder[b as usize];
            let surface = string_of_char(ch);
            let ghost before = tokens@;
            let ghost rest = byte_ids(self.vocab@, bytes@.skip(i + 1));
            proof {
                assert(self.byte_encoder@[b as int] == byte_char(b));
                assert(bytes@.skip(i as int).skip(1) =~= bytes@.skip(i + 1));
            }
            if let Some(id) = self.vocab.get_id_by_surface(surface.as_str()) {
                tokens.push(id);
                assert(before.push(id) + rest =~= before + (seq![id] + rest));
            } else {
                assert(before + rest =~= before + (Seq::<usize>::empty() + rest));
            }
        }
        assert(bytes@.skip(n as int) =~= Seq::<u8>::empty());
        assert(tokens@ + Seq::<usize>::empty() =~= tokens@);
    }

    /// Appends the tokens of units: the longest stretches of whole units that have a
    /// token, and what has none in bytes.
    fn tokenize_greedy_units(&self, units: &Vec<String>, tokens: &mut Vec<usize>)
        requires
            self.wf(),
        ensures
            final(tokens)@ == old(tokens)@ + piece_ids(
                greedy_pieces(self.vocab@, texts(units@), 0),
            ),
    {
        let n = units.len();
        let ghost v = self.vocab@;
        let ghost us = texts(units@);
        let ghost all = piece_ids(greedy_pieces(v, us, 0));
        let max = self.vocab.max_surface_len();
        let cap = if max > 1 {
            max
        } else {
            1
        };
        let mut i: usize = 0;
        while i < n
            invariant
                self.wf(),
                i <= n,
                n == units@.len(),
                us == texts(units@),
                v == self.vocab@,
                cap == crate::vocab::max_nat(v.max_len, 1),
                tokens@ + piece_ids(greedy_pieces(v, us, i as int)) == old(tokens)@ + all,
            decreases n - i,
        {
            let ghost before = tokens@;
            let mut cand = String::new();
            let mut best: Option<(usize, usize)> = None;
            let mut j: usize = i;
            let mut full = false;
            let mut len: usize = 0;
            assert(cand@ =~= joined_units(us, i as int, i as int));
            while j < n && !full
                invariant
                    self.wf(),
                    i <= j <= n,
                    n == units@.len(),
                    us == texts(units@),
                    v == self.vocab@,
                    cap == crate::vocab::max_nat(v.max_len, 1),
                    cand@ == joined_units(us, i as int, j as int),
                    len == cand@.len(),
                    len <= cap,
                    match best {
                        Some((id, end)) => i < end <= j && longest_match(
                            v,
                            us,
                            i as int,
                            j as int,
                        ) == end && v.lookup(joined_units(us, i as int, end as int)) == Some(id),
                        None => longest_match(v, us, i as int, j as int) == i,
                    },
                    full ==> longest_match(v, us, i as int, n as int) == longest_match(
                        v,
                        us,
                        i as int,
                        j as int,
                    ),
                decreases n - j + (if full {
                    0int
                } else {
                    1int
                }),
            {
                let unit = chars_of(units[j].as_str()).len();
                assert(us[j as int] == units@[j as int]@);
                if unit > cap - len {
                    proof {
                        lemma_too_long(v, us, i as int, j as int, n as int);
                    }
                    full = true;
                } else {
                    push_text(&mut cand, units[j].as_str());
                    len = len + unit;
                    j = j + 1;
                    if let Some(id) = self.vocab.get_id_by_surface(cand.as_str()) {
                        best = Some((id, j));
                    }
                }
            }
            assert(longest_match(v, us, i as int, j as int) == longest_match(
                v,
                us,
                i as int,
                n as int,
            ));
            match best {
                Some((id, end)) => {
                    let ghost piece = known_or_spelled(v, joined_units(us, i as int, end as int));
                    let ghost rest = greedy_pieces(v, us, end as int);
                    assert((seq![piece] + rest).skip(1) =~= rest);
                    tokens.push(id);
                    assert(before.push(id) + piece_ids(rest) =~= before + (seq![id] + piece_ids(
                        rest,
                    )));
                    i = end;
                },
                None => {
                    let ghost piece = spelled_piece(v, us[i as int]);
                    let ghost rest = greedy_pieces(v, us, i + 1);
                    assert((seq![piece] + rest).skip(1) =~= rest);
                    assert(us[i as int] == units@[i as int]@);
                    self.emit_byte_fallback(units[i].as_str(), tokens);
                    assert(before + piece.ids + piece_ids(rest) =~= before + (piece.ids
                        + piece_ids(rest)));
                    i = i + 1;
                },
            }
        }
        assert(tokens@ + Seq::<usize>::empty() =~= tokens@);
    }

    /// The units of the run from `from` up to `to`.
    fn run_units(&self, m: &Vec<MChar>, from: usize, to: usize, script: Script) -> (units: Vec<
        String,
    >)
        requires
            from < to <= m@.len(),
        ensures
            texts(units@) == self.encoder().run_units(
                m@.subrange(from as int, to as int),
                script,
            ),
    {
        let ghost run = m@.subrange(from as int, to as int);
        let mut units: Vec<String> = Vec::new();
        if script == Script::DEV {
            let mut rest = String::new();
            let start = if m[from].synthetic {
                units.push(string_of_char(m[from].ch));
                from + 1
            } else {
                from
            };
            let ghost tail = run.skip(start - from);
            let ghost front = texts(units@);
            for k in start..to
                invariant
                    from <= start <= k <= to <= m@.len(),
                    run == m@.subrange(from as int, to as int),
                    tail == run.skip(start - from),
                    rest@ == marked_text(tail).take(k - start),
            {
                rest.push(m[k].ch);
                assert(rest@ =~= marked_text(tail).take(k + 1 - start));
            }
            assert(rest@ =~= marked_text(tail));
            let aksharas = self.akshara_dfa.tokenize(rest.as_str());
            let ghost parts = self.akshara_dfa@.units(marked_text(tail));
            assert(texts(units@) + parts.take(0) =~= front);
            for k in 0..aksharas.len()
                invariant
                    parts == aksharas@.map_values(|a: crate::akshara::Akshara| a.surface@),
                    texts(units@) == front + parts.take(k as int),
            {
                assert(parts[k as int] == aksharas@[k as int].surface@);
                let ghost before = texts(units@);
                units.push(aksharas[k].surface.clone());
                assert(texts(units@) =~= before.push(parts[k as int]));
                assert(texts(units@) =~= front + parts.take(k + 1));
            }
            assert(parts.take(parts.len() as int) =~= parts);
            proof {
                if run[0].synthetic {
                    assert(front =~= seq![seq![run[0].ch]]);
                } else {
                    assert(tail =~= run);
                    assert(front =~= Seq::<Seq<char>>::empty());
                    assert(front + parts =~= parts);
                }
            }
        } else {
            let ghost parts = marked_text(run).map_values(|c: char| seq![c]);
            for k in from..to
                invariant
                    from <= k <= to <= m@.len(),
                    run == m@.subrange(from as int, to as int),
                    parts == marked_text(run).map_values(|c: char| seq![c]),
                    texts(units@) == parts.take(k - from),
            {
                let ghost before = texts(units@);
                units.push(string_of_char(m[k].ch));
                assert(texts(units@) =~= before.push(seq![m@[k as int].ch]));
                assert(parts[k - from] =~= seq![m@[k as int].ch]);
                assert(texts(units@) =~= parts.take(k + 1 - from));
            }
            assert(parts.take(parts.len() as int) =~= parts);
        }
        units
    }

    /// Appends the tokens of the run from `from` up to `to`.
    fn tokenize_run(
        &self,
        m: &Vec<MChar>,
        from: usize,
        to: usize,
        script: Script,
        tokens: &mut Vec<usize>,
    )
        requires
            self.wf(),
            from < to <= m@.len(),
            script == Script::FMT ==> forall|k: int|
                from <= k < to ==> (#[trigger] m@[k]).ch == ZWNJ,
        ensures
            final(tokens)@ == old(tokens)@ + piece_ids(
                self.encoder().run_pieces(m@.subrange(from as int, to as int), script),
            ),
    {
        let ghost run = m@.subrange(from as int, to as int);
        let ghost v = self.vocab@;
        let ghost ps = self.encoder().run_pieces(run, script);
        if script == Script::DEV || script == Script::LAT || script == Script::PUN {
            let units = self.run_units(m, from, to, script);
            self.tokenize_greedy_units(&units, tokens);
            return;
        }
        assert(ps.skip(0) =~= ps);
        for k in from..to
            invariant
                self.wf(),
                from <= k <= to <= m@.len(),
                run == m@.subrange(from as int, to as int),
                v == self.vocab@,
                ps == self.encoder().run_pieces(run, script),
                ps.len() == to - from,
                script == Script::FMT || script == Script::MAL,
                script == Script::FMT ==> forall|k: int|
                    from <= k < to ==> (#[trigger] m@[k]).ch == ZWNJ,
                tokens@ + piece_ids(ps.skip(k - from)) == old(tokens)@ + piece_ids(ps),
        {
            let ghost piece = ps[k - from];
            let ghost before = tokens@;
            let ghost rest = piece_ids(ps.skip(k + 1 - from));
            assert(ps.skip(k - from).skip(1) =~= ps.skip(k + 1 - from));
            assert(run[k - from] == m@[k as int]);
            let s = string_of_char(m[k].ch);
            let found = if script == Script::MAL {
                None
            } else {
                self.vocab.get_id_by_surface(s.as_str())
            };
            match found {
                Some(id) => {
                    tokens.push(id);
                    assert(piece.ids =~= seq![id]);
                    assert(before.push(id) + rest =~= before + (seq![id] + rest));
                },
                None => {
                    if script != Script::FMT {
                        self.emit_byte_fallback(s.as_str(), tokens);
                        assert(before + piece.ids + rest =~= before + (piece.ids + rest));
                    } else {
                        assert(before + rest =~= before + (Seq::<usize>::empty() + rest));
                    }
                },
            }
        }
        assert(ps.skip(to - from) =~= Seq::<Piece>::empty());
        assert(tokens@ + Seq::<usize>::empty() =~= tokens@);
    }

    /// Appends the abbreviation at `start`, with the marker before it, and gives the
    /// place behind it; nothing where there is none.
    fn try_emit_atomic_seed(&self, m: &Vec<MChar>, start: usize, tokens: &mut Vec<usize>) -> (end:
        Option<usize>)
        requires
            self.wf(),
            start < m@.len(),
        ensures
            ({
                let t = m@.skip(start as int);
                let len = self.encoder().seed_at(t);
                match end {
                    Some(end) => len > 0 && end == start + marker_len(t) + len && final(tokens)@
                        == old(tokens)@ + piece_ids(self.encoder().seed_pieces(t, len)),
                    None => len == 0 && final(tokens)@ == old(tokens)@,
                }
            }),
    {
        let n = m.len();
        let ghost e = self.encoder();
        let ghost t = m@.skip(start as int);
        let leading = m[start].synthetic;
        let from = if leading {
            start + 1
        } else {
            start
        };
        let ghost rest = m@.skip(from as int);
        assert(rest =~= t.skip(marker_len(t)));
        let mut avail: usize = 0;
        let mut stop: Option<usize> = None;
        assert(rest.skip(0) =~= rest);
        while from + avail < n && avail < self.seed_max_len && !m[from + avail].synthetic && !is_marker(
            m[from + avail].ch,
        )
            invariant
                from + avail <= n == m@.len(),
                n <= usize::MAX,
                rest == m@.skip(from as int),
                plain_len(rest) == avail + plain_len(rest.skip(avail as int)),
                avail <= self.seed_max_len,
                match stop {
                    Some(p) => p < avail && is_stop(rest[p as int].ch) && forall|k: int|
                        0 <= k < p ==> !is_stop((#[trigger] rest[k]).ch),
                    None => forall|k: int| 0 <= k < avail ==> !is_stop((#[trigger] rest[k]).ch),
                },
            decreases n - from - avail,
        {
            assert(rest.skip(avail as int).skip(1) =~= rest.skip(avail + 1));
            assert(rest.skip(avail as int)[0] == m@[from + avail]);
            if stop.is_none() && is_stop(m[from + avail].ch) {
                stop = Some(avail);
            }
            avail = avail + 1;
        }
        proof {
            reveal(EncoderModel::seed_at);
            if from + avail < n {
                assert(rest.skip(avail as int)[0] == m@[from + avail]);
            }
            lemma_plain_len(rest);
            assert(avail == min_nat(e.seed_max_len, plain_len(rest)));
        }
        let first = match stop {
            Some(p) => p,
            None => {
                proof {
                    lemma_no_stop(e, t, avail as nat);
                }
                return None;
            },
        };
        let mut len: usize = avail;
        while len > first
            invariant
                first < avail,
                is_stop(rest[first as int].ch),
                first <= len,
                self.wf(),
                e == self.encoder(),
                len <= avail,
                from + avail <= n == m@.len(),
                rest == m@.skip(from as int),
                start <= from,
                t == m@.skip(start as int),
                start < m@.len(),
                leading == t[0].synthetic,
                from == start + if leading {
                    1int
                } else {
                    0int
                },
                rest == t.skip(marker_len(t)),
                e.seed_at(t) == e.seed_len(t, len as nat),
                tokens@ == old(tokens)@,
            decreases len,
        {
            let mut candidate = String::new();
            for k in 0..len
                invariant
                    from + len <= n == m@.len(),
                    rest == m@.skip(from as int),
                    candidate@ == marked_text(rest.take(len as int)).take(k as int),
            {
                candidate.push(m[from + k].ch);
                assert(candidate@ =~= marked_text(rest.take(len as int)).take(k + 1));
            }
            assert(candidate@ =~= marked_text(rest.take(len as int)));
            assert(has_stop(candidate@)) by {
                assert(candidate@[first as int] == rest[first as int].ch);
            }
            let found = if len >= 2 && self.ends_unit(m, start, from + len) {
                self.vocab.get_id_by_surface(candidate.as_str())
            } else {
                None
            };
            if let Some(seed) = found {
                assert(e.is_abbreviation(t, len as nat));
                let ghost ps = e.seed_pieces(t, len as nat);
                proof {
                    reveal_with_fuel(piece_ids, 3);
                    assert(ps.skip(ps.len() as int) =~= Seq::<Piece>::empty());
                }
                if leading {
                    let marker = string_of_char(m[start].ch);
                    assert(ps.skip(1).skip(1) =~= Seq::<Piece>::empty());
                    if let Some(id) = self.vocab.get_id_by_surface(marker.as_str()) {
                        tokens.push(id);
                    }
                    assert(tokens@ =~= old(tokens)@ + ps[0].ids);
                }
                let ghost before = tokens@;
                tokens.push(seed);
                assert(tokens@ =~= old(tokens)@ + piece_ids(ps)) by {
                    assert(ps.last().ids =~= seq![seed]);
                }
                return Some(from + len);
            }
            len = len - 1;
        }
        proof {
            lemma_no_stop(e, t, first as nat);
        }
        None
    }

    /// Whether a unit of the text from `start` on ends before `end`.
    fn ends_unit(&self, m: &Vec<MChar>, start: usize, end: usize) -> (yes: bool)
        requires
            self.wf(),
            start <= end <= m@.len(),
        ensures
            yes == cuts(self.encoder().text_units(m@.skip(start as int)), end - start),
    {
        let ghost e = self.encoder();
        let ghost goal = cuts(e.text_units(m@.skip(start as int)), end - start);
        let mut from = start;
        while from < end
            invariant
                self.wf(),
                e == self.encoder(),
                start <= from <= end <= m@.len(),
                goal == cuts(e.text_units(m@.skip(start as int)), end - start),
                goal == cuts(e.text_units(m@.skip(from as int)), end - from),
            decreases end - from,
        {
            let ghost t = m@.skip(from as int);
            assert(t[0] == m@[from as int]);
            let script = self.classify_mchar(m[from]);
            let to = self.run_end(m, from, script);
            let ghost run = t.take(to - from);
            let ghost units = e.run_units(run, script);
            let ghost rest = m@.skip(to as int);
            proof {
                assert(t.skip(to - from) =~= rest);
                assert(m@.subrange(from as int, to as int) =~= run);
                lemma_run_units_text(e, run, script);
                lemma_cuts_concat(units, e.text_units(rest), end - from);
                if cuts(units, end - from) {
                    lemma_cuts_nonneg(units, end - from);
                }
                if cuts(e.text_units(rest), end - to) {
                    lemma_cuts_nonneg(e.text_units(rest), end - to);
                }
            }
            if to > end {
                if script != Script::DEV {
                    proof {
                        lemma_cuts_singles(marked_text(run), end - from);
                    }
                    return true;
                }
                let parts = self.run_units(m, from, to, script);
                let mut left: usize = end - from;
                let mut i: usize = 0;
                assert(units.skip(0) =~= units);
                while left > 0 && i < parts.len()
                    invariant
                        i <= parts@.len(),
                        units == texts(parts@),
                        goal == cuts(e.text_units(m@.skip(start as int)), end - start),
                        e == self.encoder(),
                        goal == cuts(units.skip(i as int), left as int),
                    decreases parts@.len() - i,
                {
                    let len = chars_of(parts[i].as_str()).len();
                    assert(units.skip(i as int)[0] == parts@[i as int]@);
                    assert(units.skip(i as int).drop_first() =~= units.skip(i + 1));
                    if len > left {
                        proof {
                            if cuts(units.skip(i + 1), left - len) {
                                lemma_cuts_nonneg(units.skip(i + 1), left - len);
                            }
                        }
                        return false;
                    }
                    left = left - len;
                    i = i + 1;
                }
                return left == 0;
            }
            from = to;
        }
        true
    }

    /// The tokens of a text that is already normalized.
    pub fn encode_normalized(&self, normalized: &str) -> (tokens: Vec<usize>)
        requires
            self.wf(),
        ensures
            tokens@ == self.encoder().encoded(normalized@),
    {
        let m = self.mark(normalized);
        let n = m.len();
        let ghost e = self.encoder();
        let ghost all = e.encoded(normalized@);
        let mut tokens: Vec<usize> = Vec::new();
        let mut i: usize = 0;
        assert(m@.skip(0) =~= m@);
        assert(tokens@ + all =~= all);
        while i < n
            invariant
                self.wf(),
                e == self.encoder(),
                i <= n == m@.len(),
                tokens@ + piece_ids(e.pieces(m@.skip(i as int))) == all,
            decreases n - i,
        {
            let ghost t = m@.skip(i as int);
            let ghost before = tokens@;
            assert(t[0] == m@[i as int]);
            proof {
                lemma_seed_at(e, t);
                lemma_more_len(t.skip(1), class_of(t[0]));
            }
            match self.try_emit_atomic_seed(&m, i, &mut tokens) {
                Some(end) => {
                    proof {
                        let len = e.seed_at(t);
                        lemma_piece_ids_concat(
                            e.seed_pieces(t, len),
                            e.pieces(t.skip(end - i)),
                        );
                        assert(t.skip(end - i) =~= m@.skip(end as int));
                        assert(before + piece_ids(e.seed_pieces(t, len)) + piece_ids(
                            e.pieces(m@.skip(end as int)),
                        ) =~= before + (piece_ids(e.seed_pieces(t, len)) + piece_ids(
                            e.pieces(m@.skip(end as int)),
                        )));
                    }
                    i = end;
                },
                None => {
                    let start = i;
                    let script = self.classify_mchar(m[i]);
                    let end = self.run_end(&m, i, script);
                    let ghost run = t.take(end - start);
                    assert(m@.subrange(start as int, end as int) =~= run);
                    assert forall|k: int| script == Script::FMT && start <= k < end implies (
                    #[trigger] m@[k]).ch == ZWNJ by {
                        assert(m@[k] == t[k - start]);
                        if k > start {
                            assert(t[k - start] == t.skip(1)[k - start - 1]);
                        }
                    }
                    self.tokenize_run(&m, start, end, script, &mut tokens);
                    proof {
                        lemma_piece_ids_concat(
                            e.run_pieces(run, script),
                            e.pieces(t.skip(end - start)),
                        );
                        assert(t.skip(end - start) =~= m@.skip(end as int));
                        assert(before + piece_ids(e.run_pieces(run, script)) + piece_ids(
                            e.pieces(m@.skip(end as int)),
                        ) =~= before + (piece_ids(e.run_pieces(run, script)) + piece_ids(
                            e.pieces(m@.skip(end as int)),
                        )));
                    }
                    i = end;
                },
            }
        }
        assert(tokens@ + Seq::<usize>::empty() =~= tokens@);
        tokens
    }

    /// The end of the run that begins at `start`.
    fn run_end(&self, m: &Vec<MChar>, start: usize, script: Script) -> (end: usize)
        requires
            start < m@.len(),
            script == class_of(m@[start as int]),
        ensures
            end == start + run_len(m@.skip(start as int)),
            start < end <= m@.len(),
    {
        let n = m.len();
        let ghost t = m@.skip(start as int).skip(1);
        let mut i: usize = start + 1;
        assert(t.skip(0) =~= t);
        while i < n && !m[i].synthetic && self.classify_mchar(m[i]) == script
            invariant
                start < i <= n == m@.len(),
                t == m@.skip(start as int).skip(1),
                more_len(t, script) == (i - start - 1) + more_len(t.skip(i - start - 1), script),
            decreases n - i,
        {
            assert(t.skip(i - start - 1)[0] == m@[i as int]);
            assert(t.skip(i - start - 1).skip(1) =~= t.skip(i - start));
            i = i + 1;
        }
        if i < n {
            assert(t.skip(i - start - 1)[0] == m@[i as int]);
        }
        i
    }

    /// The tokens of a text.
    pub fn encode(&self, s: &str) -> (tokens: Vec<usize>)
        requires
            self.wf(),
        ensures
            tokens@ == self.encoder().encoded(self.normalizer.normalized(s@)),
    {
        let normalized = self.normalizer.normalize(s);
        self.encode_normalized(normalized.as_str())
    }

    /// The text that tokens stand for. Bytes are put together until another token
    /// comes; markers become spaces; the first space is dropped.
    pub fn decode(&self, token_ids: &[usize]) -> (text: String)
        requires
            self.wf(),
        ensures
            text@ == decoded(self.vocab@, token_ids@),
    {
        let n = token_ids.len();
        let ghost v = self.vocab@;
        let mut result = String::new();
        let mut bytes: Vec<u8> = Vec::new();
        assert(result@ =~= Seq::<char>::empty());
        assert(token_ids@.take(0) =~= Seq::<usize>::empty());
        for i in 0..n
            invariant
                self.wf(),
                v == self.vocab@,
                n == token_ids@.len(),
                (DecoderState { text: result@, bytes: bytes@ }) == DecoderState::start().after(
                    v,
                    token_ids@.take(i as int),
                ),
        {
            let id = token_ids[i];
            let ghost state = DecoderState { text: result@, bytes: bytes@ };
            proof {
                assert(token_ids@.take(i + 1).drop_last() =~= token_ids@.take(i as int));
            }
            let found = self.vocab.get_token(id);
            let byte = match found {
                Some(t) => match &**t {
                    Token::ByteFallback(b) => Some(*b),
                    _ => None,
                },
                None => None,
            };
            match byte {
                Some(b) => {
                    bytes.push(b);
                },
                None => {
                    flush(&mut result, &mut bytes);
                    assert(result@ == state.text + flushed(state.bytes));
                    if let Some(surface) = self.vocab.get_surface(id) {
                        push_surface(&mut result, surface.as_str());
                    }
                    assert(DecoderState { text: result@, bytes: bytes@ } =~= state.next(v, id));
                },
            }
        }
        assert(token_ids@.take(n as int) =~= token_ids@);
        flush(&mut result, &mut bytes);
        let chars = chars_of(result.as_str());
        if chars.len() > 0 && chars[0] == ' ' {
            let out = string_of(&chars, 1, chars.len());
            assert(out@ =~= chars@.skip(1));
            out
        } else {
            result
        }
    }

    /// Whether a text comes back from its tokens as its normalized form.
    pub fn verify_roundtrip(&self, s: &str) -> (ok: bool)
        requires
            self.wf(),
        ensures
            ok == (decoded(
                self.vocab@,
                self.encoder().encoded(self.normalizer.normalized(s@)),
            ) == self.normalizer.normalized(s@)),
            lossless(self.vocab@) ==> ok,
    {
        proof {
            if lossless(self.vocab@) {
                law_decode_undoes_encode(self.encoder(), self.normalizer.normalized(s@));
            }
        }
        let ids = self.encode(s);
        let back = self.decode(ids.as_slice());
        let normalized = self.normalizer.normalize(s);
        same_text(back.as_str(), normalized.as_str())
    }
}

/// The length of the longest of the texts with a stop that have at least `min`
/// characters; zero where there is none.
pub open spec fn longest_abbreviation(list: Seq<Seq<char>>, min: nat) -> nat
    decreases list.len(),
{
    if list.len() == 0 {
        0
    } else {
        let before = longest_abbreviation(list.drop_last(), min);
        let s = list.last();
        if has_stop(s) && s.len() >= min && s.len() > before {
            s.len()
        } else {
            before
        }
    }
}

/// The length of a text with a stop, and zero for a text without one.
fn abbreviation_len(s: &str) -> (n: usize)
    ensures
        n == (if has_stop(s@) {
            s@.len()
        } else {
            0
        }),
{
    let chars = chars_of(s);
    for i in 0..chars.len()
        invariant
            chars@ == s@,
            forall|j: int| 0 <= j < i ==> !is_stop(#[trigger] chars@[j]),
    {
        if is_stop(chars[i]) {
            return chars.len();
        }
    }
    0
}

/// The likeliest of some roots: the greatest prior, and of equals the smallest number.
pub open spec fn likeliest(roots: Seq<usize>, prior: Map<usize, i64>) -> usize
    decreases roots.len(),
{
    if roots.len() <= 1 {
        roots[0]
    } else {
        let best = likeliest(roots.drop_last(), prior);
        if by_prior(prior)(best, roots.last()) {
            best
        } else {
            roots.last()
        }
    }
}

/// No root is likelier than the likeliest, which is one of them.
pub proof fn law_likeliest(roots: Seq<usize>, prior: Map<usize, i64>, r: usize)
    requires
        roots.contains(r),
    ensures
        roots.contains(likeliest(roots, prior)),
        by_prior(prior)(likeliest(roots, prior), r),
    decreases roots.len(),
{
    if roots.len() <= 1 {
        assert(roots.contains(roots[0]));
    } else {
        let front = roots.drop_last();
        assert(front.push(roots.last()) =~= roots);
        crate::akshara::lemma_push_contains(front, roots.last(), r);
        assert(front.contains(front[0]));
        law_likeliest(front, prior, front[0]);
        if front.contains(r) {
            law_likeliest(front, prior, r);
        }
        crate::akshara::lemma_push_contains(front, roots.last(), likeliest(front, prior));
        assert(roots[roots.len() - 1] == roots.last());
    }
}

/// The root of a token: what the lexicon says of its surface, or its only root, or the
/// likeliest of its roots if that is wanted.
pub open spec fn root_of_token(
    v: VocabModel,
    lexicon: Map<Seq<char>, usize>,
    prior: Map<usize, i64>,
    by_likelihood: bool,
    id: usize,
) -> Option<usize> {
    let roots = v.roots_of(id);
    if lexicon.contains_key(v.surface_of(id)) {
        Some(lexicon[v.surface_of(id)])
    } else if roots.len() == 1 {
        Some(roots[0])
    } else if roots.len() > 1 && by_likelihood {
        Some(likeliest(roots, prior))
    } else {
        None
    }
}

/// The roots of all tokens.
pub open spec fn token_roots(
    v: VocabModel,
    lexicon: Map<Seq<char>, usize>,
    prior: Map<usize, i64>,
    by_likelihood: bool,
) -> Seq<Option<usize>> {
    Seq::new(
        v.len(),
        |i: int| root_of_token(v, lexicon, prior, by_likelihood, i as usize),
    )
}

/// The lexicon that entries make, one after the other.
pub open spec fn lexicon_of(entries: Seq<(String, usize)>) -> Map<Seq<char>, usize>
    decreases entries.len(),
{
    if entries.len() == 0 {
        Map::empty()
    } else {
        lexicon_of(entries.drop_last()).insert(entries.last().0@, entries.last().1)
    }
}

/// A root as a number, and minus one for none.
pub open spec fn root_number(root: Option<Option<usize>>) -> i64 {
    match root {
        Some(Some(r)) => r as i64,
        _ => -1i64,
    }
}

/// A vocabulary after one induced unit.
pub open spec fn with_induced(v: VocabModel, surface: Seq<char>, confidence: i64) -> VocabModel {
    let w = v.added(
        Entry {
            token: TokenModel::SeededMorpheme(surface),
            surface,
            strict: false,
            ambiguous: true,
        },
    );
    VocabModel { confidence: v.confidence.insert(w.index[surface], confidence), ..w }
}

/// Whether induction takes a unit: one that is not empty, with enough confidence.
pub open spec fn taken(c: (String, i64), c_lo: i64) -> bool {
    c.1 >= c_lo && c.0@.len() > 0
}

/// A vocabulary after the induced units that are taken.
pub open spec fn with_all_induced(
    v: VocabModel,
    candidates: Seq<(String, i64)>,
    c_lo: i64,
) -> VocabModel
    decreases candidates.len(),
{
    if candidates.len() == 0 {
        v
    } else {
        let w = with_all_induced(v, candidates.drop_last(), c_lo);
        let c = candidates.last();
        if taken(c, c_lo) {
            with_induced(w, c.0@, c.1)
        } else {
            w
        }
    }
}

/// Induction makes no strict seeds, and what it takes becomes ambiguous.
pub proof fn law_induction_never_makes_strict(
    v: VocabModel,
    candidates: Seq<(String, i64)>,
    c_lo: i64,
)
    ensures
        with_all_induced(v, candidates, c_lo).strict == v.strict,
        v.ambiguous.subset_of(with_all_induced(v, candidates, c_lo).ambiguous),
    decreases candidates.len(),
{
    if candidates.len() > 0 {
        law_induction_never_makes_strict(v, candidates.drop_last(), c_lo);
    }
}

/// The surfaces of those numbers that are tokens.
pub open spec fn surfaces_of(v: VocabModel, ids: Seq<usize>) -> Seq<Seq<char>>
    decreases ids.len(),
{
    if ids.len() == 0 {
        Seq::empty()
    } else if ids.last() < v.surfaces.len() {
        surfaces_of(v, ids.drop_last()).push(v.surfaces[ids.last() as int])
    } else {
        surfaces_of(v, ids.drop_last())
    }
}

impl HimalayanTokenization {
    /// A tokenizer with an empty vocabulary that folds by the given rules.
    pub fn new(fold_rules: Vec<(String, String)>, paradigm_registry: ParadigmRegistry) -> (t: Self)
        requires
            paradigm_registry.wf(),
        ensures
            t.wf(),
            t.normalizer.fold_mode() == FoldMode::LM,
            t.normalizer.rules() == sorted(rule_texts(fold_rules@), longer_first()),
            t.paradigm_registry == paradigm_registry,
            t.encoder() == (EncoderModel {
                vocab: VocabModel::empty(),
                dfa: default_dfa(),
                seed_max_len: 0,
            }),
            t.is_plain(),
    {
        Self::new_with_mode(FoldMode::LM, fold_rules, Vec::new(), paradigm_registry)
    }

    /// A tokenizer with an empty vocabulary. It folds by the full rules in the mode
    /// `LM` and by the minimal ones in the mode `OCR`.
    pub fn new_with_mode(
        mode: FoldMode,
        full_rules: Vec<(String, String)>,
        minimal_rules: Vec<(String, String)>,
        paradigm_registry: ParadigmRegistry,
    ) -> (t: Self)
        requires
            paradigm_registry.wf(),
        ensures
            t.wf(),
            t.normalizer.fold_mode() == mode,
            t.normalizer.rules() == sorted(
                rule_texts(
                    if mode == FoldMode::LM {
                        full_rules@
                    } else {
                        minimal_rules@
                    },
                ),
                longer_first(),
            ),
            t.paradigm_registry == paradigm_registry,
            t.encoder() == (EncoderModel {
                vocab: VocabModel::empty(),
                dfa: default_dfa(),
                seed_max_len: 0,
            }),
            t.is_plain(),
    {
        Self {
            normalizer: Normalizer::new_with_mode(mode, full_rules, minimal_rules),
            akshara_dfa: AksharaDFA::devanagari_default(),
            vocab: Vocabulary::new(),
            paradigm_registry,
            byte_encoder: bytes_to_unicode(),
            seed_max_len: 0,
            root_prior: HashMap::new(),
            token_weight: HashMap::new(),
            use_probabilistic_k: false,
            root_set_cap: 0,
            lexicon: StringHashMap::new(),
            paradigm_embedding: HashMap::new(),
        }
    }

    /// No priors, no weights, no lexicon and no roots of tokens.
    pub open spec fn is_plain(&self) -> bool {
        &&& self.root_prior@ == Map::<usize, i64>::empty()
        &&& self.token_weight@ == Map::<usize, i64>::empty()
        &&& !self.use_probabilistic_k
        &&& self.root_set_cap == 0
        &&& self.lexicon@ == Map::<Seq<char>, usize>::empty()
        &&& self.paradigm_embedding@ == Map::<usize, Option<usize>>::empty()
    }

    /// Replaces the vocabulary by the one that a list of numbered surfaces describes.
    /// Every surface with a stop counts as an abbreviation, if it is longer than one
    /// character.
    pub fn load_vocab(&mut self, pairs: Vec<(usize, String)>)
        requires
            old(self).wf(),
        ensures
            final(self).wf(),
            *final(self) == (Self {
                vocab: final(self).vocab,
                seed_max_len: final(self).seed_max_len,
                ..*old(self)
            }),
            final(self).vocab@ == loaded(pair_texts(pairs@), byte_decoder()),
            final(self).seed_max_len == longest_abbreviation(
                pair_texts(pairs@).map_values(|p: (usize, Seq<char>)| p.1),
                2,
            ),
    {
        let ghost list = pair_texts(pairs@).map_values(|p: (usize, Seq<char>)| p.1);
        let mut longest: usize = 0;
        for i in 0..pairs.len()
            invariant
                list == pair_texts(pairs@).map_values(|p: (usize, Seq<char>)| p.1),
                longest == longest_abbreviation(list.take(i as int), 2),
        {
            assert(list.take(i + 1).drop_last() =~= list.take(i as int));
            assert(list[i as int] == pairs@[i as int].1@);
            let n = abbreviation_len(pairs[i].1.as_str());
            if n >= 2 && n > longest {
                longest = n;
            }
        }
        assert(list.take(pairs@.len() as int) =~= list);
        self.seed_max_len = longest;
        let decoder = decoder_of(&self.byte_encoder);
        self.vocab.load_from_pairs(pairs, &decoder);
    }

    /// Puts the base inventory into the vocabulary and gives its size. The seeds with
    /// a stop are the abbreviations. A vocabulary that was empty can spell everything
    /// then, whatever is listed.
    pub fn initialize_vocab(
        &mut self,
        aksharas: Vec<String>,
        seed_morphemes: Vec<String>,
        punctuation: Vec<String>,
        v_strict: Vec<String>,
        v_ambiguous: Vec<String>,
    ) -> (size: usize)
        requires
            old(self).wf(),
        ensures
            final(self).wf(),
            *final(self) == (Self {
                vocab: final(self).vocab,
                seed_max_len: final(self).seed_max_len,
                ..*old(self)
            }),
            final(self).vocab@ == initialized(
                old(self).vocab@,
                rootless(texts(aksharas@)),
                texts(seed_morphemes@),
                texts(punctuation@),
                texts(v_strict@),
                texts(v_ambiguous@),
                byte_table(),
            ),
            final(self).seed_max_len == longest_abbreviation(
                texts(seed_morphemes@) + texts(v_strict@) + texts(v_ambiguous@),
                0,
            ),
            size == final(self).vocab@.len(),
            old(self).vocab@ == VocabModel::empty() ==> lossless(final(self).vocab@),
    {
        let mut base: Vec<Akshara> = Vec::new();
        for i in 0..aksharas.len()
            invariant
                base@.len() == i,
                forall|j: int|
                    0 <= j < i ==> (#[trigger] base@[j]).surface@ == aksharas@[j]@
                        && base@[j].root_set@ == Seq::<usize>::empty(),
        {
            base.push(Akshara { surface: aksharas[i].clone(), root_set: Vec::new() });
        }
        assert(akshara_texts(base@) =~= rootless(texts(aksharas@)));
        let mut seeds = copy_texts(&seed_morphemes);
        push_texts(&mut seeds, &v_strict);
        push_texts(&mut seeds, &v_ambiguous);
        let ghost list = texts(seeds@);
        let mut longest: usize = 0;
        for i in 0..seeds.len()
            invariant
                list == texts(seeds@),
                longest == longest_abbreviation(list.take(i as int), 0),
        {
            assert(list.take(i + 1).drop_last() =~= list.take(i as int));
            let n = abbreviation_len(seeds[i].as_str());
            if n > longest {
                longest = n;
            }
        }
        assert(list.take(seeds@.len() as int) =~= list);
        self.seed_max_len = longest;
        self.vocab.initialize(
            base,
            seed_morphemes,
            punctuation,
            v_strict,
            v_ambiguous,
            &self.byte_encoder,
        );
        proof {
            if old(self).vocab@ == VocabModel::empty() {
                law_base_inventory_is_lossless(
                    old(self).vocab@,
                    rootless(texts(aksharas@)),
                    texts(seed_morphemes@),
                    texts(punctuation@),
                    texts(v_strict@),
                    texts(v_ambiguous@),
                );
            }
        }
        self.vocab.len()
    }

    /// Finds the root of every token and gives the number of tokens that have one.
    pub fn build_paradigm_embedding(&mut self, seed_ambiguous_by_prior: bool) -> (assigned: usize)
        requires
            old(self).wf(),
        ensures
            final(self).wf(),
            *final(self) == (Self {
                paradigm_embedding: final(self).paradigm_embedding,
                ..*old(self)
            }),
            ({
                let roots = token_roots(
                    old(self).vocab@,
                    old(self).lexicon@,
                    old(self).root_prior@,
                    seed_ambiguous_by_prior,
                );
                &&& forall|id: usize| #[trigger]
                    final(self).paradigm_embedding@.contains_key(id) <==> id < roots.len()
                &&& forall|id: usize|
                    id < roots.len() ==> #[trigger] final(self).paradigm_embedding@[id]
                        == roots[id as int]
                &&& assigned == roots.filter(|r: Option<usize>| r is Some).len()
            }),
    {
        let ghost roots = token_roots(
            self.vocab@,
            self.lexicon@,
            self.root_prior@,
            seed_ambiguous_by_prior,
        );
        let ghost some = |r: Option<usize>| r is Some;
        let mut embedding: HashMap<usize, Option<usize>> = HashMap::new();
        let mut assigned: usize = 0;
        let n = self.vocab.len();
        proof {
            reveal(Seq::filter);
        }
        for id in 0..n
            invariant
                self.wf(),
                n == self.vocab@.len(),
                roots == token_roots(
                    self.vocab@,
                    self.lexicon@,
                    self.root_prior@,
                    seed_ambiguous_by_prior,
                ),
                some == (|r: Option<usize>| r is Some),
                forall|i: usize| #[trigger] embedding@.contains_key(i) <==> i < id,
                forall|i: usize| i < id ==> #[trigger] embedding@[i] == roots[i as int],
                assigned == roots.take(id as int).filter(some).len(),
                assigned <= id,
        {
            let surface = self.vocab.surface_or_empty(id);
            let found = match self.lexicon.get(surface.as_str()) {
                Some(r) => Some(*r),
                None => None,
            };
            let root = match found {
                Some(r) => Some(r),
                None => {
                    let rs = self.vocab.get_root_set(id);
                    if rs.len() == 1 {
                        Some(rs[0])
                    } else if rs.len() > 1 && seed_ambiguous_by_prior {
                        Some(likeliest_of(rs, &self.root_prior))
                    } else {
                        None
                    }
                },
            };
            proof {
                reveal(Seq::filter);
                assert(roots.take(id + 1).drop_last() =~= roots.take(id as int));
                assert(root == roots[id as int]);
            }
            if root.is_some() {
                assigned = assigned + 1;
            }
            embedding.insert(id, root);
        }
        assert(roots.take(n as int) =~= roots);
        self.paradigm_embedding = embedding;
        assigned
    }

    /// The roots of the tokens as numbers, in the order of the tokens; minus one where
    /// there is none.
    pub fn u_vector(&self) -> (u: Vec<i64>)
        ensures
            u@ == Seq::new(
                self.vocab@.len(),
                |i: int|
                    root_number(
                        if self.paradigm_embedding@.contains_key(i as usize) {
                            Some(self.paradigm_embedding@[i as usize])
                        } else {
                            None
                        },
                    ),
            ),
    {
        let n = self.vocab.len();
        let mut u: Vec<i64> = Vec::new();
        for id in 0..n
            invariant
                n == self.vocab@.len(),
                u@.len() == id,
                forall|i: int|
                    0 <= i < id ==> #[trigger] u@[i] == root_number(
                        if self.paradigm_embedding@.contains_key(i as usize) {
                            Some(self.paradigm_embedding@[i as usize])
                        } else {
                            None
                        },
                    ),
        {
            let root = match self.paradigm_embedding.get(&id) {
                Some(root) => *root,
                None => None,
            };
            match root {
                Some(r) => {
                    u.push(r as i64);
                },
                None => {
                    u.push(-1);
                },
            }
        }
        u
    }

    /// Sets the priors of the roots.
    pub fn set_root_prior(&mut self, prior: HashMap<usize, i64>)
        requires
            old(self).wf(),
        ensures
            *final(self) == (Self { root_prior: prior, ..*old(self) }),
            final(self).wf(),
    {
        self.root_prior = prior;
    }

    /// Sets the weight of the token with the given surface, if there is one.
    pub fn set_token_weight(&mut self, surface: &str, weight: i64) -> (done: bool)
        requires
            old(self).wf(),
        ensures
            final(self).wf(),
            *final(self) == (Self { token_weight: final(self).token_weight, ..*old(self) }),
            done == old(self).vocab@.index.contains_key(surface@),
            final(self).token_weight@ == (if done {
                old(self).token_weight@.insert(old(self).vocab@.index[surface@], weight)
            } else {
                old(self).token_weight@
            }),
    {
        match self.vocab.get_id_by_surface(surface) {
            Some(id) => {
                self.token_weight.insert(id, weight);
                true
            },
            None => false,
        }
    }

    /// Lets scores and weights enter the priorities, or keeps them out.
    pub fn enable_probabilistic_k(&mut self, enabled: bool, root_set_cap: usize)
        requires
            old(self).wf(),
        ensures
            *final(self) == (Self { use_probabilistic_k: enabled, root_set_cap, ..*old(self) }),
            final(self).wf(),
    {
        self.use_probabilistic_k = enabled;
        self.root_set_cap = root_set_cap;
    }

    /// Sets the roots of whole surfaces. Of two entries for one surface the later one
    /// counts.
    pub fn set_lexicon(&mut self, entries: Vec<(String, usize)>)
        requires
            old(self).wf(),
        ensures
            *final(self) == (Self { lexicon: final(self).lexicon, ..*old(self) }),
            final(self).lexicon@ == lexicon_of(entries@),
            final(self).wf(),
    {
        let mut lexicon: StringHashMap<usize> = StringHashMap::new();
        assert(lexicon@ =~= lexicon_of(entries@.take(0)));
        for i in 0..entries.len()
            invariant
                lexicon@ == lexicon_of(entries@.take(i as int)),
        {
            assert(entries@.take(i + 1).drop_last() =~= entries@.take(i as int));
            lexicon.insert(entries[i].0.clone(), entries[i].1);
        }
        assert(entries@.take(entries@.len() as int) =~= entries@);
        self.lexicon = lexicon;
    }

    /// Tags the tokens with the roots whose paradigms know their surface.
    pub fn assign_initial_roots(&mut self)
        requires
            old(self).wf(),
        ensures
            final(self).wf(),
            *final(self) == (Self { vocab: final(self).vocab, ..*old(self) }),
            final(self).vocab@ == (VocabModel {
                roots: tagged_roots(
                    old(self).vocab@,
                    old(self).paradigm_registry@,
                    old(self).root_prior@,
                ),
                ..old(self).vocab@
            }),
    {
        self.vocab.assign_roots_from_registry(&self.paradigm_registry, &self.root_prior);
    }

    /// The roots of the token with the given surface.
    pub fn get_root_set(&self, surface: &str) -> (roots: Vec<usize>)
        ensures
            roots@ == (match self.vocab@.lookup(surface@) {
                Some(id) => self.vocab@.roots_of(id),
                None => Seq::empty(),
            }),
    {
        let mut out: Vec<usize> = Vec::new();
        if let Some(id) = self.vocab.get_id_by_surface(surface) {
            let roots = self.vocab.get_root_set(id);
            let n = roots.len();
            for i in 0..n
                invariant
                    n == roots@.len(),
                    out@ == roots@.take(i as int),
            {
                out.push(roots[i]);
                assert(out@ =~= roots@.take(i + 1));
            }
            assert(roots@.take(n as int) =~= roots@);
        }
        out
    }

    /// Puts the induced units in that have enough confidence, as ambiguous seeds, and
    /// gives their number.
    pub fn induce_ambiguous_seeds(&mut self, candidates: Vec<(String, i64)>, c_lo: i64) -> (added:
        usize)
        requires
            old(self).wf(),
        ensures
            final(self).wf(),
            *final(self) == (Self { vocab: final(self).vocab, ..*old(self) }),
            final(self).vocab@ == with_all_induced(old(self).vocab@, candidates@, c_lo),
            added == candidates@.filter(|c: (String, i64)| taken(c, c_lo)).len(),
    {
        let ghost all = candidates@;
        let ghost pick = |c: (String, i64)| taken(c, c_lo);
        let ghost v0 = self.vocab@;
        let mut added: usize = 0;
        proof {
            reveal(Seq::filter);
        }
        for i in 0..candidates.len()
            invariant
                self.wf(),
                *self == (Self { vocab: self.vocab, ..*old(self) }),
                all == candidates@,
                pick == (|c: (String, i64)| taken(c, c_lo)),
                self.vocab@ == with_all_induced(v0, all.take(i as int), c_lo),
                added == all.take(i as int).filter(pick).len(),
                added <= i,
        {
            proof {
                reveal(Seq::filter);
                assert(all.take(i + 1).drop_last() =~= all.take(i as int));
            }
            let n = chars_of(candidates[i].0.as_str()).len();
            if candidates[i].1 >= c_lo && n > 0 {
                let surface = candidates[i].0.clone();
                self.vocab.add_induced_ambiguous(surface, candidates[i].1);
                added = added + 1;
            }
        }
        assert(all.take(all.len() as int) =~= all);
        added
    }

    /// The surfaces of the tokens of a text.
    pub fn tokenize_to_strings(&self, text: &str) -> (surfaces: Vec<String>)
        requires
            self.wf(),
        ensures
            texts(surfaces@) == surfaces_of(
                self.vocab@,
                self.encoder().encoded(self.normalizer.normalized(text@)),
            ),
    {
        let ids = self.encode(text);
        let ghost v = self.vocab@;
        let mut surfaces: Vec<String> = Vec::new();
        assert(texts(surfaces@) =~= surfaces_of(v, ids@.take(0)));
        for i in 0..ids.len()
            invariant
                v == self.vocab@,
                texts(surfaces@) == surfaces_of(v, ids@.take(i as int)),
        {
            assert(ids@.take(i + 1).drop_last() =~= ids@.take(i as int));
            let ghost before = texts(surfaces@);
            if let Some(s) = self.vocab.get_surface(ids[i]) {
                surfaces.push(s);
                assert(texts(surfaces@) =~= before.push(s@));
            }
        }
        assert(ids@.take(ids@.len() as int) =~= ids@);
        surfaces
    }
}

fn likeliest_of(roots: &[usize], prior: &HashMap<usize, i64>) -> (best: usize)
    requires
        roots@.len() > 0,
    ensures
        best == likeliest(roots@, prior@),
{
    let n = roots.len();
    let mut best = roots[0];
    for i in 1..n
        invariant
            0 < n == roots@.len(),
            1 <= i <= n,
            best == likeliest(roots@.take(i as int), prior@),
    {
        let r = roots[i];
        let pb = prior_value(prior, best);
        let pr = prior_value(prior, r);
        assert(roots@.take(i + 1).drop_last() =~= roots@.take(i as int));
        if !(pb > pr || (pb == pr && best <= r)) {
            best = r;
        }
    }
    assert(roots@.take(n as int) =~= roots@);
    best
}

/// Appends waiting bytes as text.
fn flush(result: &mut String, bytes: &mut Vec<u8>)
    ensures
        final(result)@ == old(result)@ + flushed(old(bytes)@),
        final(bytes)@ == Seq::<u8>::empty(),
{
    if bytes.len() > 0 {
        let text = from_utf8_lossy(bytes.as_slice());
        push_text(result, text.as_str());
        bytes.clear();
    } else {
        assert(flushed(bytes@) =~= Seq::<char>::empty());
        assert(bytes@ =~= Seq::<u8>::empty());
    }
}

/// Appends a surface with its markers as spaces.
fn push_surface(result: &mut String, surface: &str)
    ensures
        final(result)@ == old(result)@ + surface_text(surface@),
{
    let chars = chars_of(surface);
    for i in 0..chars.len()
        invariant
            chars@ == surface@,
            result@ == old(result)@ + surface_text(surface@).take(i as int),
    {
        let c = if is_marker(chars[i]) {
            ' '
        } else {
            chars[i]
        };
        let ghost before = result@;
        result.push(c);
        assert(surface_text(surface@).take(i + 1) =~= surface_text(surface@).take(i as int).push(
            c,
        ));
    }
    assert(surface_text(surface@).take(chars@.len() as int) =~= surface_text(surface@));
}

/// Units that together are longer than any surface have no token, whatever follows.
proof fn lemma_too_long(v: VocabModel, units: Seq<Seq<char>>, i: int, j: int, n: int)
    requires
        v.valid(),
        0 <= i <= j < n,
        joined_units(units, i, j).len() + units[j].len() > crate::vocab::max_nat(v.max_len, 1),
    ensures
        longest_match(v, units, i, n) == longest_match(v, units, i, j),
    decreases n - j,
{
    assert(joined_units(units, i, n).len() > crate::vocab::max_nat(v.max_len, 1)) by {
        lemma_joined_len(units, i, j + 1, n);
    }
    let s = joined_units(units, i, n);
    if v.index.contains_key(s) {
        assert(v.surfaces[v.index[s] as int] == s);
    }
    if n > j + 1 {
        lemma_too_long(v, units, i, j, n - 1);
    }
}

proof fn lemma_joined_len(units: Seq<Seq<char>>, i: int, j: int, n: int)
    requires
        i <= j <= n,
    ensures
        joined_units(units, i, j).len() <= joined_units(units, i, n).len(),
    decreases n - j,
{
    if j < n {
        lemma_joined_len(units, i, j, n - 1);
    }
}

} // verus!
