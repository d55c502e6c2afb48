//! Which vocabularies can spell everything, and what keeps them so.

use crate::roundtrip::lossless;
use crate::script::{
    byte_char, byte_decoder, byte_table, extended_punct, lemma_byte_char, lemma_byte_decoder,
    DANDA, DEV_MARKER, DOUBLE_DANDA, LAT_MARKER, ZWNJ,
};
use crate::sorting::{lemma_sorted, sorted};
use crate::text::is_ascii_graphic;
use crate::tokenizer::{taken, with_all_induced, with_induced};
use crate::trainer::TrainingRules;
use crate::training::{law_training_adds_admissible_merges, made_by_merge, Training};
use crate::vocab::{
    akshara_entries, all_punct, by_id, byte_entries, byte_named, initialized, joiner_entries,
    latin_chars, latin_entries, lemma_added_valid, lemma_pushed_valid, listed_token, loaded,
    loaded_rows, loaded_token, marker_entries, max_nat, punct_entries, seed_entries, with_marker,
    Entry, TokenModel, VocabModel,
};
use vstd::prelude::*;

verus! {

/// A text that names a byte which is no visible ASCII character.
pub open spec fn names_hidden_byte(s: Seq<char>) -> bool {
    exists|b: u8| !is_ascii_graphic(b) && s == seq![#[trigger] byte_char(b)]
}

/// Byte tokens stand under the character of their byte, and nothing else stands under
/// the characters of the bytes that are no visible ASCII characters.
pub open spec fn byte_safe(v: VocabModel) -> bool {
    &&& v.valid()
    &&& forall|i: int|
        0 <= i < v.len() ==> (#[trigger] v.tokens[i] matches TokenModel::ByteFallback(b)
            ==> v.surfaces[i] == seq![byte_char(b)])
    &&& forall|b: u8|
        !is_ascii_graphic(b) && v.index.contains_key(seq![#[trigger] byte_char(b)])
            ==> v.tokens[v.index[seq![byte_char(b)]] as int] == TokenModel::ByteFallback(b)
}

/// An entry that keeps a vocabulary safe.
spec fn safe_entry(e: Entry) -> bool {
    match e.token {
        TokenModel::ByteFallback(b) => e.surface == seq![byte_char(b)],
        _ => !names_hidden_byte(e.surface),
    }
}

proof fn lemma_added_safe(v: VocabModel, e: Entry)
    requires
        byte_safe(v),
        safe_entry(e),
        v.added(e).len() <= usize::MAX,
    ensures
        byte_safe(v.added(e)),
        v.added(e).index.contains_key(e.surface),
        forall|s: Seq<char>| #[trigger]
            v.index.contains_key(s) ==> v.added(e).index.contains_key(s),
{
    let w = v.added(e);
    if v.index.contains_key(e.surface) {
        assert(w.tokens == v.tokens);
        assert(w.index == v.index);
    } else {
        lemma_added_valid(v, e);
        assert forall|i: int| 0 <= i < w.len() implies (
        #[trigger] w.tokens[i] matches TokenModel::ByteFallback(b) ==> w.surfaces[i] == seq![
            byte_char(b),
        ]) by {
            if i < v.len() {
                assert(w.tokens[i] == v.tokens[i]);
            }
        }
        assert forall|b: u8|
            !is_ascii_graphic(b) && w.index.contains_key(
                seq![#[trigger] byte_char(b)],
            ) implies w.tokens[w.index[seq![byte_char(b)]] as int] == TokenModel::ByteFallback(
            b,
        ) by {
            let s = seq![byte_char(b)];
            if s == e.surface {
                match e.token {
                    TokenModel::ByteFallback(x) => {
                        assert(seq![byte_char(x)][0] == s[0]);
                        lemma_byte_char(x, b);
                    },
                    _ => {
                        assert(names_hidden_byte(e.surface));
                    },
                }
            } else {
                assert(v.index.contains_key(s));
                assert(v.index[s] < v.len());
            }
        }
    }
}

proof fn lemma_added_all_safe(v: VocabModel, es: Seq<Entry>)
    requires
        byte_safe(v),
        forall|i: int| 0 <= i < es.len() ==> safe_entry(#[trigger] es[i]),
        v.added_all(es).len() <= usize::MAX,
    ensures
        byte_safe(v.added_all(es)),
        forall|i: int|
            0 <= i < es.len() ==> v.added_all(es).index.contains_key((#[trigger] es[i]).surface),
        forall|s: Seq<char>| #[trigger]
            v.index.contains_key(s) ==> v.added_all(es).index.contains_key(s),
    decreases es.len(),
{
    if es.len() > 0 {
        let front = es.drop_last();
        let mid = v.added_all(front);
        assert forall|i: int| 0 <= i < front.len() implies safe_entry(#[trigger] front[i]) by {
            assert(es[i] == front[i]);
        }
        assert(mid.len() <= mid.added(es.last()).len());
        lemma_added_all_safe(v, front);
        assert(safe_entry(es[es.len() - 1]));
        lemma_added_safe(mid, es.last());
        assert forall|i: int| 0 <= i < es.len() implies v.added_all(es).index.contains_key(
            (#[trigger] es[i]).surface,
        ) by {
            if i < front.len() {
                assert(front[i] == es[i]);
                assert(mid.index.contains_key(front[i].surface));
            }
        }
    }
}

/// What names a hidden byte lies in the byte alphabet beyond ASCII.
proof fn lemma_hidden(s: Seq<char>)
    ensures
        names_hidden_byte(s) ==> s.len() == 1 && '\u{7F}' < s[0] <= '\u{1FF}',
{
    if names_hidden_byte(s) {
        let b = choose|b: u8| !is_ascii_graphic(b) && s == seq![#[trigger] byte_char(b)];
        lemma_byte_char(b, b);
    }
}

/// What is listed keeps a vocabulary safe, whatever it is.
proof fn lemma_listed_safe(token: TokenModel, s: Seq<char>)
    requires
        !(token is ByteFallback),
    ensures
        match listed_token(token, s, byte_table()) {
            TokenModel::ByteFallback(b) => s == seq![byte_char(b)],
            _ => !names_hidden_byte(s),
        },
{
    if s.len() == 1 {
        lemma_named_byte(s[0], 256);
        assert(s =~= seq![s[0]]);
    }
    if names_hidden_byte(s) {
        lemma_hidden(s);
        let b = choose|b: u8| !is_ascii_graphic(b) && s == seq![#[trigger] byte_char(b)];
        lemma_byte_named(b, 256);
    }
}

/// The base inventory as one list of entries.
pub open spec fn base_entries(
    aksharas: Seq<(Seq<char>, Seq<usize>)>,
    seeds: Seq<Seq<char>>,
    punct: Seq<Seq<char>>,
    strict: Seq<Seq<char>>,
    ambiguous: Seq<Seq<char>>,
    table: Seq<char>,
) -> Seq<Entry> {
    akshara_entries(aksharas, table) + seed_entries(
        seeds + strict + ambiguous,
        strict,
        ambiguous,
        table,
    ) + marker_entries() + punct_entries(all_punct(punct), table) + latin_entries()
        + byte_entries(table) + joiner_entries()
}

proof fn lemma_added_all_concat(v: VocabModel, p: Seq<Entry>, q: Seq<Entry>)
    ensures
        v.added_all(p + q) == v.added_all(p).added_all(q),
    decreases q.len(),
{
    if q.len() == 0 {
        assert(p + q =~= p);
    } else {
        assert((p + q).drop_last() =~= p + q.drop_last());
        lemma_added_all_concat(v, p, q.drop_last());
    }
}

pub proof fn lemma_base_entries(
    v: VocabModel,
    aksharas: Seq<(Seq<char>, Seq<usize>)>,
    seeds: Seq<Seq<char>>,
    punct: Seq<Seq<char>>,
    strict: Seq<Seq<char>>,
    ambiguous: Seq<Seq<char>>,
    table: Seq<char>,
)
    ensures
        initialized(v, aksharas, seeds, punct, strict, ambiguous, table) == v.added_all(
            base_entries(aksharas, seeds, punct, strict, ambiguous, table),
        ),
{
    let e1 = akshara_entries(aksharas, table);
    let e2 = seed_entries(seeds + strict + ambiguous, strict, ambiguous, table);
    let e3 = marker_entries();
    let e4 = punct_entries(all_punct(punct), table);
    let e5 = latin_entries();
    let e6 = byte_entries(table);
    let e7 = joiner_entries();
    lemma_added_all_concat(v, e1, e2);
    lemma_added_all_concat(v, e1 + e2, e3);
    lemma_added_all_concat(v, e1 + e2 + e3, e4);
    lemma_added_all_concat(v, e1 + e2 + e3 + e4, e5);
    lemma_added_all_concat(v, e1 + e2 + e3 + e4 + e5, e6);
    lemma_added_all_concat(v, e1 + e2 + e3 + e4 + e5 + e6, e7);
}

proof fn lemma_concat_contains<T>(p: Seq<T>, q: Seq<T>, x: T)
    ensures
        (p + q).contains(x) <==> p.contains(x) || q.contains(x),
{
    if p.contains(x) {
        let i = choose|i: int| 0 <= i < p.len() && p[i] == x;
        assert((p + q)[i] == x);
    }
    if q.contains(x) {
        let i = choose|i: int| 0 <= i < q.len() && q[i] == x;
        assert((p + q)[p.len() + i] == x);
    }
    if (p + q).contains(x) {
        let i = choose|i: int| 0 <= i < (p + q).len() && (p + q)[i] == x;
        if i < p.len() {
            assert(p[i] == x);
        } else {
            assert(q[i - p.len()] == x);
        }
    }
}

/// What the base inventory holds.
proof fn lemma_base_parts(
    aksharas: Seq<(Seq<char>, Seq<usize>)>,
    seeds: Seq<Seq<char>>,
    punct: Seq<Seq<char>>,
    strict: Seq<Seq<char>>,
    ambiguous: Seq<Seq<char>>,
    table: Seq<char>,
    e: Entry,
)
    ensures
        base_entries(aksharas, seeds, punct, strict, ambiguous, table).contains(e) <==> {
            ||| akshara_entries(aksharas, table).contains(e)
            ||| seed_entries(seeds + strict + ambiguous, strict, ambiguous, table).contains(e)
            ||| marker_entries().contains(e)
            ||| punct_entries(all_punct(punct), table).contains(e)
            ||| latin_entries().contains(e)
            ||| byte_entries(table).contains(e)
            ||| joiner_entries().contains(e)
        },
{
    let e1 = akshara_entries(aksharas, table);
    let e2 = seed_entries(seeds + strict + ambiguous, strict, ambiguous, table);
    let e3 = marker_entries();
    let e4 = punct_entries(all_punct(punct), table);
    let e5 = latin_entries();
    let e6 = byte_entries(table);
    let e7 = joiner_entries();
    lemma_concat_contains(e1, e2, e);
    lemma_concat_contains(e1 + e2, e3, e);
    lemma_concat_contains(e1 + e2 + e3, e4, e);
    lemma_concat_contains(e1 + e2 + e3 + e4, e5, e);
    lemma_concat_contains(e1 + e2 + e3 + e4 + e5, e6, e);
    lemma_concat_contains(e1 + e2 + e3 + e4 + e5 + e6, e7, e);
}

/// Every entry of the base inventory keeps a vocabulary safe.
proof fn lemma_base_safe(
    aksharas: Seq<(Seq<char>, Seq<usize>)>,
    seeds: Seq<Seq<char>>,
    punct: Seq<Seq<char>>,
    strict: Seq<Seq<char>>,
    ambiguous: Seq<Seq<char>>,
    e: Entry,
)
    requires
        base_entries(aksharas, seeds, punct, strict, ambiguous, byte_table()).contains(e),
    ensures
        safe_entry(e),
{
    let table = byte_table();
    lemma_base_parts(aksharas, seeds, punct, strict, ambiguous, table, e);
    let e1 = akshara_entries(aksharas, table);
    let all = seeds + strict + ambiguous;
    let e2 = seed_entries(all, strict, ambiguous, table);
    let e4 = punct_entries(all_punct(punct), table);
    let e5 = latin_entries();
    let e6 = byte_entries(table);
    lemma_hidden(e.surface);
    if e1.contains(e) {
        let i = choose|i: int| 0 <= i < e1.len() && e1[i] == e;
        lemma_listed_safe(TokenModel::Akshara(aksharas[i].0, aksharas[i].1), aksharas[i].0);
    } else if e2.contains(e) {
        let i = choose|i: int| 0 <= i < e2.len() && e2[i] == e;
        lemma_listed_safe(TokenModel::SeededMorpheme(all[i]), all[i]);
    } else if e4.contains(e) {
        let i = choose|i: int| 0 <= i < e4.len() && e4[i] == e;
        lemma_listed_safe(TokenModel::Punctuation(all_punct(punct)[i]), all_punct(punct)[i]);
    } else if e5.contains(e) {
        let i = choose|i: int| 0 <= i < e5.len() && e5[i] == e;
        assert(e5[i].surface =~= seq![latin_chars()[i]]);
        assert(latin_chars()[i] <= '\u{7F}');
    } else if e6.contains(e) {
        let i = choose|i: int| 0 <= i < e6.len() && e6[i] == e;
        assert(table[i] == byte_char(i as u8));
    }
}

/// The base inventory makes a vocabulary that can spell everything, whatever is listed.
pub proof fn law_base_inventory_is_lossless(
    v: VocabModel,
    aksharas: Seq<(Seq<char>, Seq<usize>)>,
    seeds: Seq<Seq<char>>,
    punct: Seq<Seq<char>>,
    strict: Seq<Seq<char>>,
    ambiguous: Seq<Seq<char>>,
)
    requires
        v == VocabModel::empty() || byte_safe(v),
        initialized(v, aksharas, seeds, punct, strict, ambiguous, byte_table()).valid(),
    ensures
        lossless(initialized(v, aksharas, seeds, punct, strict, ambiguous, byte_table())),
{
    let table = byte_table();
    let es = base_entries(aksharas, seeds, punct, strict, ambiguous, table);
    let w = initialized(v, aksharas, seeds, punct, strict, ambiguous, table);
    lemma_base_entries(v, aksharas, seeds, punct, strict, ambiguous, table);
    assert forall|i: int| 0 <= i < es.len() implies safe_entry(#[trigger] es[i]) by {
        assert(es.contains(es[i]));
        lemma_base_safe(aksharas, seeds, punct, strict, ambiguous, es[i]);
    }
    lemma_added_all_safe(v, es);
    assert forall|e: Entry| es.contains(e) implies w.lookup(#[trigger] e.surface) is Some by {
        let i = choose|i: int| 0 <= i < es.len() && es[i] == e;
        assert(w.index.contains_key(es[i].surface));
    }
    let ms = marker_entries();
    let dev = ms[0];
    let lat = ms[1];
    let zwnj = joiner_entries()[0];
    assert(ms.contains(dev) && ms.contains(lat) && joiner_entries().contains(zwnj));
    lemma_base_parts(aksharas, seeds, punct, strict, ambiguous, table, dev);
    lemma_base_parts(aksharas, seeds, punct, strict, ambiguous, table, lat);
    lemma_base_parts(aksharas, seeds, punct, strict, ambiguous, table, zwnj);
    assert(w.lookup(dev.surface) is Some && w.lookup(lat.surface) is Some);
    assert(w.lookup(zwnj.surface) is Some);
    assert forall|b: u8| w.lookup(seq![#[trigger] byte_char(b)]) is Some by {
        let e = byte_entries(table)[b as int];
        assert(byte_entries(table).contains(e));
        assert(table[b as int] == byte_char(b));
        lemma_base_parts(aksharas, seeds, punct, strict, ambiguous, table, e);
        assert(w.lookup(e.surface) is Some);
    }
    assert forall|b: u8|
        !is_ascii_graphic(b) implies w.tokens[w.index[seq![#[trigger] byte_char(b)]] as int]
        == TokenModel::ByteFallback(b) by {
        assert(w.lookup(seq![byte_char(b)]) is Some);
    }
}

proof fn lemma_added_all_known(v: VocabModel, es: Seq<Entry>, s: Seq<char>)
    requires
        v.index.contains_key(s) || exists|i: int|
            0 <= i < es.len() && (#[trigger] es[i]).surface == s,
    ensures
        v.added_all(es).index.contains_key(s),
    decreases es.len(),
{
    if es.len() > 0 {
        let front = es.drop_last();
        if es.last().surface != s && !v.index.contains_key(s) {
            let i = choose|i: int| 0 <= i < es.len() && (#[trigger] es[i]).surface == s;
            assert(front[i].surface == s);
        }
        if es.last().surface != s {
            lemma_added_all_known(v, front, s);
        }
    }
}

/// What is put in as a seed joins the sets that name it.
proof fn lemma_added_all_flags(v: VocabModel, es: Seq<Entry>, i: int)
    requires
        0 <= i < es.len(),
    ensures
        ({
            let w = v.added_all(es);
            &&& w.index.contains_key(es[i].surface)
            &&& es[i].strict ==> w.strict.contains(w.index[es[i].surface])
            &&& es[i].ambiguous ==> w.ambiguous.contains(w.index[es[i].surface])
        }),
    decreases es.len(),
{
    let front = es.drop_last();
    lemma_added_all_known(v, es, es[i].surface);
    if i < front.len() {
        assert(front[i] == es[i]);
        lemma_added_all_flags(v, front, i);
    }
}

/// Every listed akshara, morpheme and sign has a token, and so have the dandas; what is
/// named strict or ambiguous is a seed of that kind.
pub proof fn law_base_inventory_is_known(
    v: VocabModel,
    aksharas: Seq<(Seq<char>, Seq<usize>)>,
    seeds: Seq<Seq<char>>,
    punct: Seq<Seq<char>>,
    strict: Seq<Seq<char>>,
    ambiguous: Seq<Seq<char>>,
    table: Seq<char>,
    s: Seq<char>,
)
    requires
        ({
            ||| exists|i: int| 0 <= i < aksharas.len() && (#[trigger] aksharas[i]).0 == s
            ||| seeds.contains(s)
            ||| strict.contains(s)
            ||| ambiguous.contains(s)
            ||| punct.contains(s)
            ||| s == seq![DANDA]
            ||| s == seq![DOUBLE_DANDA]
        }),
    ensures
        ({
            let w = initialized(v, aksharas, seeds, punct, strict, ambiguous, table);
            &&& w.lookup(s) is Some
            &&& strict.contains(s) ==> w.strict.contains(w.lookup(s)->0)
            &&& ambiguous.contains(s) ==> w.ambiguous.contains(w.lookup(s)->0)
        }),
{
    let es = base_entries(aksharas, seeds, punct, strict, ambiguous, table);
    lemma_base_entries(v, aksharas, seeds, punct, strict, ambiguous, table);
    let all = seeds + strict + ambiguous;
    let e1 = akshara_entries(aksharas, table);
    let e2 = seed_entries(all, strict, ambiguous, table);
    let signs = all_punct(punct);
    let e4 = punct_entries(signs, table);
    let dandas = seq![seq![DANDA], seq![DOUBLE_DANDA]];
    let more = extended_punct().map_values(|c: char| seq![c]);
    lemma_concat_contains(seeds, strict, s);
    lemma_concat_contains(seeds + strict, ambiguous, s);
    lemma_concat_contains(punct, dandas, s);
    lemma_concat_contains(punct + dandas, more, s);
    assert(dandas[0] == seq![DANDA] && dandas[1] == seq![DOUBLE_DANDA]);
    let e = if all.contains(s) {
        let i = choose|i: int| 0 <= i < all.len() && all[i] == s;
        assert(e2[i].surface == s);
        e2[i]
    } else if signs.contains(s) {
        let i = choose|i: int| 0 <= i < signs.len() && signs[i] == s;
        assert(e4[i].surface == s);
        e4[i]
    } else {
        let i = choose|i: int| 0 <= i < aksharas.len() && (#[trigger] aksharas[i]).0 == s;
        assert(e1[i].surface == s);
        e1[i]
    };
    assert(e1.contains(e) || e2.contains(e) || e4.contains(e));
    lemma_base_parts(aksharas, seeds, punct, strict, ambiguous, table, e);
    let i = choose|i: int| 0 <= i < es.len() && es[i] == e;
    lemma_added_all_flags(v, es, i);
}

/// The longest surface is as long as the vocabulary says.
pub open spec fn max_len_exact(v: VocabModel) -> bool {
    &&& forall|i: int| 0 <= i < v.surfaces.len() ==> (#[trigger] v.surfaces[i]).len() <= v.max_len
    &&& v.max_len > 0 ==> exists|i: int|
        0 <= i < v.surfaces.len() && (#[trigger] v.surfaces[i]).len() == v.max_len
}

/// A new surface at the end, or none.
proof fn lemma_grown(v: VocabModel, w: VocabModel, s: Seq<char>)
    requires
        v.valid(),
        (w.surfaces == v.surfaces && w.max_len == v.max_len) || (!v.index.contains_key(s)
            && w.surfaces == v.surfaces.push(s) && w.max_len == max_nat(v.max_len, s.len())),
    ensures
        v.surfaces.no_duplicates() ==> w.surfaces.no_duplicates(),
        max_len_exact(v) ==> max_len_exact(w),
{
    if w.surfaces != v.surfaces {
        let n = v.surfaces.len() as int;
        if v.surfaces.no_duplicates() {
            assert forall|i: int, j: int|
                0 <= i < w.surfaces.len() && 0 <= j < w.surfaces.len() && i
                    != j implies w.surfaces[i] != w.surfaces[j] by {
                if i < n {
                    assert(v.index.contains_key(v.surfaces[i]));
                }
                if j < n {
                    assert(v.index.contains_key(v.surfaces[j]));
                }
            }
        }
        if max_len_exact(v) {
            assert forall|i: int| 0 <= i < w.surfaces.len() implies (
            #[trigger] w.surfaces[i]).len() <= w.max_len by {
                if i < n {
                    assert(w.surfaces[i] == v.surfaces[i]);
                }
            }
            if s.len() >= v.max_len {
                assert(w.surfaces[n].len() == w.max_len);
            } else {
                let i = choose|i: int|
                    0 <= i < v.surfaces.len() && (#[trigger] v.surfaces[i]).len() == v.max_len;
                assert(w.surfaces[i].len() == w.max_len);
            }
        }
    }
}

/// Putting a token in keeps the surfaces distinct and the longest length exact.
pub proof fn law_added_token_keeps_surfaces_distinct(v: VocabModel, e: Entry)
    requires
        v.valid(),
    ensures
        v.surfaces.no_duplicates() ==> v.added(e).surfaces.no_duplicates(),
        max_len_exact(v) ==> max_len_exact(v.added(e)),
{
    lemma_grown(v, v.added(e), e.surface);
}

/// A merge keeps the surfaces distinct and the longest length exact.
pub proof fn law_merge_keeps_surfaces_distinct(
    v: VocabModel,
    a: usize,
    b: usize,
    roots: Seq<usize>,
)
    requires
        v.valid(),
    ensures
        v.surfaces.no_duplicates() ==> v.merged(a, b, roots).0.surfaces.no_duplicates(),
        max_len_exact(v) ==> max_len_exact(v.merged(a, b, roots).0),
{
    lemma_grown(v, v.merged(a, b, roots).0, v.surface_of(a) + v.surface_of(b));
}

/// Induction keeps the surfaces distinct and the longest length exact, and leaves a
/// vocabulary able to spell everything.
pub proof fn law_induction_keeps_surfaces_distinct(
    v: VocabModel,
    candidates: Seq<(String, i64)>,
    c_lo: i64,
)
    requires
        v.valid(),
        with_all_induced(v, candidates, c_lo).len() <= usize::MAX,
    ensures
        ({
            let w = with_all_induced(v, candidates, c_lo);
            &&& w.valid()
            &&& v.len() <= w.len()
            &&& v.surfaces.no_duplicates() ==> w.surfaces.no_duplicates()
            &&& max_len_exact(v) ==> max_len_exact(w)
            &&& lossless(v) ==> lossless(w)
        }),
    decreases candidates.len(),
{
    if candidates.len() > 0 {
        let c = candidates.last();
        let w = with_all_induced(v, candidates.drop_last(), c_lo);
        law_induction_keeps_surfaces_distinct(v, candidates.drop_last(), c_lo);
        if taken(c, c_lo) {
            let e = Entry {
                token: TokenModel::SeededMorpheme(c.0@),
                surface: c.0@,
                strict: false,
                ambiguous: true,
            };
            let u = w.added(e);
            let x = with_induced(w, c.0@, c.1);
            law_added_token_keeps_surfaces_distinct(w, e);
            if w.index.contains_key(e.surface) {
                assert(u.valid());
            } else {
                lemma_added_valid(w, e);
            }
            assert(u.index.contains_key(e.surface));
            if lossless(w) {
                lemma_added_lossless(w, e);
                assert(lossless(x));
            }
        }
    }
}

/// A token that is no byte leaves a vocabulary able to spell everything.
proof fn lemma_added_lossless(v: VocabModel, e: Entry)
    requires
        lossless(v),
        !(e.token is ByteFallback),
        v.added(e).valid(),
    ensures
        lossless(v.added(e)),
{
    let w = v.added(e);
    assert forall|s: Seq<char>| v.lookup(s) is Some implies #[trigger] w.lookup(s) == v.lookup(
        s,
    ) by {}
    assert forall|i: int| 0 <= i < v.len() implies #[trigger] w.tokens[i] == v.tokens[i]
        && w.surfaces[i] == v.surfaces[i] by {}
    assert forall|b: u8| w.lookup(seq![#[trigger] byte_char(b)]) is Some by {
        assert(v.lookup(seq![byte_char(b)]) is Some);
    }
    assert forall|b: u8|
        !is_ascii_graphic(b) implies w.tokens[w.index[seq![#[trigger] byte_char(b)]] as int]
        == TokenModel::ByteFallback(b) by {
        let s = seq![byte_char(b)];
        assert(v.lookup(s) is Some);
        assert(w.lookup(s) == v.lookup(s));
        assert(v.index[s] < v.len());
    }
    assert(w.lookup(seq![DEV_MARKER]) is Some);
    assert(w.lookup(seq![LAT_MARKER]) is Some);
    assert(w.lookup(seq![ZWNJ]) is Some);
}

proof fn lemma_added_all_distinct(v: VocabModel, es: Seq<Entry>)
    requires
        v.valid(),
        v.added_all(es).len() <= usize::MAX,
    ensures
        v.added_all(es).valid(),
        v.surfaces.no_duplicates() ==> v.added_all(es).surfaces.no_duplicates(),
        max_len_exact(v) ==> max_len_exact(v.added_all(es)),
    decreases es.len(),
{
    if es.len() > 0 {
        let mid = v.added_all(es.drop_last());
        assert(mid.len() <= mid.added(es.last()).len());
        lemma_added_all_distinct(v, es.drop_last());
        law_added_token_keeps_surfaces_distinct(mid, es.last());
        if !mid.index.contains_key(es.last().surface) {
            lemma_added_valid(mid, es.last());
        }
    }
}

/// The base inventory has no surface twice, whatever is listed, and its longest length
/// is exact.
pub proof fn law_base_inventory_is_distinct(
    v: VocabModel,
    aksharas: Seq<(Seq<char>, Seq<usize>)>,
    seeds: Seq<Seq<char>>,
    punct: Seq<Seq<char>>,
    strict: Seq<Seq<char>>,
    ambiguous: Seq<Seq<char>>,
    table: Seq<char>,
)
    requires
        v.valid(),
        initialized(v, aksharas, seeds, punct, strict, ambiguous, table).valid(),
    ensures
        ({
            let w = initialized(v, aksharas, seeds, punct, strict, ambiguous, table);
            &&& v.surfaces.no_duplicates() ==> w.surfaces.no_duplicates()
            &&& max_len_exact(v) ==> max_len_exact(w)
        }),
{
    lemma_base_entries(v, aksharas, seeds, punct, strict, ambiguous, table);
    lemma_added_all_distinct(
        v,
        base_entries(aksharas, seeds, punct, strict, ambiguous, table),
    );
}

/// Training leaves a vocabulary able to spell everything.
pub proof fn law_training_keeps_lossless(t: Training, rules: TrainingRules, budget: nat)
    requires
        lossless(t.vocab),
        budget <= usize::MAX,
    ensures
        lossless(t.trained(rules, budget).vocab),
{
    let v = t.vocab;
    let w = t.trained(rules, budget).vocab;
    law_training_adds_admissible_merges(t, rules, budget);
    assert forall|s: Seq<char>| v.lookup(s) is Some implies #[trigger] w.lookup(s) == v.lookup(
        s,
    ) by {
        assert(v.index.contains_key(s));
        assert(v.index.dom().contains(s));
        assert(w.index.contains_key(s));
    }
    assert forall|i: int| 0 <= i < v.len() implies #[trigger] w.tokens[i] == v.tokens[i]
        && w.surfaces[i] == v.surfaces[i] by {
        assert(w.tokens.take(v.tokens.len() as int)[i] == w.tokens[i]);
        assert(w.surfaces.take(v.surfaces.len() as int)[i] == w.surfaces[i]);
    }
    assert forall|b: u8| w.lookup(seq![#[trigger] byte_char(b)]) is Some by {
        assert(v.lookup(seq![byte_char(b)]) is Some);
    }
    assert forall|b: u8|
        !is_ascii_graphic(b) implies w.tokens[w.index[seq![#[trigger] byte_char(b)]] as int]
        == TokenModel::ByteFallback(b) by {
        let s = seq![byte_char(b)];
        assert(v.lookup(s) is Some);
        assert(w.lookup(s) == v.lookup(s));
        assert(v.index[s] < v.len());
    }
    assert forall|i: int| 0 <= i < w.len() implies (
    #[trigger] w.tokens[i] matches TokenModel::ByteFallback(b) ==> w.surfaces[i] == seq![
        byte_char(b),
    ]) by {
        if i >= v.len() {
            assert(made_by_merge(rules, w, i));
        }
    }
    assert(w.lookup(seq![DEV_MARKER]) is Some);
    assert(w.lookup(seq![LAT_MARKER]) is Some);
    assert(w.lookup(seq![ZWNJ]) is Some);
}

/// What the tokens of a list of surfaces are.
proof fn lemma_loaded_rows(rows: Seq<(usize, Seq<char>)>)
    requires
        rows.len() <= usize::MAX,
    ensures
        ({
            let v = loaded_rows(rows, byte_decoder());
            &&& v.valid()
            &&& v.len() == rows.len()
            &&& forall|i: int|
                0 <= i < rows.len() ==> v.surfaces[i] == (#[trigger] rows[i]).1 && v.tokens[i]
                    == loaded_token(rows[i].1, byte_decoder())
        }),
    decreases rows.len(),
{
    let v = loaded_rows(rows, byte_decoder());
    if rows.len() > 0 {
        let front = rows.drop_last();
        lemma_loaded_rows(front);
        let w = loaded_rows(front, byte_decoder());
        let t = loaded_token(rows.last().1, byte_decoder());
        lemma_pushed_valid(w, t, rows.last().1, t.script(), Seq::empty());
        assert forall|i: int| 0 <= i < rows.len() implies v.surfaces[i] == (#[trigger] rows[i]).1
            && v.tokens[i] == loaded_token(rows[i].1, byte_decoder()) by {
            if i < front.len() {
                assert(front[i] == rows[i]);
            }
        }
    }
}

proof fn lemma_with_marker(v: VocabModel, token: TokenModel, marker: char)
    requires
        v.valid(),
        with_marker(v, token, marker).len() <= usize::MAX,
    ensures
        ({
            let w = with_marker(v, token, marker);
            &&& w.valid()
            &&& w.index.contains_key(seq![marker])
            &&& v.len() <= w.len()
            &&& forall|i: int|
                0 <= i < v.len() ==> w.surfaces[i] == v.surfaces[i] && #[trigger] w.tokens[i]
                    == v.tokens[i]
            &&& forall|i: int|
                v.len() <= i < w.len() ==> #[trigger] w.tokens[i] == token
        }),
{
    let w = with_marker(v, token, marker);
    if !v.index.contains_key(seq![marker]) {
        lemma_pushed_valid(v, token, seq![marker], token.script(), Seq::empty());
        let p = v.pushed(token, seq![marker], token.script(), Seq::empty());
        assert forall|i: int| 0 <= i < w.surfaces.len() implies (#[trigger] w.surfaces[i]).len()
            <= crate::vocab::max_nat(w.max_len, 1) by {
            if i < v.surfaces.len() {
                assert(w.surfaces[i] == v.surfaces[i]);
            }
        }
        assert(w.valid()) by {
            assert(p.valid());
        }
    }
}

proof fn lemma_byte_named(b: u8, n: nat)
    requires
        b < n <= 256,
    ensures
        byte_named(byte_table(), byte_char(b), n) == Some(b),
    decreases n,
{
    let i = (n - 1) as u8;
    assert(byte_table()[n - 1] == byte_char(i));
    lemma_byte_char(i, b);
    if i != b {
        lemma_byte_named(b, (n - 1) as nat);
    }
}

proof fn lemma_named_byte(ch: char, n: nat)
    requires
        n <= 256,
    ensures
        byte_named(byte_table(), ch, n) matches Some(b) ==> byte_char(b) == ch,
    decreases n,
{
    if n > 0 {
        assert(byte_table()[n - 1] == byte_char((n - 1) as u8));
        lemma_named_byte(ch, (n - 1) as nat);
    }
}

/// What is loaded under the character of a byte is a byte token, or a letter or digit.
proof fn lemma_loaded_token(s: Seq<char>)
    ensures
        loaded_token(s, byte_decoder()) matches TokenModel::ByteFallback(b) ==> s == seq![
            byte_char(b),
        ],
        forall|b: u8|
            !is_ascii_graphic(b) && s == seq![#[trigger] byte_char(b)] ==> loaded_token(
                s,
                byte_decoder(),
            ) == TokenModel::ByteFallback(b),
{
    if s.len() == 1 {
        lemma_byte_decoder(s[0], 0);
        assert(s =~= seq![s[0]]);
    }
    assert forall|b: u8|
        !is_ascii_graphic(b) && s == seq![#[trigger] byte_char(b)] implies loaded_token(
        s,
        byte_decoder(),
    ) == TokenModel::ByteFallback(b) by {
        lemma_byte_char(b, b);
        lemma_byte_decoder(s[0], b);
        assert(s[0] == byte_char(b));
    }
}

/// A vocabulary loaded from a list that names every byte and the non-joiner can spell
/// everything, whatever else the list holds.
pub proof fn law_loaded_vocabulary_is_lossless(pairs: Seq<(usize, Seq<char>)>)
    requires
        loaded(pairs, byte_decoder()).valid(),
        exists|i: int| 0 <= i < pairs.len() && (#[trigger] pairs[i]).1 == seq![ZWNJ],
        forall|b: u8|
            exists|i: int|
                0 <= i < pairs.len() && (#[trigger] pairs[i]).1 == seq![#[trigger] byte_char(b)],
    ensures
        lossless(loaded(pairs, byte_decoder())),
{
    let rows = sorted(pairs, by_id());
    assert(crate::sorting::total_order(by_id()));
    lemma_sorted(pairs, by_id());
    let dev = TokenModel::SeededMorpheme(seq![DEV_MARKER]);
    let lat = TokenModel::Latin(seq![LAT_MARKER]);
    let v = loaded_rows(rows, byte_decoder());
    let w = with_marker(v, dev, DEV_MARKER);
    let u = with_marker(w, lat, LAT_MARKER);
    lemma_loaded_rows_len(rows);
    lemma_loaded_rows(rows);
    lemma_with_marker(v, dev, DEV_MARKER);
    lemma_with_marker(w, lat, LAT_MARKER);
    assert forall|i: int| 0 <= i < pairs.len() implies u.lookup((#[trigger] pairs[i]).1) is Some by {
        let x = pairs[i];
        vstd::seq_lib::to_multiset_contains(pairs, x);
        vstd::seq_lib::to_multiset_contains(rows, x);
        assert(pairs.contains(x));
        let k = choose|k: int| 0 <= k < rows.len() && rows[k] == x;
        assert(v.surfaces[k] == rows[k].1);
        assert(w.tokens[k] == v.tokens[k]);
        assert(u.tokens[k] == w.tokens[k]);
        assert(u.surfaces[k] == x.1);
    }
    assert forall|i: int| 0 <= i < u.len() implies (
    #[trigger] u.tokens[i] matches TokenModel::ByteFallback(b) ==> u.surfaces[i] == seq![
        byte_char(b),
    ]) by {
        if i < w.len() {
            assert(u.tokens[i] == w.tokens[i]);
            if i < v.len() {
                assert(w.tokens[i] == v.tokens[i]);
                assert(rows[i].1 == v.surfaces[i]);
                lemma_loaded_token(rows[i].1);
            }
        }
    }
    assert forall|b: u8| u.lookup(seq![#[trigger] byte_char(b)]) is Some by {
        let i = choose|i: int|
            0 <= i < pairs.len() && (#[trigger] pairs[i]).1 == seq![byte_char(b)];
        assert(u.lookup(pairs[i].1) is Some);
    }
    assert forall|b: u8|
        !is_ascii_graphic(b) implies u.tokens[u.index[seq![#[trigger] byte_char(b)]] as int]
        == TokenModel::ByteFallback(b) by {
        let s = seq![byte_char(b)];
        assert(u.lookup(s) is Some);
        let i = u.index[s] as int;
        assert(u.surfaces[i] == s);
        lemma_byte_char(b, b);
        assert(s[0] == byte_char(b));
        if i >= w.len() {
            assert(u.surfaces[i] == seq![LAT_MARKER]);
            assert(seq![LAT_MARKER][0] == s[0]);
        } else {
            assert(u.tokens[i] == w.tokens[i]);
            if i >= v.len() {
                assert(w.surfaces[i] == seq![DEV_MARKER]);
                assert(seq![DEV_MARKER][0] == s[0]);
            } else {
                assert(w.tokens[i] == v.tokens[i]);
                assert(rows[i].1 == v.surfaces[i]);
                lemma_loaded_token(rows[i].1);
            }
        }
    }
    let z = choose|i: int| 0 <= i < pairs.len() && (#[trigger] pairs[i]).1 == seq![ZWNJ];
    assert(u.lookup(pairs[z].1) is Some);
    assert(u.lookup(seq![DEV_MARKER]) is Some) by {
        let s = seq![DEV_MARKER];
        assert(w.index.contains_key(s));
        let i = w.index[s] as int;
        assert(w.surfaces[i] == s);
        assert(u.tokens[i] == w.tokens[i]);
        assert(u.surfaces[i] == s);
    }
}

proof fn lemma_loaded_rows_len(rows: Seq<(usize, Seq<char>)>)
    ensures
        loaded_rows(rows, byte_decoder()).len() == rows.len(),
    decreases rows.len(),
{
    if rows.len() > 0 {
        lemma_loaded_rows_len(rows.drop_last());
    }
}

/// A vocabulary as the list of its numbered surfaces.
pub open spec fn listed(v: VocabModel) -> Seq<(usize, Seq<char>)> {
    Seq::new(v.surfaces.len(), |i: int| (i as usize, v.surfaces[i]))
}

/// A vocabulary that is written out as a list and loaded again has the same surfaces
/// under the same numbers, and matching finds the same tokens if no surface stands
/// twice.
pub proof fn law_listed_vocabulary_loads_back(v: VocabModel)
    requires
        v.valid(),
        v.lookup(seq![DEV_MARKER]) is Some,
        v.lookup(seq![LAT_MARKER]) is Some,
    ensures
        loaded(listed(v), byte_decoder()).surfaces == v.surfaces,
        v.surfaces.no_duplicates() ==> loaded(listed(v), byte_decoder()).index == v.index,
        loaded(listed(v), byte_decoder()).valid(),
{
    let rows = listed(v);
    crate::sorting::lemma_sorted_already(rows, by_id());
    lemma_loaded_rows(rows);
    let w = loaded_rows(rows, byte_decoder());
    assert(w.surfaces =~= v.surfaces) by {
        assert forall|i: int| 0 <= i < v.surfaces.len() implies #[trigger] w.surfaces[i]
            == v.surfaces[i] by {
            assert(rows[i].1 == v.surfaces[i]);
        }
    }
    if v.surfaces.no_duplicates() {
        lemma_same_index(v, w);
    }
    assert(w.index.contains_key(w.surfaces[v.index[seq![DEV_MARKER]] as int]));
    assert(w.index.contains_key(w.surfaces[v.index[seq![LAT_MARKER]] as int]));
}

/// Where no surface stands twice, the surfaces fix the index.
proof fn lemma_same_index(v: VocabModel, w: VocabModel)
    requires
        v.valid(),
        w.valid(),
        v.surfaces == w.surfaces,
        v.surfaces.no_duplicates(),
    ensures
        v.index == w.index,
{
    assert forall|s: Seq<char>| #[trigger] v.index.contains_key(s) <==> w.index.contains_key(s) by {
        if v.index.contains_key(s) {
            assert(w.index.contains_key(w.surfaces[v.index[s] as int]));
        }
        if w.index.contains_key(s) {
            assert(v.index.contains_key(v.surfaces[w.index[s] as int]));
        }
    }
    assert forall|s: Seq<char>| v.index.contains_key(s) implies #[trigger] v.index[s]
        == w.index[s] by {
        assert(w.index.contains_key(s));
        assert(v.surfaces[v.index[s] as int] == v.surfaces[w.index[s] as int]);
    }
    assert(v.index =~= w.index);
}

/// Training makes no surface twice, and keeps the longest length exact.
pub proof fn law_training_keeps_surfaces_distinct(t: Training, rules: TrainingRules, budget: nat)
    requires
        t.vocab.valid(),
        budget <= usize::MAX,
    ensures
        t.vocab.surfaces.no_duplicates() ==> t.trained(
            rules,
            budget,
        ).vocab.surfaces.no_duplicates(),
        max_len_exact(t.vocab) ==> max_len_exact(t.trained(rules, budget).vocab),
    decreases crate::corpus::token_count(t.words),
{
    if t.vocab.len() < budget {
        if let Some(p) = t.next_merge(rules) {
            assert(t.best(rules, p));
            crate::corpus::lemma_merged_words_shrink(t.words, p.0, p.1, t.grown(rules, p).1);
            let roots = rules.narrowed(t.vocab, p.0, p.1);
            crate::training::lemma_merged_extends(t.vocab, p.0, p.1, roots);
            law_merge_keeps_surfaces_distinct(t.vocab, p.0, p.1, roots);
            law_training_keeps_surfaces_distinct(t.step(rules, p), rules, budget);
        }
    }
}

} // verus!
