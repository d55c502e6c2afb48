//! Which tokens a vocabulary holds, and what they are.

use crate::akshara::Akshara;
use crate::counting::{lemma_places, places};
use crate::script::{
    byte_char, byte_decoder, byte_table, extended_punct, law_extended_punctuation, lemma_byte_char,
    lemma_byte_decoder, Script,
};
use crate::sorting::{lemma_sorted, lemma_sorted_stable, sorted, total_order};
use crate::text::{is_ascii_alphanumeric, texts};
use crate::vocab::{
    akshara_entries, akshara_texts, all_alphanumeric, all_punct, by_id, byte_entries, byte_named,
    initialized, joiner_entries, latin_chars, latin_entries, listed_token, loaded, loaded_rows,
    loaded_token, marker_entries, pair_texts, punct_entries, rootless, seed_entries, with_marker,
    Entry, TokenModel, VocabModel,
};
use vstd::prelude::*;

verus! {

/// The script of each kind of token.
pub open spec fn script_of_kind(t: TokenModel) -> Script {
    if t is Punctuation {
        Script::PUN
    } else if t is ZWNJ {
        Script::FMT
    } else if t is ByteFallback {
        Script::MAL
    } else if t is Latin {
        Script::LAT
    } else {
        Script::DEV
    }
}

/// Putting in a token: a surface that is known keeps its token, and a new one comes last,
/// in the script of its kind; either joins the seed sets that the entry names, and no
/// other token joins them.
pub proof fn law_token_is_put_in(v: VocabModel, e: Entry, id: usize)
    ensures
        v.index.contains_key(e.surface) ==> {
            let w = v.added(e);
            &&& w.tokens == v.tokens
            &&& w.surfaces == v.surfaces
            &&& w.scripts == v.scripts
            &&& w.roots == v.roots
            &&& w.index == v.index
            &&& w.max_len == v.max_len
        },
        !v.index.contains_key(e.surface) ==> {
            let w = v.added(e);
            &&& w.tokens == v.tokens.push(e.token)
            &&& w.surfaces == v.surfaces.push(e.surface)
            &&& w.scripts == v.scripts.push(script_of_kind(e.token))
            &&& w.roots == v.roots.push(
                match e.token {
                    TokenModel::Akshara(_, roots) => roots,
                    _ => Seq::empty(),
                },
            )
            &&& w.index == v.index.insert(e.surface, v.tokens.len() as usize)
            &&& w.max_len == if e.surface.len() > v.max_len {
                e.surface.len()
            } else {
                v.max_len
            }
        },
        v.added(e).strict.contains(id) <==> v.strict.contains(id) || (e.strict && id == v.added(
            e,
        ).index[e.surface]),
        v.added(e).ambiguous.contains(id) <==> v.ambiguous.contains(id) || (e.ambiguous && id
            == v.added(e).index[e.surface]),
        v.added(e).confidence == v.confidence,
{
}

/// The merge of any two tokens: the token that has their joined surface, or a new one
/// with it, which is in the script of the first and has the given roots.
pub proof fn law_tokens_of_merges(v: VocabModel, a: usize, b: usize, roots: Seq<usize>)
    requires
        v.valid(),
        a < v.len(),
        b < v.len(),
    ensures
        ({
            let joined = v.surfaces[a as int] + v.surfaces[b as int];
            let (w, id) = v.merged(a, b, roots);
            &&& v.index.contains_key(joined) ==> w == v && id == v.index[joined]
            &&& !v.index.contains_key(joined) ==> {
                &&& id == v.tokens.len() as usize
                &&& w.tokens == v.tokens.push(TokenModel::MergedToken(seq![a, b]))
                &&& w.surfaces == v.surfaces.push(joined)
                &&& w.scripts == v.scripts.push(v.scripts[a as int])
                &&& w.roots == v.roots.push(roots)
                &&& w.index == v.index.insert(joined, id)
                &&& w.strict == v.strict
                &&& w.ambiguous == v.ambiguous
                &&& w.confidence == v.confidence
            }
        }),
{
}

/// Surfaces that are known keep their tokens, and of the entries of a new surface the
/// first decides.
proof fn lemma_stage(v: VocabModel, es: Seq<Entry>, s: Seq<char>, token: TokenModel)
    requires
        v.valid(),
        v.added_all(es).len() <= usize::MAX,
        forall|i: int| 0 <= i < es.len() && (#[trigger] es[i]).surface == s ==> es[i].token == token,
    ensures
        ({
            let w = v.added_all(es);
            &&& w.valid()
            &&& w.len() >= v.len()
            &&& v.index.contains_key(s) ==> w.index.contains_key(s) && w.index[s] == v.index[s]
                && w.tokens[w.index[s] as int] == v.tokens[v.index[s] as int]
                && w.scripts[w.index[s] as int] == v.scripts[v.index[s] as int]
            &&& !v.index.contains_key(s) && (exists|i: int|
                0 <= i < es.len() && (#[trigger] es[i]).surface == s) ==> w.index.contains_key(s)
                && w.tokens[w.index[s] as int] == token && w.scripts[w.index[s] as int]
                == script_of_kind(token)
            &&& !v.index.contains_key(s) && (forall|i: int|
                0 <= i < es.len() ==> (#[trigger] es[i]).surface != s) ==> !w.index.contains_key(s)
        }),
    decreases es.len(),
{
    if es.len() > 0 {
        let front = es.drop_last();
        let e = es.last();
        let u = v.added_all(front);
        let w = v.added_all(es);
        assert(w == u.added(e));
        assert(u.len() <= w.len());
        assert forall|i: int| 0 <= i < front.len() && (#[trigger] front[i]).surface
            == s implies front[i].token == token by {
            assert(front[i] == es[i]);
        }
        lemma_stage(v, front, s, token);
        if !u.index.contains_key(e.surface) {
            crate::vocab::lemma_pushed_valid(
                u,
                e.token,
                e.surface,
                e.token.script(),
                e.token.own_roots(),
            );
        }
        assert(w.valid());
        if e.surface == s {
            assert(es[es.len() - 1].surface == s);
            assert(e.token == token);
        }
        if exists|i: int| 0 <= i < es.len() && (#[trigger] es[i]).surface == s {
            let i = choose|i: int| 0 <= i < es.len() && (#[trigger] es[i]).surface == s;
            if i < front.len() {
                assert(front[i].surface == s);
            }
        }
        if forall|i: int| 0 <= i < front.len() ==> (#[trigger] front[i]).surface != s {
        } else {
            let i = choose|i: int| 0 <= i < front.len() && (#[trigger] front[i]).surface == s;
            assert(es[i].surface == s);
        }
        if u.index.contains_key(s) {
            assert(u.index[s] < u.tokens.len());
        }
    }
}

proof fn lemma_len_grows(v: VocabModel, es: Seq<Entry>)
    ensures
        v.added_all(es).len() >= v.len(),
    decreases es.len(),
{
    if es.len() > 0 {
        lemma_len_grows(v, es.drop_last());
    }
}

/// The byte that a character beyond ASCII names, where it names one.
pub open spec fn names_byte(s: Seq<char>, b: u8) -> bool {
    s.len() == 1 && s[0] > '\u{7F}' && s[0] == byte_char(b)
}

proof fn lemma_byte_named(ch: char, n: nat)
    requires
        n <= 256,
    ensures
        match byte_named(byte_table(), ch, n) {
            Some(b) => b < n && byte_char(b) == ch,
            None => forall|b: u8| b < n ==> #[trigger] byte_char(b) != ch,
        },
    decreases n,
{
    if n > 0 {
        lemma_byte_named(ch, (n - 1) as nat);
        assert(byte_table()[n - 1] == byte_char((n - 1) as u8));
        if byte_table()[n - 1] != ch {
            if byte_named(byte_table(), ch, (n - 1) as nat) is None {
                assert forall|b: u8| b < n implies #[trigger] byte_char(b) != ch by {
                    if b == n - 1 {
                        assert(b == (n - 1) as u8);
                    }
                }
            }
        }
    }
}

proof fn lemma_listed(token: TokenModel, s: Seq<char>, b: u8)
    ensures
        names_byte(s, b) ==> listed_token(token, s, byte_table()) == TokenModel::ByteFallback(b),
        (forall|c: u8| !#[trigger] names_byte(s, c)) ==> listed_token(token, s, byte_table())
            == token,
{
    if s.len() == 1 && s[0] > '\u{7F}' {
        lemma_byte_named(s[0], 256);
        match byte_named(byte_table(), s[0], 256) {
            Some(c) => {
                lemma_byte_char(c, b);
                assert(names_byte(s, c));
            },
            None => {
                assert(byte_char(b) != s[0]);
            },
        }
    }
}

/// What a surface is in an inventory that begins empty: an akshara where it is listed as
/// one, else a morpheme where it is listed as one or named strict or ambiguous, else one
/// of the two markers, else punctuation where it is listed as such, a danda or extended
/// punctuation, else an ASCII letter or digit, else the name of a byte, else the
/// non-joiner; except that a listed surface which names a byte beyond ASCII stays the
/// name of that byte. Nothing else is in it.
pub proof fn law_kinds_of_the_base_inventory(
    aksharas: Seq<(Seq<char>, Seq<usize>)>,
    seeds: Seq<Seq<char>>,
    punct: Seq<Seq<char>>,
    strict: Seq<Seq<char>>,
    ambiguous: Seq<Seq<char>>,
    s: Seq<char>,
    roots: Seq<usize>,
    b: u8,
    token: TokenModel,
    known: bool,
)
    requires
        initialized(
            VocabModel::empty(),
            aksharas,
            seeds,
            punct,
            strict,
            ambiguous,
            byte_table(),
        ).len() <= usize::MAX,
        forall|i: int|
            0 <= i < aksharas.len() && (#[trigger] aksharas[i]).0 == s ==> aksharas[i].1 == roots,
        names_byte(s, b) || forall|c: u8| !#[trigger] names_byte(s, c),
        seq![byte_char(b)] == s || forall|c: u8| seq![#[trigger] byte_char(c)] != s,
        known ==> {
            ||| names_byte(s, b) && token == TokenModel::ByteFallback(b)
            ||| !names_byte(s, b) && if exists|i: int|
                0 <= i < aksharas.len() && (#[trigger] aksharas[i]).0 == s {
                token == TokenModel::Akshara(s, roots)
            } else if seeds.contains(s) || strict.contains(s) || ambiguous.contains(s) {
                token == TokenModel::SeededMorpheme(s)
            } else if s == seq!['\u{2581}'] {
                token == TokenModel::SeededMorpheme(s)
            } else if s == seq!['\u{2582}'] {
                token == TokenModel::Latin(s)
            } else if punct.contains(s) || s == seq!['\u{0964}'] || s == seq!['\u{0965}'] || (
            s.len() == 1 && ('\u{2010}' <= s[0] <= '\u{2015}' || '\u{2018}' <= s[0] <= '\u{201F}'
                || s[0] == '\u{2026}')) {
                token == TokenModel::Punctuation(s)
            } else if s.len() == 1 && ('a' <= s[0] <= 'z' || 'A' <= s[0] <= 'Z' || '0' <= s[0]
                <= '9') {
                token == TokenModel::Latin(s)
            } else if s == seq![byte_char(b)] {
                token == TokenModel::ByteFallback(b)
            } else {
                s == seq!['\u{200C}'] && token == TokenModel::ZWNJ
            }
        },
        !known ==> {
            &&& forall|i: int| 0 <= i < aksharas.len() ==> (#[trigger] aksharas[i]).0 != s
            &&& !seeds.contains(s) && !strict.contains(s) && !ambiguous.contains(s)
            &&& s != seq!['\u{2581}'] && s != seq!['\u{2582}'] && s != seq!['\u{200C}']
            &&& !punct.contains(s) && s != seq!['\u{0964}'] && s != seq!['\u{0965}']
            &&& !(s.len() == 1 && ('\u{2010}' <= s[0] <= '\u{2015}' || '\u{2018}' <= s[0]
                <= '\u{201F}' || s[0] == '\u{2026}'))
            &&& !(s.len() == 1 && ('a' <= s[0] <= 'z' || 'A' <= s[0] <= 'Z' || '0' <= s[0] <= '9'))
            &&& s != seq![byte_char(b)]
        },
    ensures
        ({
            let w = initialized(
                VocabModel::empty(),
                aksharas,
                seeds,
                punct,
                strict,
                ambiguous,
                byte_table(),
            );
            &&& w.index.contains_key(s) <==> known
            &&& known ==> w.tokens[w.index[s] as int] == token && w.scripts[w.index[s] as int]
                == script_of_kind(token)
        }),
{
    let table = byte_table();
    let all = seeds + strict + ambiguous;
    let signs = all_punct(punct);
    let v0 = VocabModel::empty();
    let e1 = akshara_entries(aksharas, table);
    let e2 = seed_entries(all, strict, ambiguous, table);
    let e3 = marker_entries();
    let e4 = punct_entries(signs, table);
    let e5 = latin_entries();
    let e6 = byte_entries(table);
    let e7 = joiner_entries();
    let v1 = v0.added_all(e1);
    let v2 = v1.added_all(e2);
    let v3 = v2.added_all(e3);
    let v4 = v3.added_all(e4);
    let v5 = v4.added_all(e5);
    let v6 = v5.added_all(e6);
    let v7 = v6.added_all(e7);
    lemma_len_grows(v1, e2);
    lemma_len_grows(v2, e3);
    lemma_len_grows(v3, e4);
    lemma_len_grows(v4, e5);
    lemma_len_grows(v5, e6);
    lemma_len_grows(v6, e7);
    let t1 = listed_token(TokenModel::Akshara(s, roots), s, table);
    let t2 = listed_token(TokenModel::SeededMorpheme(s), s, table);
    let t4 = listed_token(TokenModel::Punctuation(s), s, table);
    lemma_listed(TokenModel::Akshara(s, roots), s, b);
    lemma_listed(TokenModel::SeededMorpheme(s), s, b);
    lemma_listed(TokenModel::Punctuation(s), s, b);
    assert forall|i: int| 0 <= i < e1.len() && (#[trigger] e1[i]).surface == s implies e1[i].token
        == t1 by {
        assert(aksharas[i].0 == s);
    }
    lemma_stage(v0, e1, s, t1);
    assert((exists|i: int| 0 <= i < e1.len() && (#[trigger] e1[i]).surface == s) <==> (exists|i: int|
        0 <= i < aksharas.len() && (#[trigger] aksharas[i]).0 == s)) by {
        if exists|i: int| 0 <= i < aksharas.len() && (#[trigger] aksharas[i]).0 == s {
            let i = choose|i: int| 0 <= i < aksharas.len() && (#[trigger] aksharas[i]).0 == s;
            assert(e1[i].surface == s);
        }
        if exists|i: int| 0 <= i < e1.len() && (#[trigger] e1[i]).surface == s {
            let i = choose|i: int| 0 <= i < e1.len() && (#[trigger] e1[i]).surface == s;
            assert(aksharas[i].0 == s);
        }
    }
    lemma_stage(v1, e2, s, t2);
    lemma_concat_contains(seeds, strict, s);
    lemma_concat_contains(seeds + strict, ambiguous, s);
    lemma_surfaces_listed(e2, all, s);
    if s == seq!['\u{2581}'] {
        lemma_stage(v2, e3, s, TokenModel::SeededMorpheme(s));
    } else {
        assert(s != seq!['\u{2581}']);
        lemma_stage(v2, e3, s, TokenModel::Latin(s));
    }
    assert(e3[0].surface == seq!['\u{2581}'] && e3[1].surface == seq!['\u{2582}']);
    lemma_stage(v3, e4, s, t4);
    lemma_surfaces_listed(e4, signs, s);
    lemma_signs(punct, s);
    lemma_stage(v4, e5, s, TokenModel::Latin(s));
    lemma_latin_listed(s);
    assert forall|i: int| 0 <= i < e6.len() && (#[trigger] e6[i]).surface == s implies e6[i].token
        == TokenModel::ByteFallback(b) by {
        assert(e6[i].surface == seq![byte_char(i as u8)]);
        assert(seq![byte_char(i as u8)] == s);
        assert(seq![byte_char(b)] == s);
        assert(seq![byte_char(b)][0] == seq![byte_char(i as u8)][0]);
        lemma_byte_char(b, i as u8);
    }
    lemma_stage(v5, e6, s, TokenModel::ByteFallback(b));
    assert((exists|i: int| 0 <= i < e6.len() && (#[trigger] e6[i]).surface == s) <==> s
        == seq![byte_char(b)]) by {
        if s == seq![byte_char(b)] {
            assert(table[b as int] == byte_char(b));
            assert(e6[b as int].surface == s);
        }
        if exists|i: int| 0 <= i < e6.len() && (#[trigger] e6[i]).surface == s {
            let i = choose|i: int| 0 <= i < e6.len() && (#[trigger] e6[i]).surface == s;
            assert(e6[i].surface == seq![byte_char(i as u8)]);
            assert(seq![byte_char(i as u8)] == s);
        }
    }
    lemma_stage(v6, e7, s, TokenModel::ZWNJ);
    assert(e7[0].surface == seq!['\u{200C}']);
    if names_byte(s, b) {
        assert(s =~= seq![byte_char(b)]);
        lemma_byte_char(b, b);
    }
}

proof fn lemma_concat_contains<T>(p: Seq<T>, q: Seq<T>, x: T)
    ensures
        (p + q).contains(x) <==> p.contains(x) || q.contains(x),
{
    if p.contains(x) {
        let i = choose|i: int| 0 <= i < p.len() && p[i] == x;
        assert((p + q)[i] == x);
    }
    if q.contains(x) {
        let i = choose|i: int| 0 <= i < q.len() && q[i] == x;
        assert((p + q)[p.len() + i] == x);
    }
    if (p + q).contains(x) {
        let i = choose|i: int| 0 <= i < (p + q).len() && (p + q)[i] == x;
        if i < p.len() {
            assert(p[i] == x);
        } else {
            assert(q[i - p.len()] == x);
        }
    }
}

proof fn lemma_surfaces_listed(es: Seq<Entry>, list: Seq<Seq<char>>, s: Seq<char>)
    requires
        es.len() == list.len(),
        forall|i: int| 0 <= i < es.len() ==> (#[trigger] es[i]).surface == list[i],
    ensures
        (exists|i: int| 0 <= i < es.len() && (#[trigger] es[i]).surface == s) <==> list.contains(s),
{
    if list.contains(s) {
        let i = choose|i: int| 0 <= i < list.len() && list[i] == s;
        assert(es[i].surface == s);
    }
    if exists|i: int| 0 <= i < es.len() && (#[trigger] es[i]).surface == s {
        let i = choose|i: int| 0 <= i < es.len() && (#[trigger] es[i]).surface == s;
        assert(list[i] == s);
    }
}

proof fn lemma_signs(punct: Seq<Seq<char>>, s: Seq<char>)
    ensures
        all_punct(punct).contains(s) <==> punct.contains(s) || s == seq!['\u{0964}'] || s
            == seq!['\u{0965}'] || (s.len() == 1 && ('\u{2010}' <= s[0] <= '\u{2015}'
            || '\u{2018}' <= s[0] <= '\u{201F}' || s[0] == '\u{2026}')),
{
    let dandas = seq![seq!['\u{0964}'], seq!['\u{0965}']];
    let more = extended_punct().map_values(|c: char| seq![c]);
    lemma_concat_contains(punct, dandas, s);
    lemma_concat_contains(punct + dandas, more, s);
    assert(dandas[0] == seq!['\u{0964}'] && dandas[1] == seq!['\u{0965}']);
    if s.len() == 1 {
        law_extended_punctuation(s[0]);
        if extended_punct().contains(s[0]) {
            let i = choose|i: int| 0 <= i < extended_punct().len() && extended_punct()[i] == s[0];
            assert(more[i] =~= s);
        }
    }
    if more.contains(s) {
        let i = choose|i: int| 0 <= i < more.len() && more[i] == s;
        assert(s == seq![extended_punct()[i]]);
        assert(extended_punct().contains(s[0]));
    }
}

proof fn lemma_latin_listed(s: Seq<char>)
    ensures
        (exists|i: int| 0 <= i < latin_entries().len() && (#[trigger] latin_entries()[i]).surface
            == s) <==> s.len() == 1 && ('a' <= s[0] <= 'z' || 'A' <= s[0] <= 'Z' || '0' <= s[0]
            <= '9'),
{
    let es = latin_entries();
    if s.len() == 1 && ('a' <= s[0] <= 'z' || 'A' <= s[0] <= 'Z' || '0' <= s[0] <= '9') {
        let c = s[0] as int;
        let i = if s[0] >= 'a' {
            c - 97
        } else if s[0] >= 'A' {
            c - 65 + 26
        } else {
            c - 48 + 52
        };
        assert(latin_chars()[i] == s[0]);
        assert(es[i].surface =~= s);
    }
    if exists|i: int| 0 <= i < es.len() && (#[trigger] es[i]).surface == s {
        let i = choose|i: int| 0 <= i < es.len() && (#[trigger] es[i]).surface == s;
        assert(s == seq![latin_chars()[i]]);
    }
}

/// The seed sets after entries were put in: what was in them, and the tokens of the
/// entries that name them.
proof fn lemma_seed_sets(v: VocabModel, es: Seq<Entry>, id: usize)
    requires
        v.valid(),
        v.added_all(es).len() <= usize::MAX,
    ensures
        ({
            let w = v.added_all(es);
            &&& w.strict.contains(id) <==> v.strict.contains(id) || exists|i: int|
                0 <= i < es.len() && (#[trigger] es[i]).strict && w.index[es[i].surface] == id
            &&& w.ambiguous.contains(id) <==> v.ambiguous.contains(id) || exists|i: int|
                0 <= i < es.len() && (#[trigger] es[i]).ambiguous && w.index[es[i].surface] == id
        }),
    decreases es.len(),
{
    if es.len() > 0 {
        let front = es.drop_last();
        let e = es.last();
        let u = v.added_all(front);
        let w = v.added_all(es);
        assert(w == u.added(e));
        assert(u.len() <= w.len());
        lemma_seed_sets(v, front, id);
        assert forall|i: int| 0 <= i < front.len() implies w.index[(#[trigger] front[i]).surface]
            == u.index[front[i].surface] by {
            let s = front[i].surface;
            lemma_all_known(v, front, i);
            assert(u.index.contains_key(s));
        }
        law_token_is_put_in(u, e, id);
        let n = es.len() - 1;
        assert(es[n] == e);
        if w.strict.contains(id) {
            if !v.strict.contains(id) {
                if u.strict.contains(id) {
                    let i = choose|i: int|
                        0 <= i < front.len() && (#[trigger] front[i]).strict
                            && u.index[front[i].surface] == id;
                    assert(front[i].strict && w.index[front[i].surface] == id);
                    assert(es[i].strict && w.index[es[i].surface] == id);
                } else {
                    assert(es[n].strict && w.index[es[n].surface] == id);
                }
            }
        }
        if exists|i: int|
            0 <= i < es.len() && (#[trigger] es[i]).strict && w.index[es[i].surface] == id {
            let i = choose|i: int|
                0 <= i < es.len() && (#[trigger] es[i]).strict && w.index[es[i].surface] == id;
            if i < n {
                assert(front[i].strict && u.index[front[i].surface] == id);
            }
        }
        if w.ambiguous.contains(id) {
            if !v.ambiguous.contains(id) {
                if u.ambiguous.contains(id) {
                    let i = choose|i: int|
                        0 <= i < front.len() && (#[trigger] front[i]).ambiguous
                            && u.index[front[i].surface] == id;
                    assert(front[i].ambiguous && w.index[front[i].surface] == id);
                    assert(es[i].ambiguous && w.index[es[i].surface] == id);
                } else {
                    assert(es[n].ambiguous && w.index[es[n].surface] == id);
                }
            }
        }
        if exists|i: int|
            0 <= i < es.len() && (#[trigger] es[i]).ambiguous && w.index[es[i].surface] == id {
            let i = choose|i: int|
                0 <= i < es.len() && (#[trigger] es[i]).ambiguous && w.index[es[i].surface] == id;
            if i < n {
                assert(front[i].ambiguous && u.index[front[i].surface] == id);
            }
        }
    }
}

proof fn lemma_all_known(v: VocabModel, es: Seq<Entry>, i: int)
    requires
        0 <= i < es.len(),
    ensures
        v.added_all(es).index.contains_key(es[i].surface),
    decreases es.len(),
{
    if i < es.len() - 1 {
        lemma_all_known(v, es.drop_last(), i);
        assert(es.drop_last()[i] == es[i]);
    }
}

/// A token is a strict seed of an inventory that begins empty exactly where its surface
/// is named strict, and an ambiguous one exactly where it is named ambiguous.
pub proof fn law_seeds_of_the_base_inventory(
    aksharas: Seq<(Seq<char>, Seq<usize>)>,
    seeds: Seq<Seq<char>>,
    punct: Seq<Seq<char>>,
    strict: Seq<Seq<char>>,
    ambiguous: Seq<Seq<char>>,
    table: Seq<char>,
    id: usize,
)
    requires
        initialized(
            VocabModel::empty(),
            aksharas,
            seeds,
            punct,
            strict,
            ambiguous,
            table,
        ).len() <= usize::MAX,
    ensures
        ({
            let w = initialized(
                VocabModel::empty(),
                aksharas,
                seeds,
                punct,
                strict,
                ambiguous,
                table,
            );
            &&& w.strict.contains(id) <==> exists|i: int|
                0 <= i < strict.len() && w.index[#[trigger] strict[i]] == id
            &&& w.ambiguous.contains(id) <==> exists|i: int|
                0 <= i < ambiguous.len() && w.index[#[trigger] ambiguous[i]] == id
        }),
{
    let v = VocabModel::empty();
    let all = seeds + strict + ambiguous;
    let e1 = akshara_entries(aksharas, table);
    let e2 = seed_entries(all, strict, ambiguous, table);
    let e3 = marker_entries();
    let e4 = punct_entries(all_punct(punct), table);
    let e5 = latin_entries();
    let e6 = byte_entries(table);
    let e7 = joiner_entries();
    let es = e1 + e2 + e3 + e4 + e5 + e6 + e7;
    crate::lossless::lemma_base_entries(v, aksharas, seeds, punct, strict, ambiguous, table);
    let w = v.added_all(es);
    lemma_seed_sets(v, es, id);
    let a = e1.len() as int;
    let n = a + e2.len();
    assert forall|i: int| 0 <= i < es.len() && !(a <= i < n) implies !(#[trigger] es[i]).strict
        && !es[i].ambiguous by {
        if i < a {
            assert(es[i] == e1[i]);
        } else if i < n + e3.len() {
            assert(es[i] == e3[i - n]);
        } else if i < n + e3.len() + e4.len() {
            assert(es[i] == e4[i - n - e3.len()]);
        } else if i < n + e3.len() + e4.len() + e5.len() {
            assert(es[i] == e5[i - n - e3.len() - e4.len()]);
        } else if i < n + e3.len() + e4.len() + e5.len() + e6.len() {
            assert(es[i] == e6[i - n - e3.len() - e4.len() - e5.len()]);
        } else {
            assert(es[i] == e7[i - n - e3.len() - e4.len() - e5.len() - e6.len()]);
        }
    }
    assert forall|k: int| 0 <= k < all.len() implies (#[trigger] es[a + k]).surface == all[k]
        && es[a + k].strict == strict.contains(all[k]) && es[a + k].ambiguous == ambiguous.contains(
        all[k],
    ) by {
        assert(es[a + k] == e2[k]);
    }
    if w.strict.contains(id) {
        let i = choose|i: int|
            0 <= i < es.len() && (#[trigger] es[i]).strict && w.index[es[i].surface] == id;
        assert(es[a + (i - a)].surface == all[i - a]);
        let j = choose|j: int| 0 <= j < strict.len() && strict[j] == all[i - a];
        assert(w.index[strict[j]] == id);
    }
    if exists|i: int| 0 <= i < strict.len() && w.index[#[trigger] strict[i]] == id {
        let i = choose|i: int| 0 <= i < strict.len() && w.index[#[trigger] strict[i]] == id;
        let k = seeds.len() + i;
        assert(all[k] == strict[i]);
        assert(strict.contains(strict[i]));
        assert(es[a + k].strict && w.index[es[a + k].surface] == id);
    }
    if w.ambiguous.contains(id) {
        let i = choose|i: int|
            0 <= i < es.len() && (#[trigger] es[i]).ambiguous && w.index[es[i].surface] == id;
        assert(es[a + (i - a)].surface == all[i - a]);
        let j = choose|j: int| 0 <= j < ambiguous.len() && ambiguous[j] == all[i - a];
        assert(w.index[ambiguous[j]] == id);
    }
    if exists|i: int| 0 <= i < ambiguous.len() && w.index[#[trigger] ambiguous[i]] == id {
        let i = choose|i: int| 0 <= i < ambiguous.len() && w.index[#[trigger] ambiguous[i]] == id;
        let k = seeds.len() + strict.len() + i;
        assert(all[k] == ambiguous[i]);
        assert(ambiguous.contains(ambiguous[i]));
        assert(es[a + k].ambiguous && w.index[es[a + k].surface] == id);
    }
}

/// The kind of a surface that a list gives: the two markers, the non-joiner, a single
/// ASCII letter or digit, the name of a byte, Latin where all characters but a Latin
/// marker at the front are ASCII letters and digits, and else plainly loaded.
pub proof fn law_kinds_of_loaded_surfaces(s: Seq<char>, b: u8)
    ensures
        ({
            let t = loaded_token(s, byte_decoder());
            let latin = |c: char| 'a' <= c <= 'z' || 'A' <= c <= 'Z' || '0' <= c <= '9';
            &&& s == seq!['\u{2581}'] ==> t == TokenModel::SeededMorpheme(s)
            &&& s == seq!['\u{2582}'] ==> t == TokenModel::Latin(s)
            &&& s == seq!['\u{200C}'] ==> t == TokenModel::ZWNJ
            &&& s.len() == 1 && latin(s[0]) ==> t == TokenModel::Latin(s)
            &&& s == seq![byte_char(b)] && !latin(s[0]) ==> t == TokenModel::ByteFallback(b)
            &&& t is ByteFallback ==> s == seq![byte_char(t->ByteFallback_0)] && !latin(s[0])
            &&& s.len() != 1 && (forall|i: int|
                0 <= i < s.len() ==> latin(#[trigger] s[i]) || (i == 0 && s[i] == '\u{2582}'))
                ==> t == TokenModel::Latin(s)
            &&& s.len() != 1 && (exists|i: int|
                0 <= i < s.len() && !latin(#[trigger] s[i]) && (i > 0 || s[i] != '\u{2582}'))
                ==> t == TokenModel::Loaded(s)
            &&& s.len() == 1 && !latin(s[0]) && s[0] != '\u{2581}' && s[0] != '\u{2582}' && s[0]
                != '\u{200C}' && (forall|c: u8| #[trigger] byte_char(c) != s[0]) ==> t
                == TokenModel::Loaded(s)
        }),
{
    let latin = |c: char| 'a' <= c <= 'z' || 'A' <= c <= 'Z' || '0' <= c <= '9';
    assert(seq!['\u{2581}'][0] == '\u{2581}' && seq!['\u{2582}'][0] == '\u{2582}');
    assert(seq!['\u{200C}'][0] == '\u{200C}');
    lemma_byte_char(b, b);
    if s.len() == 1 {
        assert(s =~= seq![s[0]]);
        lemma_byte_decoder(s[0], b);
    } else {
        if forall|i: int|
            0 <= i < s.len() ==> latin(#[trigger] s[i]) || (i == 0 && s[i] == '\u{2582}') {
            if s.len() > 0 && s[0] == '\u{2582}' {
                assert forall|i: int| 0 <= i < s.skip(1).len() implies is_ascii_alphanumeric(
                    #[trigger] s.skip(1)[i],
                ) by {
                    assert(latin(s[i + 1]) || (i + 1 == 0));
                }
                assert(all_alphanumeric(s.skip(1)));
            } else {
                assert forall|i: int| 0 <= i < s.len() implies is_ascii_alphanumeric(
                    #[trigger] s[i],
                ) by {
                    assert(latin(s[i]) || (i == 0 && s[i] == '\u{2582}'));
                }
                assert(all_alphanumeric(s));
            }
        }
        if exists|i: int|
            0 <= i < s.len() && !latin(#[trigger] s[i]) && (i > 0 || s[i] != '\u{2582}') {
            let i = choose|i: int|
                0 <= i < s.len() && !latin(#[trigger] s[i]) && (i > 0 || s[i] != '\u{2582}');
            assert(!is_ascii_alphanumeric(s[i]));
            if i > 0 {
                assert(s.skip(1)[i - 1] == s[i]);
            }
        }
    }
}

proof fn lemma_rows(rows: Seq<(usize, Seq<char>)>, decoder: Map<u32, u8>)
    ensures
        ({
            let v = loaded_rows(rows, decoder);
            &&& v.tokens.len() == rows.len()
            &&& v.surfaces.len() == rows.len()
            &&& v.scripts.len() == rows.len()
            &&& v.roots.len() == rows.len()
            &&& forall|i: int| 0 <= i < rows.len() ==> #[trigger] v.surfaces[i] == rows[i].1
            &&& forall|i: int|
                0 <= i < rows.len() ==> #[trigger] v.tokens[i] == loaded_token(rows[i].1, decoder)
            &&& forall|i: int|
                0 <= i < rows.len() ==> #[trigger] v.scripts[i] == script_of_kind(
                    loaded_token(rows[i].1, decoder),
                )
            &&& forall|i: int|
                0 <= i < rows.len() ==> #[trigger] v.roots[i] == Seq::<usize>::empty()
            &&& v.strict == Set::<usize>::empty()
            &&& v.ambiguous == Set::<usize>::empty()
            &&& forall|s: Seq<char>| #[trigger]
                v.index.contains_key(s) <==> exists|i: int|
                    0 <= i < rows.len() && (#[trigger] rows[i]).1 == s
        }),
    decreases rows.len(),
{
    if rows.len() > 0 {
        let front = rows.drop_last();
        lemma_rows(front, decoder);
        let u = loaded_rows(front, decoder);
        let v = loaded_rows(rows, decoder);
        let n = rows.len() - 1;
        assert forall|s: Seq<char>| #[trigger]
            v.index.contains_key(s) <==> exists|i: int|
                0 <= i < rows.len() && (#[trigger] rows[i]).1 == s by {
            if v.index.contains_key(s) {
                if s == rows[n].1 {
                } else {
                    assert(u.index.contains_key(s));
                    let i = choose|i: int| 0 <= i < front.len() && (#[trigger] front[i]).1 == s;
                    assert(rows[i].1 == s);
                }
            }
            if exists|i: int| 0 <= i < rows.len() && (#[trigger] rows[i]).1 == s {
                let i = choose|i: int| 0 <= i < rows.len() && (#[trigger] rows[i]).1 == s;
                if i < n {
                    assert(front[i].1 == s);
                }
            }
        }
    }
}

/// A loaded vocabulary holds the listed surfaces in the order of their numbers, those of
/// one number in the order of the list, each in the script of its kind and without
/// roots; and behind them those of the two markers that are not listed.
pub proof fn law_loaded_surfaces(pairs: Seq<(usize, Seq<char>)>, n: usize)
    ensures
        ({
            let rows = sorted(pairs, by_id());
            let w = loaded(pairs, byte_decoder());
            let k = pairs.len();
            let dev = exists|i: int| 0 <= i < k && (#[trigger] rows[i]).1 == seq!['\u{2581}'];
            let lat = exists|i: int| 0 <= i < k && (#[trigger] rows[i]).1 == seq!['\u{2582}'];
            &&& rows.len() == k
            &&& rows.to_multiset() == pairs.to_multiset()
            &&& forall|i: int, j: int|
                0 <= i <= j < k ==> (#[trigger] rows[i]).0 <= (#[trigger] rows[j]).0
            &&& w.surfaces == rows.map_values(|p: (usize, Seq<char>)| p.1) + (if dev {
                Seq::<Seq<char>>::empty()
            } else {
                seq![seq!['\u{2581}']]
            }) + (if lat {
                Seq::<Seq<char>>::empty()
            } else {
                seq![seq!['\u{2582}']]
            })
            &&& w.tokens.len() == w.surfaces.len()
            &&& forall|i: int|
                0 <= i < w.surfaces.len() ==> #[trigger] w.tokens[i] == loaded_token(
                    w.surfaces[i],
                    byte_decoder(),
                )
            &&& forall|i: int|
                0 <= i < w.surfaces.len() ==> #[trigger] w.scripts[i] == script_of_kind(w.tokens[i])
            &&& forall|i: int|
                0 <= i < w.surfaces.len() ==> #[trigger] w.roots[i] == Seq::<usize>::empty()
            &&& w.strict == Set::<usize>::empty()
            &&& w.ambiguous == Set::<usize>::empty()
        }),
        sorted(pairs, by_id()).filter(|p: (usize, Seq<char>)| p.0 == n) == pairs.filter(
            |p: (usize, Seq<char>)| p.0 == n,
        ),
{
    let leq = by_id();
    assert(total_order(leq));
    lemma_sorted(pairs, leq);
    let rows = sorted(pairs, leq);
    let d = byte_decoder();
    lemma_rows(rows, d);
    let v = loaded_rows(rows, d);
    let dev = seq!['\u{2581}'];
    let lat = seq!['\u{2582}'];
    assert(dev[0] != lat[0]);
    law_kinds_of_loaded_surfaces(dev, 0);
    law_kinds_of_loaded_surfaces(lat, 0);
    let v1 = with_marker(v, TokenModel::SeededMorpheme(dev), '\u{2581}');
    let w = with_marker(v1, TokenModel::Latin(lat), '\u{2582}');
    assert(w == loaded(pairs, d));
    assert(v.surfaces =~= rows.map_values(|p: (usize, Seq<char>)| p.1));
    assert(v1.index.contains_key(lat) <==> v.index.contains_key(lat));
    assert forall|i: int, j: int| 0 <= i <= j < pairs.len() implies (#[trigger] rows[i]).0 <= (
    #[trigger] rows[j]).0 by {
        assert(leq(rows[i], rows[j]));
    }
    assert(w.surfaces =~= rows.map_values(|p: (usize, Seq<char>)| p.1) + (
    if v.index.contains_key(dev) {
        Seq::<Seq<char>>::empty()
    } else {
        seq![dev]
    }) + (if v.index.contains_key(lat) {
        Seq::<Seq<char>>::empty()
    } else {
        seq![lat]
    }));
    let pick = |p: (usize, Seq<char>)| p.0 == n;
    lemma_sorted_stable(pairs, leq, pick);
}

proof fn lemma_rows_len(rows: Seq<(usize, Seq<char>)>, decoder: Map<u32, u8>)
    ensures
        forall|i: int|
            0 <= i < rows.len() ==> (#[trigger] rows[i]).1.len() <= loaded_rows(
                rows,
                decoder,
            ).max_len,
        loaded_rows(rows, decoder).max_len > 0 ==> exists|i: int|
            0 <= i < rows.len() && (#[trigger] rows[i]).1.len() == loaded_rows(
                rows,
                decoder,
            ).max_len,
    decreases rows.len(),
{
    if rows.len() > 0 {
        let front = rows.drop_last();
        let n = rows.len() - 1;
        lemma_rows_len(front, decoder);
        assert forall|i: int| 0 <= i < rows.len() implies (#[trigger] rows[i]).1.len()
            <= loaded_rows(rows, decoder).max_len by {
            if i < n {
                assert(front[i] == rows[i]);
            }
        }
        let m = loaded_rows(front, decoder).max_len;
        if rows[n].1.len() > m {
            assert(rows[n].1.len() == loaded_rows(rows, decoder).max_len);
        } else if m > 0 {
            let i = choose|i: int| 0 <= i < front.len() && (#[trigger] front[i]).1.len() == m;
            assert(rows[i].1.len() == m);
        }
    }
}

/// The greatest length of a surface that a loaded vocabulary reports is that of the
/// longest listed surface.
pub proof fn law_longest_loaded_surface(pairs: Seq<(usize, Seq<char>)>, i: int)
    ensures
        0 <= i < pairs.len() ==> pairs[i].1.len() <= loaded(pairs, byte_decoder()).max_len,
        loaded(pairs, byte_decoder()).max_len > 0 ==> exists|j: int|
            0 <= j < pairs.len() && (#[trigger] pairs[j]).1.len() == loaded(
                pairs,
                byte_decoder(),
            ).max_len,
{
    let leq = by_id();
    assert(total_order(leq));
    lemma_sorted(pairs, leq);
    let rows = sorted(pairs, leq);
    lemma_rows_len(rows, byte_decoder());
    if 0 <= i < pairs.len() {
        vstd::seq_lib::to_multiset_contains(pairs, pairs[i]);
        vstd::seq_lib::to_multiset_contains(rows, pairs[i]);
        assert(pairs.contains(pairs[i]));
        let k = choose|k: int| 0 <= k < rows.len() && rows[k] == pairs[i];
        assert(rows[k].1.len() <= loaded_rows(rows, byte_decoder()).max_len);
    }
    let m = loaded_rows(rows, byte_decoder()).max_len;
    if m > 0 {
        let k = choose|k: int| 0 <= k < rows.len() && (#[trigger] rows[k]).1.len() == m;
        vstd::seq_lib::to_multiset_contains(rows, rows[k]);
        vstd::seq_lib::to_multiset_contains(pairs, rows[k]);
        assert(rows.contains(rows[k]));
        let j = choose|j: int| 0 <= j < pairs.len() && pairs[j] == rows[k];
        assert(pairs[j].1.len() == m);
    }
}

/// Lists as texts, item by item.
pub proof fn law_lists_as_texts(
    list: Seq<String>,
    pairs: Seq<(usize, String)>,
    aksharas: Seq<Akshara>,
    i: int,
)
    ensures
        texts(list).len() == list.len(),
        0 <= i < list.len() ==> texts(list)[i] == list[i]@,
        0 <= i < list.len() ==> rootless(texts(list))[i] == (list[i]@, Seq::<usize>::empty()),
        pair_texts(pairs).len() == pairs.len(),
        0 <= i < pairs.len() ==> pair_texts(pairs)[i] == (pairs[i].0, pairs[i].1@),
        akshara_texts(aksharas).len() == aksharas.len(),
        0 <= i < aksharas.len() ==> akshara_texts(aksharas)[i] == (
            aksharas[i].surface@,
            aksharas[i].root_set@,
        ),
{
}

proof fn lemma_last_row(rows: Seq<(usize, Seq<char>)>, decoder: Map<u32, u8>, i: int)
    requires
        0 <= i < rows.len() <= usize::MAX,
    ensures
        ({
            let v = loaded_rows(rows, decoder);
            &&& v.index.contains_key(rows[i].1)
            &&& i <= v.index[rows[i].1] < rows.len()
        }),
    decreases rows.len(),
{
    lemma_rows(rows.drop_last(), decoder);
    if i < rows.len() - 1 {
        assert(rows.drop_last()[i] == rows[i]);
        lemma_last_row(rows.drop_last(), decoder, i);
    }
}

/// Of a surface that is listed more than once, the last of its tokens is found.
pub proof fn law_last_of_equal_surfaces_is_found(pairs: Seq<(usize, Seq<char>)>, i: int)
    requires
        pairs.len() + 2 <= usize::MAX,
        0 <= i < loaded(pairs, byte_decoder()).surfaces.len(),
    ensures
        ({
            let w = loaded(pairs, byte_decoder());
            &&& w.index.contains_key(w.surfaces[i])
            &&& w.index[w.surfaces[i]] >= i
            &&& w.index[w.surfaces[i]] < w.surfaces.len()
        }),
{
    let leq = by_id();
    assert(total_order(leq));
    lemma_sorted(pairs, leq);
    let rows = sorted(pairs, leq);
    let d = byte_decoder();
    lemma_rows(rows, d);
    let v = loaded_rows(rows, d);
    if i < rows.len() {
        lemma_last_row(rows, d, i);
        assert(v.surfaces[i] == rows[i].1);
    }
    let dev = seq!['\u{2581}'];
    let lat = seq!['\u{2582}'];
    assert(dev[0] != lat[0]);
}

/// Entries are numbered in the order in which their surfaces first come.
proof fn lemma_numbered(es: Seq<Entry>, fresh: spec_fn(int) -> bool)
    requires
        VocabModel::empty().added_all(es).len() <= usize::MAX,
        forall|i: int|
            0 <= i < es.len() ==> (#[trigger] fresh(i) <==> forall|j: int|
                0 <= j < i ==> (#[trigger] es[j]).surface != es[i].surface),
    ensures
        ({
            let w = VocabModel::empty().added_all(es);
            &&& w.valid()
            &&& w.len() == places(es.len(), fresh).len()
            &&& forall|s: Seq<char>| #[trigger]
                w.index.contains_key(s) <==> exists|i: int|
                    0 <= i < es.len() && (#[trigger] es[i]).surface == s
            &&& forall|i: int|
                0 <= i < es.len() && #[trigger] fresh(i) ==> w.index[es[i].surface] == places(
                    i as nat,
                    fresh,
                ).len()
        }),
    decreases es.len(),
{
    let v = VocabModel::empty();
    lemma_places(es.len(), fresh);
    if es.len() > 0 {
        let front = es.drop_last();
        let n = es.len() - 1;
        let e = es[n];
        let u = v.added_all(front);
        let w = v.added_all(es);
        assert(w == u.added(e));
        assert(u.len() <= w.len());
        assert forall|i: int| 0 <= i < front.len() implies (#[trigger] fresh(i) <==> forall|j: int|
            0 <= j < i ==> (#[trigger] front[j]).surface != front[i].surface) by {
            assert(front[i] == es[i]);
            if fresh(i) {
                assert forall|j: int| 0 <= j < i implies (#[trigger] front[j]).surface
                    != front[i].surface by {
                    assert(es[j].surface != es[i].surface);
                }
            } else {
                let j = choose|j: int| 0 <= j < i && (#[trigger] es[j]).surface == es[i].surface;
                assert(front[j].surface == front[i].surface);
            }
        }
        lemma_numbered(front, fresh);
        assert(fresh(n) <==> !u.index.contains_key(e.surface)) by {
            if fresh(n) && u.index.contains_key(e.surface) {
                let i = choose|i: int|
                    0 <= i < front.len() && (#[trigger] front[i]).surface == e.surface;
                assert(es[i].surface != es[n].surface);
            }
            if !fresh(n) {
                let j = choose|j: int| 0 <= j < n && (#[trigger] es[j]).surface == es[n].surface;
                assert(front[j].surface == e.surface);
            }
        }
        if !u.index.contains_key(e.surface) {
            crate::vocab::lemma_pushed_valid(
                u,
                e.token,
                e.surface,
                e.token.script(),
                e.token.own_roots(),
            );
        }
        assert(w.valid());
        assert forall|s: Seq<char>| #[trigger]
            w.index.contains_key(s) <==> exists|i: int|
                0 <= i < es.len() && (#[trigger] es[i]).surface == s by {
            if w.index.contains_key(s) {
                if u.index.contains_key(s) {
                    let i = choose|i: int|
                        0 <= i < front.len() && (#[trigger] front[i]).surface == s;
                    assert(es[i].surface == s);
                } else {
                    assert(es[n].surface == s);
                }
            }
            if exists|i: int| 0 <= i < es.len() && (#[trigger] es[i]).surface == s {
                let i = choose|i: int| 0 <= i < es.len() && (#[trigger] es[i]).surface == s;
                if i < n {
                    assert(front[i].surface == s);
                }
            }
        }
        assert forall|i: int| 0 <= i < es.len() && #[trigger] fresh(i) implies
            w.index[es[i].surface] == places(i as nat, fresh).len() by {
            if i < n {
                assert(front[i] == es[i]);
                assert(front[i].surface == es[i].surface);
                assert(u.index.contains_key(es[i].surface));
                assert(u.index[front[i].surface] == places(i as nat, fresh).len());
            }
        }
    }
}

/// The tokens of an inventory that begins empty are numbered in the order of the list:
/// the aksharas, the morphemes, the strict and the ambiguous seeds, the two markers, the
/// listed punctuation, the dandas, the extended punctuation, the small letters, the
/// capital letters, the digits, the bytes and the non-joiner. What comes again takes no
/// new number.
pub proof fn law_numbers_of_the_base_inventory(
    aksharas: Seq<(Seq<char>, Seq<usize>)>,
    seeds: Seq<Seq<char>>,
    punct: Seq<Seq<char>>,
    strict: Seq<Seq<char>>,
    ambiguous: Seq<Seq<char>>,
    listed: Seq<Seq<char>>,
    more: Seq<Seq<char>>,
    latin: Seq<Seq<char>>,
    bytes: Seq<Seq<char>>,
    list: Seq<Seq<char>>,
    fresh: spec_fn(int) -> bool,
    i: int,
)
    requires
        initialized(
            VocabModel::empty(),
            aksharas,
            seeds,
            punct,
            strict,
            ambiguous,
            byte_table(),
        ).len() <= usize::MAX,
        listed.len() == aksharas.len(),
        forall|k: int| 0 <= k < listed.len() ==> #[trigger] listed[k] == aksharas[k].0,
        more.len() == 15,
        forall|k: int|
            0 <= k < 15 ==> (#[trigger] more[k]).len() == 1 && more[k][0] as int == if k < 6 {
                0x2010 + k
            } else if k < 14 {
                0x2018 + (k - 6)
            } else {
                0x2026int
            },
        latin.len() == 62,
        forall|k: int|
            0 <= k < 62 ==> (#[trigger] latin[k]).len() == 1 && latin[k][0] as int == if k < 26 {
                'a' as int + k
            } else if k < 52 {
                'A' as int + (k - 26)
            } else {
                '0' as int + (k - 52)
            },
        bytes.len() == 256,
        forall|k: int| 0 <= k < 256 ==> #[trigger] bytes[k] == seq![byte_char(k as u8)],
        list == listed + seeds + strict + ambiguous + seq![seq!['\u{2581}'], seq!['\u{2582}']]
            + punct + seq![seq!['\u{0964}'], seq!['\u{0965}']] + more + latin + bytes + seq![
            seq!['\u{200C}'],
        ],
        forall|k: int|
            0 <= k < list.len() ==> (#[trigger] fresh(k) <==> forall|j: int|
                0 <= j < k ==> #[trigger] list[j] != list[k]),
        0 <= i < list.len(),
        fresh(i),
    ensures
        ({
            let w = initialized(
                VocabModel::empty(),
                aksharas,
                seeds,
                punct,
                strict,
                ambiguous,
                byte_table(),
            );
            &&& w.len() == places(list.len(), fresh).len()
            &&& w.index.contains_key(list[i])
            &&& w.index[list[i]] == places(i as nat, fresh).len()
            &&& w.surfaces[places(i as nat, fresh).len() as int] == list[i]
        }),
{
    let table = byte_table();
    let v = VocabModel::empty();
    crate::lossless::lemma_base_entries(v, aksharas, seeds, punct, strict, ambiguous, table);
    let all = seeds + strict + ambiguous;
    let signs = all_punct(punct);
    let e1 = akshara_entries(aksharas, table);
    let e2 = seed_entries(all, strict, ambiguous, table);
    let e3 = marker_entries();
    let e4 = punct_entries(signs, table);
    let e5 = latin_entries();
    let e6 = byte_entries(table);
    let e7 = joiner_entries();
    let es = e1 + e2 + e3 + e4 + e5 + e6 + e7;
    let dandas = seq![seq!['\u{0964}'], seq!['\u{0965}']];
    let extended = extended_punct().map_values(|c: char| seq![c]);
    assert(extended =~= more) by {
        assert forall|k: int| 0 <= k < 15 implies extended[k] == more[k] by {
            assert(more[k] =~= seq![more[k][0]]);
            assert(extended[k] == seq![extended_punct()[k]]);
            assert(extended_punct()[k] as int == more[k][0] as int);
        }
    }
    assert(signs == punct + dandas + more);
    assert forall|k: int| 0 <= k < es.len() implies (#[trigger] es[k]).surface == list[k] by {
        let a = e1.len() as int;
        let b = a + e2.len();
        let c = b + e3.len();
        let d = c + e4.len();
        let e = d + e5.len();
        let f = e + e6.len();
        if k < a {
            assert(es[k] == e1[k]);
            assert(list[k] == listed[k]);
        } else if k < b {
            assert(es[k] == e2[k - a]);
            assert(list[k] == all[k - a]);
        } else if k < c {
            assert(es[k] == e3[k - b]);
        } else if k < d {
            assert(es[k] == e4[k - c]);
            assert(list[k] == signs[k - c]);
        } else if k < e {
            assert(es[k] == e5[k - d]);
            assert(list[k] == latin[k - d]);
            assert(latin[k - d] =~= seq![latin_chars()[k - d]]);
        } else if k < f {
            assert(es[k] == e6[k - e]);
            assert(list[k] == bytes[k - e]);
        } else {
            assert(es[k] == e7[k - f]);
        }
    }
    assert(es.len() == list.len());
    assert forall|k: int| 0 <= k < es.len() implies (#[trigger] fresh(k) <==> forall|j: int|
        0 <= j < k ==> (#[trigger] es[j]).surface != es[k].surface) by {
        assert(es[k].surface == list[k]);
        if fresh(k) {
            assert forall|j: int| 0 <= j < k implies (#[trigger] es[j]).surface
                != es[k].surface by {
                assert(es[j].surface == list[j]);
                assert(list[j] != list[k]);
            }
        } else {
            let j = choose|j: int| 0 <= j < k && #[trigger] list[j] == list[k];
            assert(es[j].surface == list[j]);
        }
    }
    lemma_numbered(es, fresh);
    let w = v.added_all(es);
    assert(es[i].surface == list[i]);
    assert(w.index.contains_key(list[i]));
}

} // verus!
