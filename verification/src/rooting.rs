//! Which roots tokens have, and which surfaces induction and abbreviations bring.

use crate::counting::{lemma_places, places};
use crate::paradigm::{roots_with_prefix, ParadigmModel};
use crate::script::Script;
use crate::sorting::{lemma_sorted, sorted, total_order};
use crate::tokenizer::{
    law_likeliest, lexicon_of, longest_abbreviation, root_number, surfaces_of, taken, token_roots,
    with_all_induced, HimalayanTokenization,
};
use crate::vocab::{by_prior, prior_of, tagged_roots, TokenModel, VocabModel};
use vstd::prelude::*;

verus! {

/// Whether one of the paradigms of a root knows a prefix.
pub open spec fn root_knows(ps: Seq<ParadigmModel>, root: usize, prefix: Seq<char>) -> bool {
    exists|k: int|
        0 <= k < ps.len() && (#[trigger] ps[k]).root == root && ps[k].allowed.contains_key(prefix)
}

/// The roots with a prefix are those that know it, one for each paradigm that does, in
/// the order of the paradigms.
pub proof fn law_roots_with_a_prefix(
    ps: Seq<ParadigmModel>,
    p: ParadigmModel,
    prefix: Seq<char>,
    root: usize,
)
    ensures
        roots_with_prefix(ps, prefix).contains(root) <==> root_knows(ps, root, prefix),
        roots_with_prefix(Seq::<ParadigmModel>::empty(), prefix) == Seq::<usize>::empty(),
        roots_with_prefix(ps.push(p), prefix) == if p.allowed.contains_key(prefix) {
            roots_with_prefix(ps, prefix).push(p.root)
        } else {
            roots_with_prefix(ps, prefix)
        },
    decreases ps.len(),
{
    assert(ps.push(p).drop_last() =~= ps);
    if ps.len() > 0 {
        let front = ps.drop_last();
        let last = ps.last();
        law_roots_with_a_prefix(front, p, prefix, root);
        let before = roots_with_prefix(front, prefix);
        crate::akshara::lemma_push_contains(before, last.root, root);
        if root_knows(front, root, prefix) {
            let k = choose|k: int|
                0 <= k < front.len() && (#[trigger] front[k]).root == root
                    && front[k].allowed.contains_key(prefix);
            assert(ps[k].root == root && ps[k].allowed.contains_key(prefix));
        }
        if last.root == root && last.allowed.contains_key(prefix) {
            assert(ps[ps.len() - 1].root == root);
        }
        if root_knows(ps, root, prefix) {
            let k = choose|k: int|
                0 <= k < ps.len() && (#[trigger] ps[k]).root == root
                    && ps[k].allowed.contains_key(prefix);
            if k < front.len() {
                assert(front[k].root == root && front[k].allowed.contains_key(prefix));
            }
        }
    }
}

/// Tagging: an akshara, a morpheme, a merged or a loaded token whose surface some root
/// knows gets the roots that know it, those with the greater prior first and of equals
/// the one with the smaller number; a root without a prior counts as one. Every other
/// token keeps its roots.
pub proof fn law_tagging(
    v: VocabModel,
    ps: Seq<ParadigmModel>,
    prior: Map<usize, i64>,
    i: int,
    root: usize,
)
    requires
        v.valid(),
        0 <= i < v.len(),
    ensures
        ({
            let rs = tagged_roots(v, ps, prior)[i];
            let t = v.tokens[i];
            let weigh = |r: usize|
                if prior.contains_key(r) {
                    prior[r] as int
                } else {
                    0x1_0000_0000int
                };
            &&& tagged_roots(v, ps, prior).len() == v.len()
            &&& (t is Akshara || t is SeededMorpheme || t is MergedToken || t is Loaded) && (exists|
                r: usize,
            | #[trigger]
                root_knows(ps, r, v.surfaces[i])) ==> {
                &&& rs.contains(root) <==> root_knows(ps, root, v.surfaces[i])
                &&& rs.to_multiset() == roots_with_prefix(ps, v.surfaces[i]).to_multiset()
                &&& forall|x: int, y: int|
                    0 <= x <= y < rs.len() ==> weigh(#[trigger] rs[x]) > weigh(#[trigger] rs[y])
                        || (weigh(rs[x]) == weigh(rs[y]) && rs[x] <= rs[y])
            }
            &&& !(t is Akshara || t is SeededMorpheme || t is MergedToken || t is Loaded) ==> rs
                == v.roots[i]
            &&& (forall|r: usize| !#[trigger] root_knows(ps, r, v.surfaces[i])) ==> rs == v.roots[i]
        }),
{
    let s = v.surfaces[i];
    let found = roots_with_prefix(ps, s);
    let leq = by_prior(prior);
    let p0 = ParadigmModel { root: 0, allowed: Map::empty() };
    law_roots_with_a_prefix(ps, p0, s, root);
    assert(total_order(leq));
    lemma_sorted(found, leq);
    let rs = sorted(found, leq);
    vstd::seq_lib::to_multiset_contains(found, root);
    vstd::seq_lib::to_multiset_contains(rs, root);
    if exists|r: usize| #[trigger] root_knows(ps, r, s) {
        let r = choose|r: usize| #[trigger] root_knows(ps, r, s);
        law_roots_with_a_prefix(ps, p0, s, r);
        assert(found.len() > 0);
    }
    if found.len() > 0 {
        law_roots_with_a_prefix(ps, p0, s, found[0]);
        assert(found.contains(found[0]));
        assert(root_knows(ps, found[0], s));
    }
    assert forall|x: int, y: int| 0 <= x <= y < rs.len() implies prior_of(
        prior,
        #[trigger] rs[x],
    ) > prior_of(prior, #[trigger] rs[y]) || (prior_of(prior, rs[x]) == prior_of(prior, rs[y])
        && rs[x] <= rs[y]) by {
        assert(leq(rs[x], rs[y]));
    }
}

/// The root of a token: the lexicon decides over its surface; else a token with one root
/// has that; one with several has, if that is wanted, the one with the greatest prior
/// and of equals the one with the smallest number; and any other has none.
pub proof fn law_roots_of_tokens(
    v: VocabModel,
    lexicon: Map<Seq<char>, usize>,
    prior: Map<usize, i64>,
    by_likelihood: bool,
    i: int,
    other: usize,
)
    requires
        v.valid(),
        0 <= i < v.len(),
    ensures
        ({
            let r = token_roots(v, lexicon, prior, by_likelihood)[i];
            let roots = v.roots[i];
            let weigh = |r: usize|
                if prior.contains_key(r) {
                    prior[r] as int
                } else {
                    0x1_0000_0000int
                };
            &&& token_roots(v, lexicon, prior, by_likelihood).len() == v.len()
            &&& lexicon.contains_key(v.surfaces[i]) ==> r == Some(lexicon[v.surfaces[i]])
            &&& !lexicon.contains_key(v.surfaces[i]) ==> {
                &&& roots.len() == 0 ==> r is None
                &&& roots.len() == 1 ==> r == Some(roots[0])
                &&& roots.len() > 1 && !by_likelihood ==> r is None
                &&& roots.len() > 1 && by_likelihood ==> r is Some && roots.contains(r->0) && (
                roots.contains(other) ==> weigh(r->0) > weigh(other) || (weigh(r->0) == weigh(other)
                    && r->0 <= other))
            }
        }),
{
    let roots = v.roots[i];
    assert(i as usize == i);
    assert(v.roots_of(i as usize) == roots);
    assert(v.surface_of(i as usize) == v.surfaces[i]);
    if roots.len() > 1 {
        assert(roots.contains(roots[0]));
        law_likeliest(roots, prior, roots[0]);
        if roots.contains(other) {
            law_likeliest(roots, prior, other);
        }
    }
}

/// The number under which a root is exported is its own, and minus one stands for none.
pub proof fn law_root_numbers(r: usize)
    requires
        r <= i64::MAX,
    ensures
        root_number(Some(Some(r))) == r,
        root_number(Some(None)) == -1,
        root_number(None) == -1,
{
}

/// A lexicon knows the surfaces of its entries, and of two entries for one surface the
/// later counts.
pub proof fn law_later_entries_of_a_lexicon_count(
    entries: Seq<(String, usize)>,
    s: Seq<char>,
    k: int,
)
    requires
        0 <= k < entries.len(),
        entries[k].0@ == s,
        forall|i: int| k < i < entries.len() ==> (#[trigger] entries[i]).0@ != s,
    ensures
        lexicon_of(entries).contains_key(s),
        lexicon_of(entries)[s] == entries[k].1,
    decreases entries.len(),
{
    if k < entries.len() - 1 {
        let front = entries.drop_last();
        assert(front[k] == entries[k]);
        assert forall|i: int| k < i < front.len() implies (#[trigger] front[i]).0@ != s by {
            assert(front[i] == entries[i]);
        }
        law_later_entries_of_a_lexicon_count(front, s, k);
        assert(entries[entries.len() - 1].0@ != s);
    }
}

/// A lexicon knows nothing else.
pub proof fn law_lexicon_knows_its_entries_only(entries: Seq<(String, usize)>, s: Seq<char>)
    requires
        lexicon_of(entries).contains_key(s),
    ensures
        exists|i: int| 0 <= i < entries.len() && (#[trigger] entries[i]).0@ == s,
    decreases entries.len(),
{
    if entries.len() > 0 {
        let n = entries.len() - 1;
        if entries[n].0@ != s {
            law_lexicon_knows_its_entries_only(entries.drop_last(), s);
            let i = choose|i: int|
                0 <= i < entries.drop_last().len() && (#[trigger] entries.drop_last()[i]).0@ == s;
            assert(entries[i].0@ == s);
        }
    }
}

/// Whether a text has at least `min` characters and a full stop or a danda among them.
pub open spec fn abbreviates(s: Seq<char>, min: nat) -> bool {
    s.len() >= min && exists|i: int|
        0 <= i < s.len() && (#[trigger] s[i] == '.' || s[i] == '\u{0964}')
}

proof fn lemma_abbreviates(s: Seq<char>, min: nat)
    ensures
        abbreviates(s, min) <==> s.len() >= min && crate::encoding::has_stop(s),
{
    if crate::encoding::has_stop(s) {
        let k = choose|k: int| 0 <= k < s.len() && crate::encoding::is_stop(#[trigger] s[k]);
        assert(s[k] == '.' || s[k] == '\u{0964}');
    }
    if exists|i: int| 0 <= i < s.len() && (#[trigger] s[i] == '.' || s[i] == '\u{0964}') {
        let i = choose|i: int| 0 <= i < s.len() && (#[trigger] s[i] == '.' || s[i] == '\u{0964}');
        assert(crate::encoding::is_stop(s[i]));
    }
}

/// The limit for abbreviations is the length of the longest among the texts with a stop
/// that are long enough: none is longer, and one has that length; it is zero exactly
/// where there is none.
pub proof fn law_longest_abbreviation(list: Seq<Seq<char>>, min: nat)
    ensures
        forall|i: int|
            0 <= i < list.len() && abbreviates(#[trigger] list[i], min) ==> list[i].len()
                <= longest_abbreviation(list, min),
        longest_abbreviation(list, min) > 0 ==> exists|i: int|
            0 <= i < list.len() && abbreviates(#[trigger] list[i], min) && list[i].len()
                == longest_abbreviation(list, min),
    decreases list.len(),
{
    if list.len() > 0 {
        let front = list.drop_last();
        let n = list.len() - 1;
        law_longest_abbreviation(front, min);
        lemma_abbreviates(list[n], min);
        assert forall|i: int|
            0 <= i < list.len() && abbreviates(#[trigger] list[i], min) implies list[i].len()
            <= longest_abbreviation(list, min) by {
            if i < n {
                assert(front[i] == list[i]);
            }
        }
        if longest_abbreviation(list, min) > 0 {
            if longest_abbreviation(list, min) == longest_abbreviation(front, min) {
                let i = choose|i: int|
                    0 <= i < front.len() && abbreviates(#[trigger] front[i], min) && front[i].len()
                        == longest_abbreviation(front, min);
                assert(abbreviates(list[i], min) && list[i].len() == longest_abbreviation(
                    list,
                    min,
                ));
            } else {
                assert(abbreviates(list[n], min));
            }
        }
    }
}

/// The surfaces of tokens, one after the other; a number that is no token has none.
pub proof fn law_surfaces_of_tokens(v: VocabModel, ids: Seq<usize>, id: usize)
    ensures
        surfaces_of(v, Seq::<usize>::empty()) == Seq::<Seq<char>>::empty(),
        surfaces_of(v, ids.push(id)) == if id < v.surfaces.len() {
            surfaces_of(v, ids).push(v.surfaces[id as int])
        } else {
            surfaces_of(v, ids)
        },
{
    assert(ids.push(id).drop_last() =~= ids);
}

/// Whether a candidate has a surface that is not empty and enough confidence.
pub open spec fn convinces(c: (String, i64), c_lo: i64) -> bool {
    c.0@.len() > 0 && c.1 >= c_lo
}

/// Induction puts in every candidate that convinces and no other: its surface is known
/// then, and its token is an ambiguous seed.
pub proof fn law_induction(
    v: VocabModel,
    candidates: Seq<(String, i64)>,
    c_lo: i64,
    s: Seq<char>,
    id: usize,
)
    requires
        v.valid(),
        with_all_induced(v, candidates, c_lo).len() <= usize::MAX,
    ensures
        ({
            let w = with_all_induced(v, candidates, c_lo);
            &&& w.valid()
            &&& w.len() >= v.len()
            &&& w.strict == v.strict
            &&& v.index.contains_key(s) ==> w.index.contains_key(s) && w.index[s] == v.index[s]
            &&& w.index.contains_key(s) <==> v.index.contains_key(s) || exists|i: int|
                0 <= i < candidates.len() && (#[trigger] candidates[i]).0@ == s && convinces(
                    candidates[i],
                    c_lo,
                )
            &&& w.ambiguous.contains(id) <==> v.ambiguous.contains(id) || exists|i: int|
                0 <= i < candidates.len() && convinces(#[trigger] candidates[i], c_lo)
                    && w.index[candidates[i].0@] == id
        }),
    decreases candidates.len(),
{
    if candidates.len() > 0 {
        let front = candidates.drop_last();
        let n = candidates.len() - 1;
        let c = candidates[n];
        let u = with_all_induced(v, front, c_lo);
        let w = with_all_induced(v, candidates, c_lo);
        assert(taken(c, c_lo) == convinces(c, c_lo));
        assert(u.len() <= w.len());
        law_induction(v, front, c_lo, s, id);
        if convinces(c, c_lo) {
            let e = crate::vocab::Entry {
                token: crate::vocab::TokenModel::SeededMorpheme(c.0@),
                surface: c.0@,
                strict: false,
                ambiguous: true,
            };
            let grown = u.added(e);
            if !u.index.contains_key(c.0@) {
                crate::vocab::lemma_pushed_valid(
                    u,
                    e.token,
                    e.surface,
                    e.token.script(),
                    e.token.own_roots(),
                );
            }
            assert(grown.valid());
            assert(w.valid());
        }
        if exists|i: int|
            0 <= i < candidates.len() && (#[trigger] candidates[i]).0@ == s && convinces(
                candidates[i],
                c_lo,
            ) {
            let i = choose|i: int|
                0 <= i < candidates.len() && (#[trigger] candidates[i]).0@ == s && convinces(
                    candidates[i],
                    c_lo,
                );
            if i < n {
                assert(front[i].0@ == s && convinces(front[i], c_lo));
            }
        }
        if w.index.contains_key(s) && !v.index.contains_key(s) {
            if u.index.contains_key(s) {
                let i = choose|i: int|
                    0 <= i < front.len() && (#[trigger] front[i]).0@ == s && convinces(
                        front[i],
                        c_lo,
                    );
                assert(candidates[i].0@ == s && convinces(candidates[i], c_lo));
            } else {
                assert(candidates[n].0@ == s && convinces(candidates[n], c_lo));
            }
        }
        assert forall|i: int| 0 <= i < front.len() && convinces(#[trigger] front[i], c_lo) implies
            w.index[front[i].0@] == u.index[front[i].0@] by {
            law_induction(v, front, c_lo, front[i].0@, id);
            assert(front[i].0@ == front[i].0@);
            assert(u.index.contains_key(front[i].0@));
        }
        if w.ambiguous.contains(id) && !v.ambiguous.contains(id) {
            if u.ambiguous.contains(id) {
                let i = choose|i: int|
                    0 <= i < front.len() && convinces(#[trigger] front[i], c_lo)
                        && u.index[front[i].0@] == id;
                assert(convinces(candidates[i], c_lo) && w.index[candidates[i].0@] == id);
            } else {
                assert(convinces(candidates[n], c_lo) && w.index[candidates[n].0@] == id);
            }
        }
        if exists|i: int|
            0 <= i < candidates.len() && convinces(#[trigger] candidates[i], c_lo)
                && w.index[candidates[i].0@] == id {
            let i = choose|i: int|
                0 <= i < candidates.len() && convinces(#[trigger] candidates[i], c_lo)
                    && w.index[candidates[i].0@] == id;
            if i < n {
                assert(convinces(front[i], c_lo) && u.index[front[i].0@] == id);
            }
        }
    }
}

/// What induction adds are morphemes in Devanagari script, behind the tokens that were
/// there, which stay as they are.
pub proof fn law_induced_tokens(
    v: VocabModel,
    candidates: Seq<(String, i64)>,
    c_lo: i64,
    i: int,
)
    requires
        v.valid(),
        with_all_induced(v, candidates, c_lo).len() <= usize::MAX,
        0 <= i < with_all_induced(v, candidates, c_lo).len(),
    ensures
        ({
            let w = with_all_induced(v, candidates, c_lo);
            &&& i < v.len() ==> w.tokens[i] == v.tokens[i] && w.surfaces[i] == v.surfaces[i]
                && w.scripts[i] == v.scripts[i] && w.roots[i] == v.roots[i]
            &&& i >= v.len() ==> w.tokens[i] == TokenModel::SeededMorpheme(w.surfaces[i])
                && w.scripts[i] == Script::DEV && w.roots[i] == Seq::<usize>::empty()
        }),
    decreases candidates.len(),
{
    if candidates.len() > 0 {
        let front = candidates.drop_last();
        let u = with_all_induced(v, front, c_lo);
        let w = with_all_induced(v, candidates, c_lo);
        assert(u.len() <= w.len());
        law_induction(v, front, c_lo, Seq::empty(), 0);
        if i < u.len() {
            law_induced_tokens(v, front, c_lo, i);
        }
    }
}

/// The confidence that is kept of a surface is that of the last candidate with it that
/// convinces.
pub proof fn law_last_confidence_is_kept(
    v: VocabModel,
    candidates: Seq<(String, i64)>,
    c_lo: i64,
    k: int,
)
    requires
        v.valid(),
        with_all_induced(v, candidates, c_lo).len() <= usize::MAX,
        0 <= k < candidates.len(),
        convinces(candidates[k], c_lo),
        forall|i: int|
            k < i < candidates.len() && convinces(#[trigger] candidates[i], c_lo)
                ==> candidates[i].0@ != candidates[k].0@,
    ensures
        ({
            let w = with_all_induced(v, candidates, c_lo);
            let id = w.index[candidates[k].0@];
            w.confidence.contains_key(id) && w.confidence[id] == candidates[k].1
        }),
    decreases candidates.len(),
{
    let front = candidates.drop_last();
    let n = candidates.len() - 1;
    let c = candidates[n];
    let u = with_all_induced(v, front, c_lo);
    let w = with_all_induced(v, candidates, c_lo);
    let s = candidates[k].0@;
    assert(taken(c, c_lo) == convinces(c, c_lo));
    if k < n {
        assert(front[k] == candidates[k]);
        assert forall|i: int|
            k < i < front.len() && convinces(#[trigger] front[i], c_lo) implies front[i].0@
            != front[k].0@ by {
            assert(front[i] == candidates[i]);
        }
        assert(u.len() <= w.len());
        law_last_confidence_is_kept(v, front, c_lo, k);
        law_induction(v, front, c_lo, s, 0);
        law_induction(v, candidates, c_lo, s, 0);
        law_induction(v, candidates, c_lo, c.0@, 0);
        assert(front[k].0@ == s && convinces(front[k], c_lo));
        assert(u.index.contains_key(s));
        assert(w.index[s] == u.index[s]);
        if convinces(c, c_lo) {
            assert(c.0@ != s);
            assert(candidates[n].0@ == c.0@);
            assert(w.index.contains_key(c.0@));
            assert(w.surfaces[w.index[c.0@] as int] == c.0@);
            assert(w.surfaces[w.index[s] as int] == s);
            assert(w.index[c.0@] != w.index[s]);
        }
    }
}

/// As many candidates are counted as convince.
pub proof fn law_number_of_induced_units(
    candidates: Seq<(String, i64)>,
    c_lo: i64,
    holds: spec_fn(int) -> bool,
)
    requires
        forall|i: int|
            0 <= i < candidates.len() ==> (#[trigger] holds(i) <==> convinces(candidates[i], c_lo)),
    ensures
        candidates.filter(|c: (String, i64)| taken(c, c_lo)).len() == places(
            candidates.len(),
            holds,
        ).len(),
    decreases candidates.len(),
{
    reveal(Seq::filter);
    lemma_places(candidates.len(), holds);
    if candidates.len() > 0 {
        let front = candidates.drop_last();
        assert(holds(candidates.len() - 1) <==> convinces(candidates.last(), c_lo));
        assert forall|i: int| 0 <= i < front.len() implies (#[trigger] holds(i) <==> convinces(
            front[i],
            c_lo,
        )) by {
            assert(front[i] == candidates[i]);
        }
        law_number_of_induced_units(front, c_lo, holds);
    }
}

/// The numbers under which scripts are exported, and their ranks in training.
pub proof fn law_script_numbers()
    ensures
        Script::DEV.code() == 0,
        Script::LAT.code() == 1,
        Script::PUN.code() == 2,
        Script::FMT.code() == 3,
        Script::MAL.code() == 4,
        Script::DEV.rank() > Script::PUN.rank(),
        Script::PUN.rank() > Script::LAT.rank(),
{
}

/// A training goes by what the tokenizer holds: its paradigms, priors, weights, and its
/// settings.
pub proof fn law_rules_of_a_training(t: &HimalayanTokenization, theta: u64, latin: bool)
    ensures
        ({
            let rules = t.training_rules(theta, latin);
            &&& rules.paradigms == t.paradigm_registry@
            &&& rules.theta == theta
            &&& rules.latin_pass == latin
            &&& rules.prior == t.root_prior@
            &&& rules.weights == t.token_weight@
            &&& rules.probabilistic == t.use_probabilistic_k
            &&& rules.cap == t.root_set_cap
        }),
        t.tagged_vocab().roots == tagged_roots(t.vocab@, t.paradigm_registry@, t.root_prior@),
        t.tagged_vocab().surfaces == t.vocab@.surfaces,
        t.tagged_vocab().index == t.vocab@.index,
        t.tagged_vocab().scripts == t.vocab@.scripts,
        t.tagged_vocab().strict == t.vocab@.strict,
        t.tagged_vocab().ambiguous == t.vocab@.ambiguous,
{
}

/// Encoding goes by the vocabulary, the automaton and the limit for abbreviations that
/// the tokenizer holds.
pub proof fn law_encoder_of_a_tokenizer(t: &HimalayanTokenization)
    ensures
        t.encoder().vocab == t.vocab@,
        t.encoder().dfa == t.akshara_dfa@,
        t.encoder().seed_max_len == t.seed_max_len,
{
}

/// A plain tokenizer has no priors, weights, lexicon or roots of tokens, and its scores
/// are off.
pub proof fn law_plain_tokenizer(t: &HimalayanTokenization, id: usize, s: Seq<char>)
    requires
        t.is_plain(),
    ensures
        !t.root_prior@.contains_key(id),
        !t.token_weight@.contains_key(id),
        !t.lexicon@.contains_key(s),
        !t.paradigm_embedding@.contains_key(id),
        !t.use_probabilistic_k,
        t.root_set_cap == 0,
{
}

} // verus!
