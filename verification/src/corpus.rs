//! The training corpus: word types with their counts, and the frequencies of
//! adjacent pairs.

use crate::pair_map::PairMap;
use crate::vocab::copy_ids;
use vstd::prelude::*;

verus! {

/// A word type and how often it occurs.
pub type WordModel = (Seq<usize>, u64);

/// How often `a` stands directly before `b`.
pub open spec fn pair_count(s: Seq<usize>, a: usize, b: usize) -> nat
    decreases s.len(),
{
    if s.len() < 2 {
        0
    } else {
        pair_count(s.skip(1), a, b) + if s[0] == a && s[1] == b {
            1nat
        } else {
            0nat
        }
    }
}

/// The frequency of a pair: its occurrences inside words, each word type as often
/// as it occurs.
pub open spec fn freq(words: Seq<WordModel>, a: usize, b: usize) -> nat
    decreases words.len(),
{
    if words.len() == 0 {
        0
    } else {
        freq(words.drop_last(), a, b) + (words.last().1 as nat) * pair_count(
            words.last().0,
            a,
            b,
        )
    }
}

/// Every frequency can be counted.
pub open spec fn pairs_fit(words: Seq<WordModel>) -> bool {
    forall|x: usize, y: usize| #[trigger] freq(words, x, y) <= u64::MAX
}

/// The number of tokens in the running text.
pub open spec fn weight(words: Seq<WordModel>) -> nat
    decreases words.len(),
{
    if words.len() == 0 {
        0
    } else {
        weight(words.drop_last()) + (words.last().1 as nat) * words.last().0.len()
    }
}

/// The number of tokens in the word types.
pub open spec fn token_count(words: Seq<WordModel>) -> nat
    decreases words.len(),
{
    if words.len() == 0 {
        0
    } else {
        token_count(words.drop_last()) + words.last().0.len()
    }
}

/// A word after `a` before `b` was replaced by `n`, from left to right.
pub open spec fn merged_word(s: Seq<usize>, a: usize, b: usize, n: usize) -> Seq<usize>
    decreases s.len(),
{
    if s.len() < 2 {
        s
    } else if s[0] == a && s[1] == b {
        merged_word(seq![n] + s.skip(2), a, b, n)
    } else {
        seq![s[0]] + merged_word(s.skip(1), a, b, n)
    }
}

/// All words after the merge.
pub open spec fn merged_words(words: Seq<WordModel>, a: usize, b: usize, n: usize) -> Seq<
    WordModel,
> {
    words.map_values(|w: WordModel| (merged_word(w.0, a, b, n), w.1))
}

/// The pairs that the merge breaks up or makes beside the replaced tokens of a word
/// before which `prev` stands.
pub open spec fn touched_in(
    prev: Option<usize>,
    s: Seq<usize>,
    a: usize,
    b: usize,
    n: usize,
) -> Set<(usize, usize)>
    decreases s.len(),
{
    if s.len() < 2 {
        Set::empty()
    } else if s[0] == a && s[1] == b {
        let left = match prev {
            Some(l) => set![(l, a), (l, n)],
            None => Set::empty(),
        };
        let right = if s.len() > 2 {
            set![(b, s[2]), (n, s[2])]
        } else {
            Set::empty()
        };
        left.union(right).union(touched_in(prev, seq![n] + s.skip(2), a, b, n))
    } else {
        touched_in(Some(s[0]), s.skip(1), a, b, n)
    }
}

/// The pairs that the merge touches in any word.
pub open spec fn touched_pairs(words: Seq<WordModel>, a: usize, b: usize, n: usize) -> Set<
    (usize, usize),
>
    decreases words.len(),
{
    if words.len() == 0 {
        Set::empty()
    } else {
        touched_pairs(words.drop_last(), a, b, n).union(
            touched_in(None, words.last().0, a, b, n),
        )
    }
}

/// The stored frequency of a pair.
pub open spec fn stored(m: Map<(usize, usize), u64>, a: usize, b: usize) -> nat {
    if m.contains_key((a, b)) {
        m[(a, b)] as nat
    } else {
        0
    }
}

/// The stored frequencies are those of the words, and no zero is stored.
pub open spec fn exact(m: Map<(usize, usize), u64>, words: Seq<WordModel>) -> bool {
    &&& forall|x: usize, y: usize| #[trigger] stored(m, x, y) == freq(words, x, y)
    &&& forall|x: usize, y: usize| #[trigger] m.contains_key((x, y)) ==> m[(x, y)] > 0
}

/// One if the two pairs are the same.
pub open spec fn same_pair(x: usize, y: usize, a: usize, b: usize) -> nat {
    if x == a && y == b {
        1
    } else {
        0
    }
}

/// The pair that the end of `p` and the front of `q` form, counted.
pub open spec fn seam(p: Seq<usize>, q: Seq<usize>, x: usize, y: usize) -> nat {
    if p.len() > 0 && q.len() > 0 {
        same_pair(p.last(), q[0], x, y)
    } else {
        0
    }
}

pub proof fn lemma_pair_count_concat(p: Seq<usize>, q: Seq<usize>, x: usize, y: usize)
    ensures
        pair_count(p + q, x, y) == pair_count(p, x, y) + seam(p, q, x, y) + pair_count(q, x, y),
    decreases p.len(),
{
    if p.len() == 0 {
        assert(p + q =~= q);
    } else if p.len() == 1 {
        assert((p + q).skip(1) =~= q);
    } else {
        lemma_pair_count_concat(p.skip(1), q, x, y);
        assert((p + q).skip(1) =~= p.skip(1) + q);
        assert(p.skip(1).last() == p.last());
    }
}

pub proof fn lemma_pair_count_small(s: Seq<usize>, x: usize, y: usize)
    ensures
        pair_count(s, x, y) <= s.len(),
        s.len() < 2 ==> pair_count(s, x, y) == 0,
        s.len() == 2 ==> pair_count(s, x, y) == same_pair(s[0], s[1], x, y),
    decreases s.len(),
{
    if s.len() >= 2 {
        lemma_pair_count_small(s.skip(1), x, y);
    }
}

/// What the replacement of one occurrence does to the count of a pair.
proof fn lemma_replace(
    p: Seq<usize>,
    q: Seq<usize>,
    a: usize,
    b: usize,
    n: usize,
    x: usize,
    y: usize,
)
    ensures
        ({
            let base = pair_count(p, x, y) + pair_count(q, x, y);
            let la = if p.len() > 0 {
                same_pair(p.last(), a, x, y)
            } else {
                0
            };
            let ln = if p.len() > 0 {
                same_pair(p.last(), n, x, y)
            } else {
                0
            };
            let br = if q.len() > 0 {
                same_pair(b, q[0], x, y)
            } else {
                0
            };
            let nr = if q.len() > 0 {
                same_pair(n, q[0], x, y)
            } else {
                0
            };
            &&& pair_count(p + seq![a, b] + q, x, y) == base + la + same_pair(a, b, x, y) + br
            &&& pair_count(p + seq![n] + q, x, y) == base + ln + nr
        }),
{
    lemma_pair_count_concat(p, seq![a, b], x, y);
    lemma_pair_count_concat(p + seq![a, b], q, x, y);
    lemma_pair_count_small(seq![a, b], x, y);
    assert((p + seq![a, b]).last() == b);
    lemma_pair_count_concat(p, seq![n], x, y);
    lemma_pair_count_concat(p + seq![n], q, x, y);
    lemma_pair_count_small(seq![n], x, y);
    assert((p + seq![n]).last() == n);
}

pub proof fn lemma_freq_update(words: Seq<WordModel>, k: int, s: Seq<usize>, x: usize, y: usize)
    requires
        0 <= k < words.len(),
    ensures
        freq(words.update(k, (s, words[k].1)), x, y) + words[k].1 * pair_count(words[k].0, x, y)
            == freq(words, x, y) + words[k].1 * pair_count(s, x, y),
    decreases words.len(),
{
    let w = words.update(k, (s, words[k].1));
    if k == words.len() - 1 {
        assert(w.drop_last() =~= words.drop_last());
    } else {
        lemma_freq_update(words.drop_last(), k, s, x, y);
        assert(w.drop_last() =~= words.drop_last().update(k, (s, words[k].1)));
    }
}

pub proof fn lemma_freq_le_weight(words: Seq<WordModel>, x: usize, y: usize)
    ensures
        freq(words, x, y) <= weight(words),
    decreases words.len(),
{
    if words.len() > 0 {
        lemma_freq_le_weight(words.drop_last(), x, y);
        let w = words.last();
        lemma_pair_count_small(w.0, x, y);
        let c = w.1 as int;
        let m = pair_count(w.0, x, y) as int;
        let l = w.0.len() as int;
        assert(c * m <= c * l) by (nonlinear_arith)
            requires
                c >= 0,
                0 <= m <= l,
        ;
    }
}

proof fn lemma_freq_take(words: Seq<WordModel>, k: int, x: usize, y: usize)
    requires
        0 <= k <= words.len(),
    ensures
        freq(words.take(k), x, y) <= freq(words, x, y),
    decreases words.len(),
{
    if k < words.len() {
        lemma_freq_take(words.drop_last(), k, x, y);
        assert(words.drop_last().take(k) =~= words.take(k));
        lemma_times(words.last().1, pair_count(words.last().0, x, y), 0);
    } else {
        assert(words.take(k) =~= words);
    }
}

/// A corpus whose tokens can all be counted has frequencies that can be counted.
pub proof fn lemma_weight_bounds_pairs(words: Seq<WordModel>)
    requires
        weight(words) <= u64::MAX,
    ensures
        pairs_fit(words),
{
    assert forall|x: usize, y: usize| #[trigger] freq(words, x, y) <= u64::MAX by {
        lemma_freq_le_weight(words, x, y);
    }
}

pub proof fn lemma_weight_take(words: Seq<WordModel>, k: int)
    requires
        0 <= k <= words.len(),
    ensures
        weight(words.take(k)) <= weight(words),
    decreases words.len(),
{
    if k < words.len() {
        lemma_weight_take(words.drop_last(), k);
        assert(words.drop_last().take(k) =~= words.take(k));
        assert(words.last().1 * words.last().0.len() >= 0) by (nonlinear_arith)
            requires
                words.last().1 >= 0,
                words.last().0.len() >= 0,
        ;
    } else {
        assert(words.take(k) =~= words);
    }
}

pub proof fn lemma_merged_word_len(s: Seq<usize>, a: usize, b: usize, n: usize)
    ensures
        merged_word(s, a, b, n).len() <= s.len(),
        pair_count(s, a, b) > 0 ==> merged_word(s, a, b, n).len() < s.len(),
    decreases s.len(),
{
    if s.len() >= 2 {
        if s[0] == a && s[1] == b {
            lemma_merged_word_len(seq![n] + s.skip(2), a, b, n);
        } else {
            lemma_merged_word_len(s.skip(1), a, b, n);
        }
    }
}

/// Merging a pair that occurs makes the words shorter, and no merge makes them
/// heavier.
pub proof fn lemma_merged_words_shrink(words: Seq<WordModel>, a: usize, b: usize, n: usize)
    ensures
        weight(merged_words(words, a, b, n)) <= weight(words),
        token_count(merged_words(words, a, b, n)) <= token_count(words),
        freq(words, a, b) > 0 ==> token_count(merged_words(words, a, b, n)) < token_count(words),
    decreases words.len(),
{
    let m = merged_words(words, a, b, n);
    if words.len() > 0 {
        lemma_merged_words_shrink(words.drop_last(), a, b, n);
        assert(m.drop_last() =~= merged_words(words.drop_last(), a, b, n));
        let w = words.last();
        lemma_merged_word_len(w.0, a, b, n);
        let c = w.1 as int;
        let x = m.last().0.len() as int;
        let y = w.0.len() as int;
        assert(c * x <= c * y) by (nonlinear_arith)
            requires
                c >= 0,
                0 <= x <= y,
        ;
        if freq(words, a, b) > 0 && freq(words.drop_last(), a, b) == 0 {
            assert(pair_count(w.0, a, b) > 0) by {
                if pair_count(w.0, a, b) == 0 {
                    assert(w.1 * pair_count(w.0, a, b) == 0);
                }
            }
        }
    } else {
        assert(m =~= words);
    }
}

spec fn behind(prev: Option<usize>, s: Seq<usize>) -> Seq<usize> {
    match prev {
        Some(l) => seq![l] + s,
        None => s,
    }
}

/// A pair that a merge does not touch keeps its count, but for the merged pair,
/// which is gone.
proof fn lemma_untouched_in(
    prev: Option<usize>,
    s: Seq<usize>,
    a: usize,
    b: usize,
    n: usize,
    x: usize,
    y: usize,
)
    requires
        !touched_in(prev, s, a, b, n).contains((x, y)),
        x == a && y == b && prev is Some && s.len() > 0 ==> !(prev->0 == a && s[0] == b),
    ensures
        pair_count(behind(prev, merged_word(s, a, b, n)), x, y) == (if x == a && y == b {
            0
        } else {
            pair_count(behind(prev, s), x, y)
        }),
    decreases s.len(),
{
    let head = match prev {
        Some(l) => seq![l],
        None => Seq::<usize>::empty(),
    };
    assert(behind(prev, s) =~= head + s);
    assert(behind(prev, merged_word(s, a, b, n)) =~= head + merged_word(s, a, b, n));
    lemma_pair_count_small(head, x, y);
    lemma_pair_count_concat(head, s, x, y);
    if s.len() < 2 {
        lemma_pair_count_small(s, x, y);
    } else if s[0] == a && s[1] == b {
        let q = s.skip(2);
        let t = seq![n] + q;
        if prev is Some {
            assert(touched_in(prev, s, a, b, n).contains((prev->0, n)));
            assert(touched_in(prev, s, a, b, n).contains((prev->0, a)));
        }
        if s.len() > 2 {
            assert(touched_in(prev, s, a, b, n).contains((b, q[0])));
            assert(touched_in(prev, s, a, b, n).contains((n, q[0])));
        }
        lemma_untouched_in(prev, t, a, b, n, x, y);
        lemma_replace(head, q, a, b, n, x, y);
        assert(head + seq![a, b] + q =~= head + s);
        assert(head + seq![n] + q =~= head + t);
        assert(behind(prev, t) =~= head + t);
    } else {
        let rest = s.skip(1);
        lemma_untouched_in(Some(s[0]), rest, a, b, n, x, y);
        assert(behind(Some(s[0]), rest) =~= s);
        assert(behind(Some(s[0]), merged_word(rest, a, b, n)) =~= merged_word(s, a, b, n));
        lemma_pair_count_concat(head, merged_word(s, a, b, n), x, y);
    }
}

/// A merge leaves a word as it is in which its pair does not stand.
pub proof fn lemma_no_pair(prev: Option<usize>, s: Seq<usize>, a: usize, b: usize, n: usize)
    requires
        forall|j: int| 0 <= j < s.len() - 1 ==> !(#[trigger] s[j] == a && s[j + 1] == b),
    ensures
        merged_word(s, a, b, n) == s,
        touched_in(prev, s, a, b, n) == Set::<(usize, usize)>::empty(),
    decreases s.len(),
{
    if s.len() >= 2 {
        assert(!(s[0] == a && s[0int + 1] == b));
        let t = s.skip(1);
        assert forall|j: int| 0 <= j < t.len() - 1 implies !(#[trigger] t[j] == a && t[j + 1]
            == b) by {
            assert(t[j] == s[j + 1]);
            assert(t[j + 1] == s[j + 1 + 1]);
        }
        lemma_no_pair(Some(s[0]), t, a, b, n);
        assert(seq![s[0]] + t =~= s);
    }
}

/// Whether `a` stands directly before `b` somewhere.
fn has_pair(tokens: &Vec<usize>, a: usize, b: usize) -> (yes: bool)
    ensures
        yes == holds_pair(tokens@, a, b),
{
    let n = tokens.len();
    let mut i: usize = 0;
    while i < n && n - i > 1
        invariant
            i <= n == tokens@.len(),
            forall|j: int| 0 <= j < i ==> !(#[trigger] tokens@[j] == a && tokens@[j + 1] == b),
        decreases n - i,
    {
        if tokens[i] == a && tokens[i + 1] == b {
            return true;
        }
        i = i + 1;
    }
    false
}

/// A pair that a merge does not touch keeps its frequency, but for the merged pair,
/// whose frequency is then zero.
pub proof fn lemma_untouched(
    words: Seq<WordModel>,
    a: usize,
    b: usize,
    n: usize,
    x: usize,
    y: usize,
)
    requires
        !touched_pairs(words, a, b, n).contains((x, y)),
    ensures
        freq(merged_words(words, a, b, n), x, y) == (if x == a && y == b {
            0
        } else {
            freq(words, x, y)
        }),
    decreases words.len(),
{
    let m = merged_words(words, a, b, n);
    if words.len() > 0 {
        lemma_untouched(words.drop_last(), a, b, n, x, y);
        lemma_untouched_in(None, words.last().0, a, b, n, x, y);
        assert(m.drop_last() =~= merged_words(words.drop_last(), a, b, n));
        lemma_times(words.last().1, 0, 0);
    }
}

/// All tokens are numbered below `n`.
pub open spec fn all_below(words: Seq<WordModel>, n: nat) -> bool {
    forall|j: int, i: int|
        0 <= j < words.len() && 0 <= i < words[j].0.len() ==> #[trigger] words[j].0[i] < n
}

/// A pair that stands somewhere is counted.
pub proof fn lemma_pair_count_at(s: Seq<usize>, j: int)
    requires
        0 <= j,
        j + 1 < s.len(),
    ensures
        pair_count(s, s[j], s[j + 1]) > 0,
    decreases j,
{
    if j > 0 {
        lemma_pair_count_at(s.skip(1), j - 1);
        assert(s.skip(1)[j - 1] == s[j]);
        assert(s.skip(1)[j] == s[j + 1]);
    }
}

pub proof fn lemma_pair_stands(s: Seq<usize>, x: usize, y: usize) -> (i: int)
    requires
        pair_count(s, x, y) > 0,
    ensures
        0 <= i < s.len() - 1,
        s[i] == x,
        s[i + 1] == y,
    decreases s.len(),
{
    if s[0] == x && s[1] == y {
        0
    } else {
        lemma_pair_stands(s.skip(1), x, y) + 1
    }
}

/// A pair with a frequency is made of tokens of the corpus.
pub proof fn lemma_freq_below(words: Seq<WordModel>, n: nat, x: usize, y: usize)
    requires
        all_below(words, n),
        freq(words, x, y) > 0,
    ensures
        x < n,
        y < n,
    decreases words.len(),
{
    let w = words.last();
    if pair_count(w.0, x, y) > 0 {
        let i = lemma_pair_stands(w.0, x, y);
        assert(words[words.len() - 1].0[i] < n);
        assert(words[words.len() - 1].0[i + 1] < n);
    } else {
        lemma_times(w.1, 0, 0);
        assert(all_below(words.drop_last(), n)) by {
            assert forall|j: int, i: int|
                0 <= j < words.drop_last().len() && 0 <= i
                    < words.drop_last()[j].0.len() implies #[trigger] words.drop_last()[j].0[i]
                < n by {
                assert(words[j].0[i] < n);
            }
        }
        lemma_freq_below(words.drop_last(), n, x, y);
    }
}

proof fn lemma_merged_word_below(s: Seq<usize>, a: usize, b: usize, n: usize, m: nat)
    requires
        forall|i: int| 0 <= i < s.len() ==> #[trigger] s[i] < m,
        n < m,
    ensures
        forall|i: int| 0 <= i < merged_word(s, a, b, n).len() ==> #[trigger] merged_word(
            s,
            a,
            b,
            n,
        )[i] < m,
    decreases s.len(),
{
    if s.len() >= 2 {
        if s[0] == a && s[1] == b {
            lemma_merged_word_below(seq![n] + s.skip(2), a, b, n, m);
            assert(merged_word(s, a, b, n) == merged_word(seq![n] + s.skip(2), a, b, n));
        } else {
            let rest = merged_word(s.skip(1), a, b, n);
            lemma_merged_word_below(s.skip(1), a, b, n, m);
            assert forall|i: int| 0 <= i < merged_word(s, a, b, n).len() implies #[trigger] merged_word(
                s,
                a,
                b,
                n,
            )[i] < m by {
                if i > 0 {
                    assert(rest[i - 1] < m);
                }
            }
        }
    } else {
        assert(merged_word(s, a, b, n) == s);
    }
}

pub proof fn lemma_merged_words_below(
    words: Seq<WordModel>,
    a: usize,
    b: usize,
    n: usize,
    m: nat,
)
    requires
        all_below(words, m),
        n < m,
    ensures
        all_below(merged_words(words, a, b, n), m),
{
    let t = merged_words(words, a, b, n);
    assert forall|j: int, i: int| 0 <= j < t.len() && 0 <= i < t[j].0.len() implies #[trigger] t[j].0[i]
        < m by {
        assert forall|k: int| 0 <= k < words[j].0.len() implies #[trigger] words[j].0[k] < m by {}
        lemma_merged_word_below(words[j].0, a, b, n, m);
    }
}

proof fn lemma_times(c: u64, p: nat, q: nat)
    ensures
        c * (p + q) == c * p + c * q,
        c * 0 == 0,
        c * 1 == c,
        p <= q ==> c * p <= c * q,
        c * p >= 0,
{
    assert(c * (p + q) == c * p + c * q) by (nonlinear_arith);
    assert(p <= q ==> c * p <= c * q) by (nonlinear_arith)
        requires
            c >= 0,
    ;
    assert(c * p >= 0) by (nonlinear_arith)
        requires
            c >= 0,
            p >= 0,
    ;
}

spec fn no_zero(m: Map<(usize, usize), u64>) -> bool {
    forall|x: usize, y: usize| #[trigger] m.contains_key((x, y)) ==> m[(x, y)] > 0
}

/// Lowers the frequency of a pair, to zero at the least.
fn dec_pair(freqs: &mut PairMap<u64>, a: usize, b: usize, count: u64)
    requires
        old(freqs).wf(),
        no_zero(old(freqs)@),
    ensures
        final(freqs).wf(),
        no_zero(final(freqs)@),
        forall|x: usize, y: usize| #[trigger]
            stored(final(freqs)@, x, y) == (if x == a && y == b {
                if stored(old(freqs)@, x, y) >= count {
                    (stored(old(freqs)@, x, y) - count) as nat
                } else {
                    0nat
                }
            } else {
                stored(old(freqs)@, x, y)
            }),
{
    if let Some(f) = freqs.get(a, b) {
        if f > count {
            freqs.insert(a, b, f - count);
        } else {
            freqs.remove(a, b);
        }
    }
}

/// Raises the frequency of a pair.
fn inc_pair(freqs: &mut PairMap<u64>, a: usize, b: usize, count: u64)
    requires
        old(freqs).wf(),
        no_zero(old(freqs)@),
        stored(old(freqs)@, a, b) + count <= u64::MAX,
    ensures
        final(freqs).wf(),
        no_zero(final(freqs)@),
        forall|x: usize, y: usize| #[trigger]
            stored(final(freqs)@, x, y) == (if x == a && y == b {
                stored(old(freqs)@, x, y) + count as nat
            } else {
                stored(old(freqs)@, x, y)
            }),
{
    if count > 0 {
        let f = match freqs.get(a, b) {
            Some(f) => f,
            None => 0,
        };
        freqs.insert(a, b, f + count);
    }
}

/// One more token at the end of a front adds the pair that it forms.
proof fn lemma_pair_count_step(s: Seq<usize>, j: int, x: usize, y: usize)
    requires
        0 <= j,
        j + 1 < s.len(),
    ensures
        pair_count(s.take(j + 2), x, y) == pair_count(s.take(j + 1), x, y) + same_pair(
            s[j],
            s[j + 1],
            x,
            y,
        ),
        pair_count(s.take(j + 2), x, y) <= pair_count(s, x, y),
{
    assert(s.take(j + 1) + seq![s[j + 1]] =~= s.take(j + 2));
    lemma_pair_count_concat(s.take(j + 1), seq![s[j + 1]], x, y);
    lemma_pair_count_small(seq![s[j + 1]], x, y);
    assert(s.take(j + 2) + s.skip(j + 2) =~= s);
    lemma_pair_count_concat(s.take(j + 2), s.skip(j + 2), x, y);
}

/// Takes the pairs of a word out of the frequencies.
fn remove_pairs(freqs: &mut PairMap<u64>, tokens: &Vec<usize>, count: u64)
    requires
        old(freqs).wf(),
        no_zero(old(freqs)@),
        forall|x: usize, y: usize| #[trigger]
            stored(old(freqs)@, x, y) >= count * pair_count(tokens@, x, y),
    ensures
        final(freqs).wf(),
        no_zero(final(freqs)@),
        forall|x: usize, y: usize| #[trigger]
            stored(final(freqs)@, x, y) == stored(old(freqs)@, x, y) - count * pair_count(
                tokens@,
                x,
                y,
            ),
{
    let n = tokens.len();
    let ghost s = tokens@;
    let ghost start = freqs@;
    if n < 2 {
        assert forall|x: usize, y: usize| #[trigger]
            stored(freqs@, x, y) == stored(start, x, y) - count * pair_count(s, x, y) by {
            lemma_pair_count_small(s, x, y);
            lemma_times(count, 0, 0);
        }
        return;
    }
    proof {
        assert forall|x: usize, y: usize| #[trigger]
            stored(freqs@, x, y) == stored(start, x, y) - count * pair_count(s.take(1), x, y) by {
            lemma_pair_count_small(s.take(1), x, y);
            lemma_times(count, 0, 0);
        }
    }
    for j in 0..n - 1
        invariant
            n == s.len(),
            n >= 2,
            s == tokens@,
            freqs.wf(),
            no_zero(freqs@),
            forall|x: usize, y: usize| #[trigger]
                stored(start, x, y) >= count * pair_count(s, x, y),
            forall|x: usize, y: usize| #[trigger]
                stored(freqs@, x, y) == stored(start, x, y) - count * pair_count(
                    s.take(j + 1),
                    x,
                    y,
                ),
    {
        let ghost before = freqs@;
        dec_pair(freqs, tokens[j], tokens[j + 1], count);
        assert forall|x: usize, y: usize| #[trigger]
            stored(freqs@, x, y) == stored(start, x, y) - count * pair_count(
                s.take(j + 2),
                x,
                y,
            ) by {
            let d = same_pair(s[j as int], s[j + 1], x, y);
            lemma_pair_count_step(s, j as int, x, y);
            lemma_times(count, pair_count(s.take(j + 1), x, y), d);
            lemma_times(count, pair_count(s.take(j + 2), x, y), pair_count(s, x, y));
            lemma_times(count, 0, 0);
            assert(stored(before, x, y) == stored(start, x, y) - count * pair_count(
                s.take(j + 1),
                x,
                y,
            ));
            assert(stored(start, x, y) >= count * pair_count(s, x, y));
        }
    }
    assert(s.take(n as int) =~= s);
}

/// Puts the pairs of a word into the frequencies.
fn add_pairs(freqs: &mut PairMap<u64>, tokens: &Vec<usize>, count: u64)
    requires
        old(freqs).wf(),
        no_zero(old(freqs)@),
        forall|x: usize, y: usize| #[trigger]
            stored(old(freqs)@, x, y) + count * pair_count(tokens@, x, y) <= u64::MAX,
    ensures
        final(freqs).wf(),
        no_zero(final(freqs)@),
        forall|x: usize, y: usize| #[trigger]
            stored(final(freqs)@, x, y) == stored(old(freqs)@, x, y) + count * pair_count(
                tokens@,
                x,
                y,
            ),
{
    let n = tokens.len();
    let ghost s = tokens@;
    let ghost start = freqs@;
    if n < 2 {
        assert forall|x: usize, y: usize| #[trigger]
            stored(freqs@, x, y) == stored(start, x, y) + count * pair_count(s, x, y) by {
            lemma_pair_count_small(s, x, y);
            lemma_times(count, 0, 0);
        }
        return;
    }
    proof {
        assert forall|x: usize, y: usize| #[trigger]
            stored(freqs@, x, y) == stored(start, x, y) + count * pair_count(s.take(1), x, y) by {
            lemma_pair_count_small(s.take(1), x, y);
            lemma_times(count, 0, 0);
        }
    }
    for j in 0..n - 1
        invariant
            n == s.len(),
            n >= 2,
            s == tokens@,
            freqs.wf(),
            no_zero(freqs@),
            forall|x: usize, y: usize| #[trigger]
                stored(start, x, y) + count * pair_count(s, x, y) <= u64::MAX,
            forall|x: usize, y: usize| #[trigger]
                stored(freqs@, x, y) == stored(start, x, y) + count * pair_count(
                    s.take(j + 1),
                    x,
                    y,
                ),
    {
        let ghost before = freqs@;
        let a = tokens[j];
        let b = tokens[j + 1];
        assert(stored(before, a, b) + count <= u64::MAX) by {
            lemma_pair_count_step(s, j as int, a, b);
            lemma_times(count, pair_count(s.take(j + 1), a, b), 1);
            lemma_times(count, pair_count(s.take(j + 2), a, b), pair_count(s, a, b));
            assert(stored(start, a, b) + count * pair_count(s, a, b) <= u64::MAX);
        }
        inc_pair(freqs, a, b, count);
        assert forall|x: usize, y: usize| #[trigger]
            stored(freqs@, x, y) == stored(start, x, y) + count * pair_count(
                s.take(j + 2),
                x,
                y,
            ) by {
            let d = same_pair(s[j as int], s[j + 1], x, y);
            lemma_pair_count_step(s, j as int, x, y);
            lemma_times(count, pair_count(s.take(j + 1), x, y), d);
            lemma_times(count, 0, 0);
            assert(stored(before, x, y) == stored(start, x, y) + count * pair_count(
                s.take(j + 1),
                x,
                y,
            ));
        }
    }
    assert(s.take(n as int) =~= s);
}

/// The token before the place `i`.
spec fn before_at(t: Seq<usize>, i: int) -> Option<usize> {
    if i > 0 {
        Some(t[i - 1])
    } else {
        None
    }
}

pub proof fn lemma_freq_at_least(words: Seq<WordModel>, k: int, x: usize, y: usize)
    requires
        0 <= k < words.len(),
    ensures
        freq(words, x, y) >= words[k].1 * pair_count(words[k].0, x, y),
    decreases words.len(),
{
    if k < words.len() - 1 {
        lemma_freq_at_least(words.drop_last(), k, x, y);
        lemma_times(words.last().1, pair_count(words.last().0, x, y), 0);
    }
}

/// Frequencies grow with the words.
proof fn lemma_freq_mono(p: Seq<WordModel>, q: Seq<WordModel>, x: usize, y: usize)
    requires
        p.len() == q.len(),
        forall|i: int|
            0 <= i < p.len() ==> (#[trigger] p[i]).1 == q[i].1 && pair_count(p[i].0, x, y)
                <= pair_count(q[i].0, x, y),
    ensures
        freq(p, x, y) <= freq(q, x, y),
    decreases p.len(),
{
    if p.len() > 0 {
        assert forall|i: int| 0 <= i < p.len() - 1 implies (#[trigger] p.drop_last()[i]).1
            == q.drop_last()[i].1 && pair_count(p.drop_last()[i].0, x, y) <= pair_count(
            q.drop_last()[i].0,
            x,
            y,
        ) by {
            assert(p.drop_last()[i] == p[i]);
        }
        lemma_freq_mono(p.drop_last(), q.drop_last(), x, y);
        assert(p[p.len() - 1].1 == q[q.len() - 1].1);
        lemma_times(
            p.last().1,
            pair_count(p.last().0, x, y),
            pair_count(q.last().0, x, y),
        );
    }
}

/// Whether `a` stands directly before `b` somewhere in a word.
spec fn holds_pair(s: Seq<usize>, a: usize, b: usize) -> bool {
    exists|j: int| 0 <= j < s.len() - 1 && #[trigger] s[j] == a && s[j + 1] == b
}

/// A corpus on the way of a merge: the first `done` words are merged, and of the others
/// those before `out` that the merge changes are left out.
spec fn under_way(
    ws: Seq<WordModel>,
    a: usize,
    b: usize,
    n: usize,
    done: int,
    out: int,
) -> Seq<WordModel> {
    Seq::new(
        ws.len(),
        |i: int|
            if i < done {
                (merged_word(ws[i].0, a, b, n), ws[i].1)
            } else if i < out && holds_pair(ws[i].0, a, b) {
                (Seq::<usize>::empty(), ws[i].1)
            } else {
                ws[i]
            },
    )
}

/// On the way of a merge no frequency is beyond what the merge leaves.
proof fn lemma_under_way(ws: Seq<WordModel>, a: usize, b: usize, n: usize, done: int)
    requires
        0 <= done <= ws.len(),
        pairs_fit(merged_words(ws, a, b, n)),
    ensures
        pairs_fit(under_way(ws, a, b, n, done, ws.len() as int)),
{
    let w = under_way(ws, a, b, n, done, ws.len() as int);
    let ms = merged_words(ws, a, b, n);
    assert forall|x: usize, y: usize| #[trigger] freq(w, x, y) <= u64::MAX by {
        assert forall|i: int| 0 <= i < w.len() implies (#[trigger] w[i]).1 == ms[i].1
            && pair_count(w[i].0, x, y) <= pair_count(ms[i].0, x, y) by {
            if i >= done {
                if holds_pair(ws[i].0, a, b) {
                    lemma_pair_count_small(w[i].0, x, y);
                } else {
                    lemma_no_pair(None, ws[i].0, a, b, n);
                }
            }
        }
        lemma_freq_mono(w, ms, x, y);
        assert(freq(ms, x, y) <= u64::MAX);
    }
}

/// The pairs of `left` with `a` or `n`, and of `b` or `n` with `right`.
spec fn beside(
    left: Option<usize>,
    right: Option<usize>,
    a: usize,
    b: usize,
    n: usize,
) -> Set<(usize, usize)> {
    let l = match left {
        Some(l) => set![(l, a), (l, n)],
        None => Set::empty(),
    };
    let r = match right {
        Some(r) => set![(b, r), (n, r)],
        None => Set::empty(),
    };
    l.union(r)
}

fn note_touched(
    touched: &mut PairMap<bool>,
    left: Option<usize>,
    right: Option<usize>,
    a: usize,
    b: usize,
    n: usize,
)
    requires
        old(touched).wf(),
    ensures
        final(touched).wf(),
        final(touched)@.dom() =~= old(touched)@.dom().union(beside(left, right, a, b, n)),
{
    if let Some(l) = left {
        touched.insert(l, a, true);
        touched.insert(l, n, true);
    }
    if let Some(r) = right {
        touched.insert(b, r, true);
        touched.insert(n, r, true);
    }
}

struct Word {
    tokens: Vec<usize>,
    count: u64,
}

/// The corpus. Each entry is one word type, so no pair straddles two words.
pub struct Corpus {
    words: Vec<Word>,
    pair_freqs: PairMap<u64>,
    vocab_budget: usize,
}

/// The word types of a list of token sequences and counts.
pub open spec fn counted_words(counts: Seq<(Vec<usize>, u64)>) -> Seq<WordModel> {
    counts.map_values(|c: (Vec<usize>, u64)| (c.0@, c.1))
}

/// The word types of a list of token sequences, each counted once.
pub open spec fn single_words(sequences: Seq<Vec<usize>>) -> Seq<WordModel> {
    sequences.map_values(|s: Vec<usize>| (s@, 1u64))
}

/// Whether the running text of a list of counted words has few enough tokens for
/// every frequency to fit.
pub fn weight_fits(counts: &Vec<(Vec<usize>, u64)>) -> (fits: bool)
    ensures
        fits == (weight(counted_words(counts@)) <= u64::MAX),
{
    let ghost ws = counted_words(counts@);
    let mut total: u128 = 0;
    for i in 0..counts.len()
        invariant
            ws == counted_words(counts@),
            total == weight(ws.take(i as int)),
            total <= u64::MAX,
    {
        let c = counts[i].1;
        let l = counts[i].0.len();
        assert(ws.take(i + 1).drop_last() =~= ws.take(i as int));
        assert(ws.take(i + 1).last() == ws[i as int]);
        assert((c as int) * (l as int) <= 0xFFFF_FFFF_FFFF_FFFF * 0xFFFF_FFFF_FFFF_FFFF)
            by (nonlinear_arith)
            requires
                0 <= c <= 0xFFFF_FFFF_FFFF_FFFF,
                0 <= l <= 0xFFFF_FFFF_FFFF_FFFF,
        ;
        total = total + (c as u128) * (l as u128);
        if total > u64::MAX as u128 {
            proof {
                lemma_weight_take(ws, i + 1);
            }
            return false;
        }
    }
    assert(ws.take(ws.len() as int) =~= ws);
    true
}

/// Whether a list of token sequences has few enough tokens for every frequency to
/// fit.
pub fn sequences_fit(sequences: &Vec<Vec<usize>>) -> (fits: bool)
    ensures
        fits == (weight(single_words(sequences@)) <= u64::MAX),
{
    let ghost ws = single_words(sequences@);
    let mut total: u128 = 0;
    for i in 0..sequences.len()
        invariant
            ws == single_words(sequences@),
            total == weight(ws.take(i as int)),
            total <= u64::MAX,
    {
        assert(ws.take(i + 1).drop_last() =~= ws.take(i as int));
        assert(ws.take(i + 1).last() == (sequences@[i as int]@, 1u64));
        assert((1u64 as nat) * sequences@[i as int]@.len() == sequences@[i as int]@.len())
            by (nonlinear_arith);
        total = total + sequences[i].len() as u128;
        if total > u64::MAX as u128 {
            proof {
                lemma_weight_take(ws, i + 1);
            }
            return false;
        }
    }
    assert(ws.take(ws.len() as int) =~= ws);
    true
}

impl Corpus {
    pub closed spec fn view(&self) -> Seq<WordModel> {
        self.words@.map_values(|w: Word| (w.tokens@, w.count))
    }

    /// The stored frequencies are those of the words, and all of them fit.
    pub closed spec fn wf(&self) -> bool {
        &&& self.pair_freqs.wf()
        &&& exact(self.pair_freqs@, self@)
    }

    pub closed spec fn budget(&self) -> usize {
        self.vocab_budget
    }

    /// A corpus of counted word types.
    pub fn from_word_counts(counts: Vec<(Vec<usize>, u64)>, vocab_budget: usize) -> (c: Self)
        requires
            pairs_fit(counted_words(counts@)),
        ensures
            c.wf(),
            c@ == counted_words(counts@),
            c.budget() == vocab_budget,
    {
        let mut words: Vec<Word> = Vec::new();
        for i in 0..counts.len()
            invariant
                words@.len() == i,
                forall|j: int|
                    0 <= j < i ==> (#[trigger] words@[j]).tokens@ == counts@[j].0@
                        && words@[j].count == counts@[j].1,
        {
            words.push(Word { tokens: copy_ids(&counts[i].0), count: counts[i].1 });
        }
        assert(words@.map_values(|w: Word| (w.tokens@, w.count)) =~= counted_words(counts@));
        Self::counted(words, vocab_budget)
    }

    /// A corpus of token sequences, each counted once.
    pub fn from_sequences(sequences: Vec<Vec<usize>>, vocab_budget: usize) -> (c: Self)
        requires
            pairs_fit(single_words(sequences@)),
        ensures
            c.wf(),
            c@ == single_words(sequences@),
            c.budget() == vocab_budget,
    {
        let mut words: Vec<Word> = Vec::new();
        for i in 0..sequences.len()
            invariant
                words@.len() == i,
                forall|j: int|
                    0 <= j < i ==> (#[trigger] words@[j]).tokens@ == sequences@[j]@
                        && words@[j].count == 1,
        {
            words.push(Word { tokens: copy_ids(&sequences[i]), count: 1 });
        }
        assert(words@.map_values(|w: Word| (w.tokens@, w.count)) =~= single_words(sequences@));
        Self::counted(words, vocab_budget)
    }

    fn counted(words: Vec<Word>, vocab_budget: usize) -> (c: Self)
        requires
            pairs_fit(words@.map_values(|w: Word| (w.tokens@, w.count))),
        ensures
            c.wf(),
            c@ == words@.map_values(|w: Word| (w.tokens@, w.count)),
            c.budget() == vocab_budget,
    {
        let mut c = Self { words, pair_freqs: PairMap::new(), vocab_budget };
        c.recompute_all_frequencies();
        c
    }

    /// Counts every pair afresh.
    fn recompute_all_frequencies(&mut self)
        requires
            pairs_fit(old(self)@),
        ensures
            final(self).wf(),
            final(self)@ == old(self)@,
            final(self).budget() == old(self).budget(),
    {
        let ghost ws = self@;
        let mut freqs: PairMap<u64> = PairMap::new();
        for k in 0..self.words.len()
            invariant
                ws == self@,
                ws == old(self)@,
                self.budget() == old(self).budget(),
                pairs_fit(ws),
                ws.len() == self.words@.len(),
                freqs.wf(),
                no_zero(freqs@),
                forall|x: usize, y: usize| #[trigger]
                    stored(freqs@, x, y) == freq(ws.take(k as int), x, y),
        {
            assert(ws[k as int] == (self.words@[k as int].tokens@, self.words@[k as int].count));
            assert(ws.take(k + 1).drop_last() =~= ws.take(k as int));
            assert forall|x: usize, y: usize| #[trigger]
                stored(freqs@, x, y) + ws[k as int].1 * pair_count(ws[k as int].0, x, y)
                    <= u64::MAX by {
                lemma_freq_take(ws, k + 1, x, y);
                assert(freq(ws, x, y) <= u64::MAX);
            }
            add_pairs(&mut freqs, &self.words[k].tokens, self.words[k].count);
        }
        assert(ws.take(ws.len() as int) =~= ws);
        self.pair_freqs = freqs;
        assert(self@ =~= ws);
    }

    pub fn get_freq(&self, a: usize, b: usize) -> (f: u64)
        requires
            self.wf(),
        ensures
            f == freq(self@, a, b),
    {
        assert(stored(self.pair_freqs@, a, b) == freq(self@, a, b));
        match self.pair_freqs.get(a, b) {
            Some(f) => f,
            None => 0,
        }
    }

    /// The pairs that occur, each once, in no particular order.
    pub fn pairs(&self) -> (out: Vec<(usize, usize)>)
        requires
            self.wf(),
        ensures
            out@.no_duplicates(),
            forall|p: (usize, usize)| #[trigger]
                out@.contains(p) <==> freq(self@, p.0, p.1) > 0,
    {
        let out = self.pair_freqs.keys();
        assert forall|p: (usize, usize)| #[trigger]
            out@.contains(p) <==> freq(self@, p.0, p.1) > 0 by {
            assert(stored(self.pair_freqs@, p.0, p.1) == freq(self@, p.0, p.1));
            assert(p == (p.0, p.1));
            if self.pair_freqs@.contains_key((p.0, p.1)) {
                assert(self.pair_freqs@[(p.0, p.1)] > 0);
            }
        }
        out
    }

    /// Whether all tokens are numbered below `n`.
    pub fn tokens_below(&self, n: usize) -> (yes: bool)
        ensures
            yes == all_below(self@, n as nat),
    {
        for k in 0..self.words.len()
            invariant
                forall|j: int, i: int|
                    0 <= j < k && 0 <= i < self@[j].0.len() ==> #[trigger] self@[j].0[i] < n,
        {
            let tokens = &self.words[k].tokens;
            assert(self@[k as int].0 == tokens@);
            for i in 0..tokens.len()
                invariant
                    k < self@.len(),
                    tokens@ == self@[k as int].0,
                    forall|j: int| 0 <= j < i ==> #[trigger] tokens@[j] < n,
            {
                if tokens[i] >= n {
                    assert(self@[k as int].0[i as int] >= n);
                    return false;
                }
            }
        }
        true
    }

    /// Replaces `a` before `b` by `n` in every word, from left to right, and gives
    /// back the pairs that this touched, in no particular order. The frequencies
    /// stay exact.
    pub fn apply_merge(&mut self, a: usize, b: usize, n: usize) -> (out: Vec<(usize, usize)>)
        requires
            old(self).wf(),
            pairs_fit(merged_words(old(self)@, a, b, n)),
        ensures
            final(self).wf(),
            final(self)@ == merged_words(old(self)@, a, b, n),
            final(self).budget() == old(self).budget(),
            out@.no_duplicates(),
            forall|p: (usize, usize)| #[trigger]
                out@.contains(p) <==> touched_pairs(old(self)@, a, b, n).contains(p),
    {
        let ghost ws = self@;
        let ghost ms = merged_words(ws, a, b, n);
        let len = self.words.len();
        assert(under_way(ws, a, b, n, 0, 0) =~= ws);
        for k in 0..len
            invariant
                ws == old(self)@,
                self.words@ == old(self).words@,
                self.budget() == old(self).budget(),
                len == self.words@.len(),
                len == ws.len(),
                self.pair_freqs.wf(),
                exact(self.pair_freqs@, under_way(ws, a, b, n, 0, k as int)),
        {
            let ghost before = under_way(ws, a, b, n, 0, k as int);
            let ghost after = under_way(ws, a, b, n, 0, k + 1);
            assert(ws[k as int] == (self.words@[k as int].tokens@, self.words@[k as int].count));
            if has_pair(&self.words[k].tokens, a, b) {
                let count = self.words[k].count;
                let ghost s = ws[k as int].0;
                let ghost freqs = self.pair_freqs@;
                assert(before[k as int] == (s, count));
                assert(after =~= before.update(k as int, (Seq::<usize>::empty(), count)));
                assert forall|x: usize, y: usize| #[trigger]
                    stored(freqs, x, y) >= count * pair_count(s, x, y) by {
                    lemma_freq_at_least(before, k as int, x, y);
                }
                remove_pairs(&mut self.pair_freqs, &self.words[k].tokens, count);
                assert forall|x: usize, y: usize| #[trigger]
                    stored(self.pair_freqs@, x, y) == freq(after, x, y) by {
                    lemma_freq_update(before, k as int, Seq::<usize>::empty(), x, y);
                    lemma_pair_count_small(Seq::<usize>::empty(), x, y);
                    lemma_times(count, 0, 0);
                    assert(stored(freqs, x, y) == freq(before, x, y));
                }
            } else {
                assert(after =~= before);
            }
        }
        let mut touched: PairMap<bool> = PairMap::new();
        assert(touched@.dom() =~= touched_pairs(ws.take(0), a, b, n));
        for k in 0..len
            invariant
                ws == old(self)@,
                self.budget() == old(self).budget(),
                len == self.words@.len(),
                len == ws.len(),
                pairs_fit(merged_words(ws, a, b, n)),
                self.pair_freqs.wf(),
                exact(self.pair_freqs@, under_way(ws, a, b, n, k as int, len as int)),
                forall|i: int|
                    0 <= i < k ==> (#[trigger] self.words@[i]).tokens@ == merged_word(
                        ws[i].0,
                        a,
                        b,
                        n,
                    ) && self.words@[i].count == ws[i].1,
                forall|i: int|
                    k <= i < len ==> (#[trigger] self.words@[i]).tokens@ == ws[i].0
                        && self.words@[i].count == ws[i].1,
                touched.wf(),
                touched@.dom() == touched_pairs(ws.take(k as int), a, b, n),
        {
            let ghost before = under_way(ws, a, b, n, k as int, len as int);
            let ghost after = under_way(ws, a, b, n, k + 1, len as int);
            let ghost s = ws[k as int].0;
            assert(ws.take(k + 1).drop_last() =~= ws.take(k as int));
            assert(self.words@[k as int].tokens@ == s);
            if has_pair(&self.words[k].tokens, a, b) {
                let count = self.words[k].count;
                let tokens = merge_tokens(&self.words[k].tokens, a, b, n, &mut touched);
                let ghost freqs = self.pair_freqs@;
                assert(before[k as int] == (Seq::<usize>::empty(), count));
                assert(after =~= before.update(k as int, (tokens@, count)));
                proof {
                    lemma_under_way(ws, a, b, n, k + 1);
                }
                assert forall|x: usize, y: usize| #[trigger]
                    stored(freqs, x, y) + count * pair_count(tokens@, x, y) == freq(
                        after,
                        x,
                        y,
                    ) by {
                    lemma_freq_update(before, k as int, tokens@, x, y);
                    lemma_pair_count_small(Seq::<usize>::empty(), x, y);
                    lemma_times(count, 0, 0);
                    assert(stored(freqs, x, y) == freq(before, x, y));
                }
                assert forall|x: usize, y: usize| #[trigger]
                    stored(freqs, x, y) + count * pair_count(tokens@, x, y) <= u64::MAX by {
                    assert(freq(after, x, y) <= u64::MAX);
                }
                add_pairs(&mut self.pair_freqs, &tokens, count);
                self.words.set(k, Word { tokens, count });
            } else {
                proof {
                    lemma_no_pair(None, s, a, b, n);
                }
                assert(after =~= before);
                assert(touched@.dom().union(Set::<(usize, usize)>::empty()) =~= touched@.dom());
            }
        }
        assert(ws.take(ws.len() as int) =~= ws);
        assert(under_way(ws, a, b, n, len as int, len as int) =~= ms);
        assert(self@ =~= ms);
        let out = touched.keys();
        assert forall|p: (usize, usize)| #[trigger]
            out@.contains(p) <==> touched_pairs(ws, a, b, n).contains(p) by {
            assert(p == (p.0, p.1));
            assert(touched@.contains_key(p) == touched@.dom().contains(p));
        }
        out
    }
}

/// The tokens of a word after a merge. Notes the pairs that the merge touches.
fn merge_tokens(
    word: &Vec<usize>,
    a: usize,
    b: usize,
    n: usize,
    touched: &mut PairMap<bool>,
) -> (tokens: Vec<usize>)
    requires
        old(touched).wf(),
    ensures
        tokens@ == merged_word(word@, a, b, n),
        final(touched).wf(),
        final(touched)@.dom() == old(touched)@.dom().union(touched_in(None, word@, a, b, n)),
{
    let ghost s = word@;
    let mut tokens = copy_ids(word);
    let mut i: usize = 0;
    assert(s.skip(0) =~= s);
    assert(s.take(0) + merged_word(s, a, b, n) =~= merged_word(s, a, b, n));
    while i < tokens.len() && tokens.len() - i > 1
        invariant
            s == word@,
            i <= tokens@.len(),
            merged_word(s, a, b, n) == tokens@.take(i as int) + merged_word(
                tokens@.skip(i as int),
                a,
                b,
                n,
            ),
            touched.wf(),
            old(touched)@.dom().union(touched_in(None, s, a, b, n)) =~= touched@.dom().union(
                touched_in(before_at(tokens@, i as int), tokens@.skip(i as int), a, b, n),
            ),
        decreases 2 * tokens@.len() - i,
    {
        let ghost t = tokens@;
        if tokens[i] == a && tokens[i + 1] == b {
            let left = if i > 0 {
                Some(tokens[i - 1])
            } else {
                None
            };
            let right = if tokens.len() - i > 2 {
                Some(tokens[i + 2])
            } else {
                None
            };
            note_touched(touched, left, right, a, b, n);
            tokens.set(i, n);
            tokens.remove(i + 1);
            proof {
                assert(tokens@ =~= t.take(i as int) + seq![n] + t.skip(i + 2));
                assert(tokens@.take(i as int) =~= t.take(i as int));
                assert(tokens@.skip(i as int) =~= seq![n] + t.skip(i as int).skip(2));
                assert(before_at(tokens@, i as int) == before_at(t, i as int));
            }
        } else {
            proof {
                assert(t.skip(i as int).skip(1) =~= t.skip(i + 1));
                assert(t.take(i + 1) =~= t.take(i as int) + seq![t[i as int]]);
                assert(t.take(i + 1) + merged_word(t.skip(i + 1), a, b, n) =~= t.take(i as int) + (
                seq![t[i as int]] + merged_word(t.skip(i + 1), a, b, n)));
            }
            i = i + 1;
        }
    }
    assert(tokens@.take(i as int) + tokens@.skip(i as int) =~= tokens@);
    tokens
}

} // verus!
