//! The inventory of aksharas that a corpus holds.

use crate::akshara::{AksharaDFA, DfaModel};
use crate::counting::{
    counted_once_more, distinct_words, kept, lemma_place_of, place_of, tallied,
};
use crate::script::{DANDA, DOUBLE_DANDA};
use crate::sorting::{lemma_place_unique, lemma_sorted, sorted, total_order};
use crate::text::{chars_of, string_of, texts};
use vstd::hash_map::StringHashMap;
use vstd::prelude::*;

verus! {

/// The characters that aksharas are made of.
#[verifier::allow_in_spec]
pub fn is_akshara_char(c: char) -> bool
    returns
        '\u{0900}' <= c && c <= '\u{097F}' && c != DANDA && c != DOUBLE_DANDA,
{
    '\u{0900}' <= c && c <= '\u{097F}' && c != DANDA && c != DOUBLE_DANDA
}

/// The number of such characters at the front of a text.
pub open spec fn akshara_run_len(t: Seq<char>) -> nat
    decreases t.len(),
{
    if t.len() == 0 || !is_akshara_char(t[0]) {
        0
    } else {
        1 + akshara_run_len(t.skip(1))
    }
}

pub proof fn lemma_akshara_run_len(t: Seq<char>)
    ensures
        akshara_run_len(t) <= t.len(),
    decreases t.len(),
{
    if t.len() > 0 && is_akshara_char(t[0]) {
        lemma_akshara_run_len(t.skip(1));
    }
}

/// The units of all stretches of such characters, in order.
pub open spec fn akshara_units(d: DfaModel, t: Seq<char>) -> Seq<Seq<char>>
    decreases t.len(),
{
    if t.len() == 0 {
        Seq::empty()
    } else if !is_akshara_char(t[0]) {
        akshara_units(d, t.skip(1))
    } else {
        let k = akshara_run_len(t) as int;
        proof {
            lemma_akshara_run_len(t);
        }
        d.units(t.take(k)) + akshara_units(d, t.skip(k))
    }
}

/// Whether a text comes first in the order of its characters, or is the same.
pub open spec fn text_leq(a: Seq<char>, b: Seq<char>) -> bool
    decreases a.len(),
{
    if a.len() == 0 {
        true
    } else if b.len() == 0 {
        false
    } else if a[0] != b[0] {
        a[0] < b[0]
    } else {
        text_leq(a.skip(1), b.skip(1))
    }
}

proof fn lemma_text_leq_total(a: Seq<char>, b: Seq<char>)
    ensures
        text_leq(a, b) || text_leq(b, a),
    decreases a.len(),
{
    if a.len() > 0 && b.len() > 0 && a[0] == b[0] {
        lemma_text_leq_total(a.skip(1), b.skip(1));
    }
}

proof fn lemma_text_leq_transitive(a: Seq<char>, b: Seq<char>, c: Seq<char>)
    requires
        text_leq(a, b),
        text_leq(b, c),
    ensures
        text_leq(a, c),
    decreases a.len(),
{
    if a.len() > 0 && b.len() > 0 && c.len() > 0 && a[0] == b[0] && b[0] == c[0] {
        lemma_text_leq_transitive(a.skip(1), b.skip(1), c.skip(1));
    }
}

/// The more frequent text first, and of equals the one that comes first in the order
/// of its characters.
pub open spec fn by_count() -> spec_fn((Seq<char>, u64), (Seq<char>, u64)) -> bool {
    |x: (Seq<char>, u64), y: (Seq<char>, u64)|
        x.1 > y.1 || (x.1 == y.1 && text_leq(x.0, y.0))
}

/// The texts that were counted at least so often, the most frequent first.
pub open spec fn ranked(t: Seq<(Seq<char>, u64)>, min: u64) -> Seq<Seq<char>> {
    sorted(kept(t, min), by_count()).map_values(|x: (Seq<char>, u64)| x.0)
}

/// The order is total.
pub proof fn lemma_by_count()
    ensures
        total_order(by_count()),
{
    let leq = by_count();
    assert forall|x: (Seq<char>, u64), y: (Seq<char>, u64)| #[trigger]
        leq(x, y) || #[trigger] leq(y, x) by {
        lemma_text_leq_total(x.0, y.0);
    }
    assert forall|x: (Seq<char>, u64), y: (Seq<char>, u64), z: (Seq<char>, u64)| #[trigger]
        leq(x, y) && #[trigger] leq(y, z) implies leq(x, z) by {
        if x.1 == y.1 && y.1 == z.1 {
            lemma_text_leq_transitive(x.0, y.0, z.0);
        }
    }
}

/// The sum of all counts.
pub open spec fn count_sum<T>(t: Seq<(T, u64)>) -> nat
    decreases t.len(),
{
    if t.len() == 0 {
        0
    } else {
        count_sum(t.drop_last()) + t.last().1 as nat
    }
}

proof fn lemma_count_sum_update<T>(t: Seq<(T, u64)>, k: int, x: (T, u64))
    requires
        0 <= k < t.len(),
    ensures
        count_sum(t.update(k, x)) == count_sum(t) - t[k].1 + x.1,
        t[k].1 <= count_sum(t),
    decreases t.len(),
{
    let u = t.update(k, x);
    if k == t.len() - 1 {
        assert(u.drop_last() =~= t.drop_last());
    } else {
        lemma_count_sum_update(t.drop_last(), k, x);
        assert(u.drop_last() =~= t.drop_last().update(k, x));
    }
}

/// One more occurrence adds one to the sum.
proof fn lemma_count_sum<T>(t: Seq<(T, u64)>, w: T)
    requires
        count_sum(t) < u64::MAX,
    ensures
        count_sum(counted_once_more(t, w)) == count_sum(t) + 1,
        distinct_words(t) ==> distinct_words(counted_once_more(t, w)),
{
    lemma_place_of(t, w);
    match place_of(t, w) {
        Some(i) => {
            lemma_count_sum_update(t, i, t[i]);
            lemma_count_sum_update(t, i, (w, (t[i].1 + 1) as u64));
        },
        None => {
            assert(t.push((w, 1u64)).drop_last() =~= t);
        },
    }
}

/// Counted texts.
pub struct TextCounts {
    entries: Vec<(String, u64)>,
    index: StringHashMap<usize>,
    total: u64,
}

/// Counted strings as counted texts.
pub open spec fn counted_texts(entries: Seq<(String, u64)>) -> Seq<(Seq<char>, u64)> {
    entries.map_values(|e: (String, u64)| (e.0@, e.1))
}

impl TextCounts {
    /// The texts and their counts, in the order in which they first came.
    pub closed spec fn view(&self) -> Seq<(Seq<char>, u64)> {
        counted_texts(self.entries@)
    }

    pub closed spec fn wf(&self) -> bool {
        &&& distinct_words(self@)
        &&& self.total == count_sum(self@)
        &&& forall|s: Seq<char>| #[trigger]
            self.index@.contains_key(s) ==> self.index@[s] < self@.len() && self@[self.index@[s] as int].0
                == s
        &&& forall|i: int|
            0 <= i < self@.len() ==> self.index@.contains_key((#[trigger] self@[i]).0)
    }

    pub fn new() -> (c: Self)
        ensures
            c.wf(),
            c@ == Seq::<(Seq<char>, u64)>::empty(),
    {
        let c = Self { entries: Vec::new(), index: StringHashMap::new(), total: 0 };
        assert(c@ =~= Seq::<(Seq<char>, u64)>::empty());
        c
    }

    /// How many texts were counted, with their repetitions.
    pub fn total(&self) -> (n: u64)
        requires
            self.wf(),
        ensures
            n == count_sum(self@),
    {
        self.total
    }

    /// Counts one more occurrence of a text.
    pub fn add_text(&mut self, s: &String)
        requires
            old(self).wf(),
            count_sum(old(self)@) < u64::MAX,
        ensures
            final(self).wf(),
            final(self)@ == counted_once_more(old(self)@, s@),
            count_sum(final(self)@) == count_sum(old(self)@) + 1,
    {
        let ghost t = self@;
        proof {
            lemma_count_sum(t, s@);
            lemma_place_of(t, s@);
        }
        let found = match self.index.get(s.as_str()) {
            Some(i) => Some(*i),
            None => None,
        };
        match found {
            Some(i) => {
                assert(self.index@.contains_key(s@));
                assert(t[i as int].0 == s@);
                assert(place_of(t, s@) == Some(i as int));
                proof {
                    lemma_count_sum_update(t, i as int, t[i as int]);
                }
                let text = self.entries[i].0.clone();
                let count = self.entries[i].1;
                self.entries.set(i, (text, count + 1));
                assert(self@ =~= t.update(i as int, (s@, (count + 1) as u64)));
            },
            None => {
                let i = self.entries.len();
                proof {
                    if let Some(j) = place_of(t, s@) {
                        assert(self.index@.contains_key(t[j].0));
                    }
                }
                self.entries.push((s.clone(), 1));
                self.index.insert(s.clone(), i);
                assert(self@ =~= t.push((s@, 1)));
                assert forall|k: int| 0 <= k < self@.len() implies self.index@.contains_key(
                    (#[trigger] self@[k]).0,
                ) by {
                    if k < t.len() {
                        assert(self@[k] == t[k]);
                    }
                }
            },
        }
        self.total = self.total + 1;
    }

    /// The texts that were counted at least so often, the most frequent first.
    pub fn ranked(&self, min_freq: u64) -> (out: Vec<String>)
        ensures
            texts(out@) == ranked(self@, min_freq),
    {
        let ghost t = self@;
        let ghost leq = by_count();
        let ghost view = |x: (Vec<char>, u64)| (x.0@, x.1);
        let mut rows: Vec<(Vec<char>, u64)> = Vec::new();
        proof {
            reveal(Seq::filter);
        }
        assert(rows@.map_values(view) =~= sorted(kept(t.take(0), min_freq), leq));
        for i in 0..self.entries.len()
            invariant
                t == self@,
                leq == by_count(),
                view == (|x: (Vec<char>, u64)| (x.0@, x.1)),
                t.len() == self.entries@.len(),
                rows@.map_values(view) == sorted(kept(t.take(i as int), min_freq), leq),
        {
            proof {
                reveal(Seq::filter);
                assert(t.take(i + 1).drop_last() =~= t.take(i as int));
                assert(t[i as int] == (self.entries@[i as int].0@, self.entries@[i as int].1));
                let front = kept(t.take(i as int), min_freq);
                assert(front.push(t[i as int]).drop_last() =~= front);
            }
            if self.entries[i].1 >= min_freq {
                let chars = chars_of(self.entries[i].0.as_str());
                let count = self.entries[i].1;
                let ghost x = t[i as int];
                let ghost front = rows@.map_values(view);
                let mut k: usize = rows.len();
                while k > 0 && !in_order(&rows[k - 1], &chars, count)
                    invariant
                        k <= rows@.len(),
                        leq == by_count(),
                        view == (|x: (Vec<char>, u64)| (x.0@, x.1)),
                        front == rows@.map_values(view),
                        x == (chars@, count),
                        forall|j: int| k <= j < front.len() ==> !leq(#[trigger] front[j], x),
                    decreases k,
                {
                    assert(front[k - 1] == (rows@[k - 1].0@, rows@[k - 1].1));
                    k = k - 1;
                }
                proof {
                    if k > 0 {
                        assert(front[k - 1] == (rows@[k - 1].0@, rows@[k - 1].1));
                    }
                    lemma_place_unique(front, x, leq, k as int);
                }
                rows.insert(k, (chars, count));
                assert(rows@.map_values(view) =~= front.insert(k as int, x));
            }
        }
        assert(t.take(t.len() as int) =~= t);
        let mut out: Vec<String> = Vec::new();
        let ghost all = rows@.map_values(view);
        for i in 0..rows.len()
            invariant
                view == (|x: (Vec<char>, u64)| (x.0@, x.1)),
                all == rows@.map_values(view),
                out@.len() == i,
                forall|j: int| 0 <= j < i ==> (#[trigger] out@[j])@ == all[j].0,
        {
            let s = string_of(&rows[i].0, 0, rows[i].0.len());
            assert(s@ =~= rows@[i as int].0@);
            out.push(s);
        }
        assert(texts(out@) =~= ranked(t, min_freq));
        out
    }
}

fn in_order(x: &(Vec<char>, u64), chars: &Vec<char>, count: u64) -> (yes: bool)
    ensures
        yes == by_count()((x.0@, x.1), (chars@, count)),
{
    if x.1 != count {
        return x.1 > count;
    }
    let n = x.0.len();
    let m = chars.len();
    let mut i: usize = 0;
    assert(x.0@.skip(0) =~= x.0@);
    assert(chars@.skip(0) =~= chars@);
    while i < n && i < m && x.0[i] == chars[i]
        invariant
            i <= n == x.0@.len(),
            i <= m == chars@.len(),
            text_leq(x.0@, chars@) == text_leq(x.0@.skip(i as int), chars@.skip(i as int)),
        decreases n - i,
    {
        assert(x.0@.skip(i as int).skip(1) =~= x.0@.skip(i + 1));
        assert(chars@.skip(i as int).skip(1) =~= chars@.skip(i + 1));
        i = i + 1;
    }
    if i == n {
        true
    } else if i == m {
        false
    } else {
        x.0[i] < chars[i]
    }
}

/// The aksharas of a text.
pub fn aksharas_of(dfa: &AksharaDFA, text: &str) -> (units: Vec<String>)
    ensures
        texts(units@) == akshara_units(dfa@, text@),
{
    let chars = chars_of(text);
    let n = chars.len();
    let ghost t = text@;
    let ghost d = dfa@;
    let mut units: Vec<String> = Vec::new();
    let mut i: usize = 0;
    assert(t.skip(0) =~= t);
    assert(texts(units@) + akshara_units(d, t) =~= akshara_units(d, t));
    while i < n
        invariant
            i <= n == t.len(),
            chars@ == t,
            d == dfa@,
            texts(units@) + akshara_units(d, t.skip(i as int)) == akshara_units(d, t),
        decreases n - i,
    {
        let ghost rest = t.skip(i as int);
        if !is_akshara_char(chars[i]) {
            assert(rest.skip(1) =~= t.skip(i + 1));
            i = i + 1;
        } else {
            let mut j: usize = i;
            assert(rest.skip(0) =~= rest);
            while j < n && is_akshara_char(chars[j])
                invariant
                    i <= j <= n == t.len(),
                    chars@ == t,
                    rest == t.skip(i as int),
                    akshara_run_len(rest) == (j - i) + akshara_run_len(rest.skip(j - i)),
                decreases n - j,
            {
                assert(rest.skip(j - i).skip(1) =~= rest.skip(j + 1 - i));
                j = j + 1;
            }
            let run = string_of(&chars, i, j);
            let parts = dfa.tokenize(run.as_str());
            let ghost us = d.units(run@);
            let ghost before = texts(units@);
            assert(run@ =~= rest.take(j - i));
            assert(before + us.take(0) =~= before);
            for k in 0..parts.len()
                invariant
                    us == parts@.map_values(|a: crate::akshara::Akshara| a.surface@),
                    texts(units@) == before + us.take(k as int),
            {
                assert(us[k as int] == parts@[k as int].surface@);
                let ghost now = texts(units@);
                units.push(parts[k].surface.clone());
                assert(texts(units@) =~= now.push(us[k as int]));
                assert(texts(units@) =~= before + us.take(k + 1));
            }
            assert(us.take(us.len() as int) =~= us);
            assert(rest.skip(j - i) =~= t.skip(j as int));
            assert(before + us + akshara_units(d, t.skip(j as int)) =~= before + (us
                + akshara_units(d, t.skip(j as int))));
            i = j;
        }
    }
    assert(t.skip(n as int) =~= Seq::<char>::empty());
    assert(texts(units@) + Seq::<Seq<char>>::empty() =~= texts(units@));
    units
}

/// The inventory is ordered: what comes first was counted at least as often as what
/// comes behind it, and of equals the one that comes first in the order of its
/// characters.
pub proof fn law_inventory_is_ranked(t: Seq<(Seq<char>, u64)>, min: u64)
    ensures
        ({
            let rows = sorted(kept(t, min), by_count());
            &&& rows.to_multiset() == kept(t, min).to_multiset()
            &&& forall|i: int, j: int|
                0 <= i <= j < rows.len() ==> by_count()(#[trigger] rows[i], #[trigger] rows[j])
        }),
{
    lemma_by_count();
    lemma_sorted(kept(t, min), by_count());
}

proof fn lemma_tallied_contains<T>(t: Seq<(T, u64)>, ws: Seq<T>, w: T)
    requires
        ws.contains(w) || place_of(t, w) is Some,
    ensures
        place_of(tallied(t, ws), w) is Some,
    decreases ws.len(),
{
    if ws.len() > 0 {
        let front = tallied(t, ws.drop_last());
        let u = tallied(t, ws);
        lemma_place_of(front, ws.last());
        lemma_place_of(front, w);
        lemma_place_of(u, w);
        if w == ws.last() {
            match place_of(front, w) {
                Some(i) => {
                    assert(u[i].0 == w);
                },
                None => {
                    assert(u[front.len() as int].0 == w);
                },
            }
        } else {
            if ws.contains(w) {
                let k = choose|k: int| 0 <= k < ws.len() && ws[k] == w;
                assert(ws.drop_last()[k] == w);
            }
            lemma_tallied_contains(t, ws.drop_last(), w);
            let i = place_of(front, w)->0;
            assert(u[i].0 == w);
        }
    }
}

pub proof fn lemma_filter_all<T>(t: Seq<(T, u64)>, min: u64, i: int)
    requires
        0 <= i < t.len(),
        t[i].1 >= min,
    ensures
        kept(t, min).contains(t[i]),
    decreases t.len(),
{
    reveal(Seq::filter);
    let front = kept(t.drop_last(), min);
    if i == t.len() - 1 {
        assert(kept(t, min)[front.len() as int] == t[i]);
    } else {
        lemma_filter_all(t.drop_last(), min, i);
        crate::akshara::lemma_push_contains(front, t.last(), t[i]);
    }
}

/// Every akshara of a counted text is in the inventory, if what was seen once is kept.
pub proof fn law_inventory_covers_the_corpus(
    t: Seq<(Seq<char>, u64)>,
    units: Seq<Seq<char>>,
    min: u64,
    u: Seq<char>,
)
    requires
        distinct_words(tallied(t, units)),
        units.contains(u),
        min <= 1,
    ensures
        ranked(tallied(t, units), min).contains(u),
{
    let c = tallied(t, units);
    lemma_tallied_contains(t, units, u);
    lemma_place_of(c, u);
    let i = place_of(c, u)->0;
    assert(c[i].1 > 0);
    lemma_filter_all(c, min, i);
    lemma_by_count();
    let rows = sorted(kept(c, min), by_count());
    lemma_sorted(kept(c, min), by_count());
    vstd::seq_lib::to_multiset_contains(kept(c, min), c[i]);
    vstd::seq_lib::to_multiset_contains(rows, c[i]);
    let k = choose|k: int| 0 <= k < rows.len() && rows[k] == c[i];
    assert(ranked(c, min)[k] == u);
}

} // verus!
