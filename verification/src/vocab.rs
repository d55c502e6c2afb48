//! Tokens and the vocabulary.

use crate::akshara::Akshara;
use crate::paradigm::{roots_with_prefix, ParadigmModel, ParadigmRegistry};
use crate::script::{
    extended_punct, extended_punct_chars, Script, DANDA, DEV_MARKER, DOUBLE_DANDA, LAT_MARKER, ZWNJ,
};
use crate::sorting::{lemma_place_unique, lemma_sorted, sorted, total_order};
use crate::text::{
    chars_of, contains_text, copy_texts, is_ascii_alphanumeric, push_text, push_texts,
    string_of_char, texts,
};
use std::collections::{HashMap, HashSet};
use std::sync::Arc;
use vstd::hash_map::StringHashMap;
use vstd::prelude::*;

verus! {

/// One, as a fixed-point number with 32 fractional bits: the form of priors and of
/// weights.
pub const WEIGHT_ONE: i64 = 0x1_0000_0000;

/// What a token is.
#[derive(Debug, Clone, PartialEq, Eq, Hash)]
pub enum Token {
    Akshara(Akshara),
    Punctuation(String),
    ZWNJ,
    ByteFallback(u8),
    SeededMorpheme(String),
    MergedToken(Vec<usize>),
    Latin(String),
    Loaded(String),
}

/// A token as a mathematical object.
pub enum TokenModel {
    Akshara(Seq<char>, Seq<usize>),
    Punctuation(Seq<char>),
    ZWNJ,
    ByteFallback(u8),
    SeededMorpheme(Seq<char>),
    MergedToken(Seq<usize>),
    Latin(Seq<char>),
    Loaded(Seq<char>),
}

impl TokenModel {
    pub open spec fn script(self) -> Script {
        match self {
            TokenModel::Akshara(..) => Script::DEV,
            TokenModel::Punctuation(_) => Script::PUN,
            TokenModel::ZWNJ => Script::FMT,
            TokenModel::ByteFallback(_) => Script::MAL,
            TokenModel::SeededMorpheme(_) => Script::DEV,
            TokenModel::MergedToken(_) => Script::DEV,
            TokenModel::Latin(_) => Script::LAT,
            TokenModel::Loaded(_) => Script::DEV,
        }
    }

    /// The roots that a token brings along.
    pub open spec fn own_roots(self) -> Seq<usize> {
        match self {
            TokenModel::Akshara(_, roots) => roots,
            _ => Seq::empty(),
        }
    }

    /// The kinds of token that paradigms speak of.
    pub open spec fn takes_roots(self) -> bool {
        match self {
            TokenModel::Akshara(..) => true,
            TokenModel::SeededMorpheme(_) => true,
            TokenModel::MergedToken(_) => true,
            TokenModel::Loaded(_) => true,
            _ => false,
        }
    }
}

impl View for Token {
    type V = TokenModel;

    open spec fn view(&self) -> TokenModel {
        match self {
            Token::Akshara(a) => TokenModel::Akshara(a.surface@, a.root_set@),
            Token::Punctuation(s) => TokenModel::Punctuation(s@),
            Token::ZWNJ => TokenModel::ZWNJ,
            Token::ByteFallback(b) => TokenModel::ByteFallback(*b),
            Token::SeededMorpheme(s) => TokenModel::SeededMorpheme(s@),
            Token::MergedToken(v) => TokenModel::MergedToken(v@),
            Token::Latin(s) => TokenModel::Latin(s@),
            Token::Loaded(s) => TokenModel::Loaded(s@),
        }
    }
}

impl Token {
    pub fn script(&self) -> (s: Script)
        ensures
            s == self@.script(),
    {
        match self {
            Token::Akshara(_) => Script::DEV,
            Token::Punctuation(_) => Script::PUN,
            Token::ZWNJ => Script::FMT,
            Token::ByteFallback(_) => Script::MAL,
            Token::SeededMorpheme(_) => Script::DEV,
            Token::MergedToken(_) => Script::DEV,
            Token::Latin(_) => Script::LAT,
            Token::Loaded(_) => Script::DEV,
        }
    }

    fn takes_roots(&self) -> (yes: bool)
        ensures
            yes == self@.takes_roots(),
    {
        match self {
            Token::Akshara(_) => true,
            Token::SeededMorpheme(_) => true,
            Token::MergedToken(_) => true,
            Token::Loaded(_) => true,
            _ => false,
        }
    }
}

/// A vocabulary as a mathematical object. Tokens are numbered from zero; `index`
/// leads from a surface to the token that matching finds.
#[verifier::ext_equal]
pub struct VocabModel {
    pub tokens: Seq<TokenModel>,
    pub surfaces: Seq<Seq<char>>,
    pub scripts: Seq<Script>,
    pub roots: Seq<Seq<usize>>,
    pub index: Map<Seq<char>, usize>,
    pub strict: Set<usize>,
    pub ambiguous: Set<usize>,
    pub confidence: Map<usize, i64>,
    pub max_len: nat,
}

/// Something to be put into a vocabulary.
pub struct Entry {
    pub token: TokenModel,
    pub surface: Seq<char>,
    pub strict: bool,
    pub ambiguous: bool,
}

pub open spec fn plain_entry(token: TokenModel, surface: Seq<char>) -> Entry {
    Entry { token, surface, strict: false, ambiguous: false }
}

pub open spec fn max_nat(a: nat, b: nat) -> nat {
    if a < b {
        b
    } else {
        a
    }
}

impl VocabModel {
    pub open spec fn empty() -> VocabModel {
        VocabModel {
            tokens: Seq::empty(),
            surfaces: Seq::empty(),
            scripts: Seq::empty(),
            roots: Seq::empty(),
            index: Map::empty(),
            strict: Set::empty(),
            ambiguous: Set::empty(),
            confidence: Map::empty(),
            max_len: 0,
        }
    }

    pub open spec fn len(self) -> nat {
        self.tokens.len()
    }

    /// What holds of every vocabulary: each token has a surface, a script and a root
    /// set; the index finds tokens with the surface asked for, and finds one for each
    /// surface; no surface is longer than what matching looks at; and the seed sets
    /// hold tokens of the vocabulary.
    pub open spec fn valid(self) -> bool {
        &&& self.surfaces.len() == self.tokens.len()
        &&& self.scripts.len() == self.tokens.len()
        &&& self.roots.len() == self.tokens.len()
        &&& forall|s: Seq<char>| #[trigger]
            self.index.contains_key(s) ==> self.index[s] < self.tokens.len()
                && self.surfaces[self.index[s] as int] == s
        &&& forall|i: int|
            0 <= i < self.surfaces.len() ==> self.index.contains_key(#[trigger] self.surfaces[i])
        &&& forall|i: int|
            0 <= i < self.surfaces.len() ==> (#[trigger] self.surfaces[i]).len() <= max_nat(
                self.max_len,
                1,
            )
        &&& forall|id: usize| #[trigger] self.strict.contains(id) ==> id < self.tokens.len()
        &&& forall|id: usize| #[trigger] self.ambiguous.contains(id) ==> id < self.tokens.len()
        &&& forall|id: usize| #[trigger]
            self.confidence.contains_key(id) ==> id < self.tokens.len()
        &&& self.tokens.len() <= usize::MAX
    }

    /// The token that matching finds for a surface.
    pub open spec fn lookup(self, s: Seq<char>) -> Option<usize> {
        if self.index.contains_key(s) {
            Some(self.index[s])
        } else {
            None
        }
    }

    /// The surface of a token; empty for a number that is none.
    pub open spec fn surface_of(self, id: usize) -> Seq<char> {
        if id < self.surfaces.len() {
            self.surfaces[id as int]
        } else {
            Seq::empty()
        }
    }

    pub open spec fn script_of(self, id: usize) -> Script {
        if id < self.scripts.len() {
            self.scripts[id as int]
        } else {
            Script::MAL
        }
    }

    pub open spec fn roots_of(self, id: usize) -> Seq<usize> {
        if id < self.roots.len() {
            self.roots[id as int]
        } else {
            Seq::empty()
        }
    }

    /// One more token at the end, found under its surface.
    pub open spec fn pushed(
        self,
        token: TokenModel,
        surface: Seq<char>,
        script: Script,
        roots: Seq<usize>,
    ) -> VocabModel {
        VocabModel {
            tokens: self.tokens.push(token),
            surfaces: self.surfaces.push(surface),
            scripts: self.scripts.push(script),
            roots: self.roots.push(roots),
            index: self.index.insert(surface, self.tokens.len() as usize),
            max_len: max_nat(self.max_len, surface.len()),
            ..self
        }
    }

    /// A token put in: a surface that is known keeps its token, and only joins the
    /// seed sets.
    pub open spec fn added(self, e: Entry) -> VocabModel {
        let grown = if self.index.contains_key(e.surface) {
            self
        } else {
            self.pushed(e.token, e.surface, e.token.script(), e.token.own_roots())
        };
        let id = grown.index[e.surface];
        VocabModel {
            strict: if e.strict {
                self.strict.insert(id)
            } else {
                self.strict
            },
            ambiguous: if e.ambiguous {
                self.ambiguous.insert(id)
            } else {
                self.ambiguous
            },
            ..grown
        }
    }

    pub open spec fn added_all(self, es: Seq<Entry>) -> VocabModel
        decreases es.len(),
    {
        if es.len() == 0 {
            self
        } else {
            self.added_all(es.drop_last()).added(es.last())
        }
    }

    /// The vocabulary after the merge of `a` and `b`, and the token that stands for
    /// the merge: the one that already has the joined surface, or a new one.
    pub open spec fn merged(self, a: usize, b: usize, roots: Seq<usize>) -> (VocabModel, usize) {
        let surface = self.surface_of(a) + self.surface_of(b);
        if self.index.contains_key(surface) {
            (self, self.index[surface])
        } else {
            let script = if a < self.scripts.len() {
                self.scripts[a as int]
            } else {
                Script::DEV
            };
            (
                self.pushed(TokenModel::MergedToken(seq![a, b]), surface, script, roots),
                self.tokens.len() as usize,
            )
        }
    }
}

pub proof fn lemma_pushed_valid(
    v: VocabModel,
    token: TokenModel,
    surface: Seq<char>,
    script: Script,
    roots: Seq<usize>,
)
    requires
        v.valid(),
        v.len() < usize::MAX,
    ensures
        v.pushed(token, surface, script, roots).valid(),
{
    let w = v.pushed(token, surface, script, roots);
    assert forall|s: Seq<char>| #[trigger] w.index.contains_key(s) implies w.index[s]
        < w.tokens.len() && w.surfaces[w.index[s] as int] == s by {
        if s != surface {
            assert(v.index.contains_key(s));
        }
    }
    assert forall|i: int| 0 <= i < w.surfaces.len() implies w.index.contains_key(
        #[trigger] w.surfaces[i],
    ) by {
        if i < v.surfaces.len() {
            assert(w.surfaces[i] == v.surfaces[i]);
        }
    }
    assert forall|i: int| 0 <= i < w.surfaces.len() implies (#[trigger] w.surfaces[i]).len()
        <= max_nat(w.max_len, 1) by {
        if i < v.surfaces.len() {
            assert(w.surfaces[i] == v.surfaces[i]);
        }
    }
}

pub proof fn lemma_added_valid(v: VocabModel, e: Entry)
    requires
        v.valid(),
        v.len() < usize::MAX,
    ensures
        v.added(e).valid(),
        v.added(e).index.contains_key(e.surface),
        v.len() <= v.added(e).len() <= v.len() + 1,
{
    if !v.index.contains_key(e.surface) {
        lemma_pushed_valid(v, e.token, e.surface, e.token.script(), e.token.own_roots());
    }
}

/// The last byte below `n` that the table gives the character `ch`.
pub open spec fn byte_named(table: Seq<char>, ch: char, n: nat) -> Option<u8>
    decreases n,
{
    if n == 0 {
        None
    } else if table[n - 1] == ch {
        Some((n - 1) as u8)
    } else {
        byte_named(table, ch, (n - 1) as nat)
    }
}

/// What a listed surface stands for: a single character beyond ASCII that names a byte
/// stays the name of that byte, so that every byte keeps its token.
pub open spec fn listed_token(token: TokenModel, s: Seq<char>, table: Seq<char>) -> TokenModel {
    if s.len() == 1 && s[0] > '\u{7F}' {
        match byte_named(table, s[0], 256) {
            Some(b) => TokenModel::ByteFallback(b),
            None => token,
        }
    } else {
        token
    }
}

/// Aksharas with their roots.
pub open spec fn akshara_texts(aksharas: Seq<Akshara>) -> Seq<(Seq<char>, Seq<usize>)> {
    aksharas.map_values(|a: Akshara| (a.surface@, a.root_set@))
}

/// Aksharas without roots.
pub open spec fn rootless(aksharas: Seq<Seq<char>>) -> Seq<(Seq<char>, Seq<usize>)> {
    aksharas.map_values(|s: Seq<char>| (s, Seq::<usize>::empty()))
}

/// The aksharas as entries.
pub open spec fn akshara_entries(
    aksharas: Seq<(Seq<char>, Seq<usize>)>,
    table: Seq<char>,
) -> Seq<Entry> {
    aksharas.map_values(
        |a: (Seq<char>, Seq<usize>)|
            plain_entry(listed_token(TokenModel::Akshara(a.0, a.1), a.0, table), a.0),
    )
}

/// The seeded morphemes as entries, each in the seed sets that name it.
pub open spec fn seed_entries(
    seeds: Seq<Seq<char>>,
    strict: Seq<Seq<char>>,
    ambiguous: Seq<Seq<char>>,
    table: Seq<char>,
) -> Seq<Entry> {
    seeds.map_values(
        |s: Seq<char>|
            Entry {
                token: listed_token(TokenModel::SeededMorpheme(s), s, table),
                surface: s,
                strict: strict.contains(s),
                ambiguous: ambiguous.contains(s),
            },
    )
}

pub open spec fn marker_entries() -> Seq<Entry> {
    seq![
        plain_entry(TokenModel::SeededMorpheme(seq![DEV_MARKER]), seq![DEV_MARKER]),
        plain_entry(TokenModel::Latin(seq![LAT_MARKER]), seq![LAT_MARKER]),
    ]
}

pub open spec fn punct_entries(punct: Seq<Seq<char>>, table: Seq<char>) -> Seq<Entry> {
    punct.map_values(
        |s: Seq<char>| plain_entry(listed_token(TokenModel::Punctuation(s), s, table), s),
    )
}

/// All punctuation: what is listed, the two dandas and the extended punctuation.
pub open spec fn all_punct(punct: Seq<Seq<char>>) -> Seq<Seq<char>> {
    punct + seq![seq![DANDA], seq![DOUBLE_DANDA]] + extended_punct().map_values(
        |c: char| seq![c],
    )
}

/// The ASCII letters and digits: lower case, upper case, digits.
pub open spec fn latin_chars() -> Seq<char> {
    Seq::new(
        62,
        |i: int|
            if i < 26 {
                (97 + i) as u8 as char
            } else if i < 52 {
                (65 + i - 26) as u8 as char
            } else {
                (48 + i - 52) as u8 as char
            },
    )
}

pub open spec fn latin_entries() -> Seq<Entry> {
    latin_chars().map_values(|c: char| plain_entry(TokenModel::Latin(seq![c]), seq![c]))
}

/// The bytes as entries, each under the character that the table gives it.
pub open spec fn byte_entries(table: Seq<char>) -> Seq<Entry> {
    Seq::new(256, |i: int| plain_entry(TokenModel::ByteFallback(i as u8), seq![table[i]]))
}

pub open spec fn joiner_entries() -> Seq<Entry> {
    seq![plain_entry(TokenModel::ZWNJ, seq![ZWNJ])]
}

/// A vocabulary after the base inventory was put in. The seeds are the listed
/// morphemes and all that are named strict or ambiguous.
pub open spec fn initialized(
    v: VocabModel,
    aksharas: Seq<(Seq<char>, Seq<usize>)>,
    seeds: Seq<Seq<char>>,
    punct: Seq<Seq<char>>,
    strict: Seq<Seq<char>>,
    ambiguous: Seq<Seq<char>>,
    table: Seq<char>,
) -> VocabModel {
    v.added_all(akshara_entries(aksharas, table)).added_all(
        seed_entries(seeds + strict + ambiguous, strict, ambiguous, table),
    ).added_all(marker_entries()).added_all(punct_entries(all_punct(punct), table)).added_all(
        latin_entries(),
    ).added_all(byte_entries(table)).added_all(joiner_entries())
}

pub open spec fn all_alphanumeric(s: Seq<char>) -> bool {
    forall|i: int| 0 <= i < s.len() ==> is_ascii_alphanumeric(#[trigger] s[i])
}

/// The kind that a surface read from a file has.
pub open spec fn loaded_token(s: Seq<char>, decoder: Map<u32, u8>) -> TokenModel {
    if s.len() == 1 {
        if s[0] == DEV_MARKER {
            TokenModel::SeededMorpheme(s)
        } else if s[0] == LAT_MARKER {
            TokenModel::Latin(s)
        } else if s[0] == ZWNJ {
            TokenModel::ZWNJ
        } else if is_ascii_alphanumeric(s[0]) {
            TokenModel::Latin(s)
        } else if decoder.contains_key(s[0] as u32) {
            TokenModel::ByteFallback(decoder[s[0] as u32])
        } else {
            TokenModel::Loaded(s)
        }
    } else if s.len() > 0 && s[0] == LAT_MARKER && all_alphanumeric(s.skip(1)) {
        TokenModel::Latin(s)
    } else if all_alphanumeric(s) {
        TokenModel::Latin(s)
    } else {
        TokenModel::Loaded(s)
    }
}

pub open spec fn by_id() -> spec_fn((usize, Seq<char>), (usize, Seq<char>)) -> bool {
    |x: (usize, Seq<char>), y: (usize, Seq<char>)| x.0 <= y.0
}

pub open spec fn pair_texts(pairs: Seq<(usize, String)>) -> Seq<(usize, Seq<char>)> {
    pairs.map_values(|p: (usize, String)| (p.0, p.1@))
}

/// The tokens of the given surfaces, one after the other.
pub open spec fn loaded_rows(rows: Seq<(usize, Seq<char>)>, decoder: Map<u32, u8>) -> VocabModel
    decreases rows.len(),
{
    if rows.len() == 0 {
        VocabModel::empty()
    } else {
        let t = loaded_token(rows.last().1, decoder);
        loaded_rows(rows.drop_last(), decoder).pushed(t, rows.last().1, t.script(), Seq::empty())
    }
}

/// A vocabulary with a marker that it may have lacked.
pub open spec fn with_marker(v: VocabModel, token: TokenModel, marker: char) -> VocabModel {
    if v.index.contains_key(seq![marker]) {
        v
    } else {
        VocabModel {
            max_len: v.max_len,
            ..v.pushed(token, seq![marker], token.script(), Seq::empty())
        }
    }
}

/// The vocabulary that a list of numbered surfaces describes. The numbers only give
/// the order: the tokens are numbered from zero.
pub open spec fn loaded(pairs: Seq<(usize, Seq<char>)>, decoder: Map<u32, u8>) -> VocabModel {
    with_marker(
        with_marker(
            loaded_rows(sorted(pairs, by_id()), decoder),
            TokenModel::SeededMorpheme(seq![DEV_MARKER]),
            DEV_MARKER,
        ),
        TokenModel::Latin(seq![LAT_MARKER]),
        LAT_MARKER,
    )
}

/// The number of tokens of a script.
pub open spec fn of_script(scripts: Seq<Script>, s: Script) -> nat
    decreases scripts.len(),
{
    if scripts.len() == 0 {
        0
    } else {
        of_script(scripts.drop_last(), s) + if scripts.last() == s {
            1nat
        } else {
            0nat
        }
    }
}

/// The prior of a root; one where none is given.
pub open spec fn prior_of(prior: Map<usize, i64>, root: usize) -> i64 {
    if prior.contains_key(root) {
        prior[root]
    } else {
        WEIGHT_ONE
    }
}

/// Roots with the greater prior come first, and of equals the smaller number.
pub open spec fn by_prior(prior: Map<usize, i64>) -> spec_fn(usize, usize) -> bool {
    |x: usize, y: usize|
        prior_of(prior, x) > prior_of(prior, y) || (prior_of(prior, x) == prior_of(prior, y) && x
            <= y)
}

/// The root sets after tagging: a token that paradigms speak of and whose surface
/// some paradigm knows gets the roots of those paradigms, the likeliest first.
pub open spec fn tagged_roots(
    v: VocabModel,
    ps: Seq<ParadigmModel>,
    prior: Map<usize, i64>,
) -> Seq<Seq<usize>> {
    Seq::new(
        v.roots.len(),
        |i: int|
            {
                let found = roots_with_prefix(ps, v.surfaces[i]);
                if v.tokens[i].takes_roots() && found.len() > 0 {
                    sorted(found, by_prior(prior))
                } else {
                    v.roots[i]
                }
            },
    )
}

/// The vocabulary.
pub struct Vocabulary {
    tokens: Vec<Arc<Token>>,
    surfaces: Vec<String>,
    scripts: Vec<Script>,
    root_sets: Vec<Vec<usize>>,
    surface_to_id: StringHashMap<usize>,
    v_strict: HashSet<usize>,
    v_ambiguous: HashSet<usize>,
    induction_conf: HashMap<usize, i64>,
    max_surface_len: usize,
}

/// A copy of a list of numbers.
pub fn copy_ids(v: &Vec<usize>) -> (out: Vec<usize>)
    ensures
        out@ == v@,
{
    let mut out: Vec<usize> = Vec::new();
    for i in 0..v.len()
        invariant
            out@ == v@.take(i as int),
    {
        out.push(v[i]);
    }
    out
}

/// Whether all characters from `from` on are ASCII letters or digits.
fn alphanumeric_from(t: &Vec<char>, from: usize) -> (yes: bool)
    requires
        from <= t@.len(),
    ensures
        yes == all_alphanumeric(t@.skip(from as int)),
{
    let ghost rest = t@.skip(from as int);
    for i in from..t.len()
        invariant
            from <= i <= t@.len(),
            rest == t@.skip(from as int),
            forall|j: int| 0 <= j < i - from ==> is_ascii_alphanumeric(#[trigger] rest[j]),
    {
        if !is_ascii_alphanumeric(t[i]) {
            assert(!is_ascii_alphanumeric(rest[i - from]));
            return false;
        }
    }
    true
}

fn find_byte(table: &[char; 256], ch: char) -> (b: Option<u8>)
    ensures
        b == byte_named(table@, ch, 256),
{
    let mut n: usize = 256;
    while n > 0
        invariant
            n <= 256,
            byte_named(table@, ch, 256) == byte_named(table@, ch, n as nat),
        decreases n,
    {
        if table[n - 1] == ch {
            return Some((n - 1) as u8);
        }
        n = n - 1;
    }
    None
}

/// What a listed surface stands for.
fn token_for_listed(token: Token, surface: &String, table: &[char; 256]) -> (t: Token)
    ensures
        t@ == listed_token(token@, surface@, table@),
{
    let chars = chars_of(surface.as_str());
    if chars.len() == 1 && chars[0] > '\u{7F}' {
        match find_byte(table, chars[0]) {
            Some(b) => Token::ByteFallback(b),
            None => token,
        }
    } else {
        token
    }
}

/// The kind of a surface that was read from a file.
fn token_for_loaded(surface: &String, decoder: &HashMap<u32, u8>) -> (t: Token)
    ensures
        t@ == loaded_token(surface@, decoder@),
{
    let chars = chars_of(surface.as_str());
    let ghost s = surface@;
    if chars.len() == 1 {
        let ch = chars[0];
        if ch == DEV_MARKER {
            Token::SeededMorpheme(surface.clone())
        } else if ch == LAT_MARKER {
            Token::Latin(surface.clone())
        } else if ch == ZWNJ {
            Token::ZWNJ
        } else if is_ascii_alphanumeric(ch) {
            Token::Latin(surface.clone())
        } else {
            match decoder.get(&(ch as u32)) {
                Some(b) => Token::ByteFallback(*b),
                None => Token::Loaded(surface.clone()),
            }
        }
    } else {
        assert(s.skip(0) =~= s);
        if chars.len() > 0 && chars[0] == LAT_MARKER && alphanumeric_from(&chars, 1) {
            Token::Latin(surface.clone())
        } else if alphanumeric_from(&chars, 0) {
            Token::Latin(surface.clone())
        } else {
            Token::Loaded(surface.clone())
        }
    }
}

impl View for Vocabulary {
    type V = VocabModel;

    closed spec fn view(&self) -> VocabModel {
        VocabModel {
            tokens: self.tokens@.map_values(|t: Arc<Token>| t@),
            surfaces: texts(self.surfaces@),
            scripts: self.scripts@,
            roots: self.root_sets@.map_values(|r: Vec<usize>| r@),
            index: self.surface_to_id@,
            strict: self.v_strict@,
            ambiguous: self.v_ambiguous@,
            confidence: self.induction_conf@,
            max_len: self.max_surface_len as nat,
        }
    }
}

impl Vocabulary {
    pub fn new() -> (v: Self)
        ensures
            v@ == VocabModel::empty(),
            v@.valid(),
    {
        let v = Self {
            tokens: Vec::new(),
            surfaces: Vec::new(),
            scripts: Vec::new(),
            root_sets: Vec::new(),
            surface_to_id: StringHashMap::new(),
            v_strict: HashSet::new(),
            v_ambiguous: HashSet::new(),
            induction_conf: HashMap::new(),
            max_surface_len: 0,
        };
        assert(v@ =~= VocabModel::empty());
        v
    }

    /// Appends a token.
    fn push_token(&mut self, token: Token, surface: String, script: Script, roots: Vec<usize>)
        requires
            old(self)@.valid(),
        ensures
            final(self)@ == old(self)@.pushed(token@, surface@, script, roots@),
            final(self)@.valid(),
            old(self)@.len() < usize::MAX,
    {
        let id = self.tokens.len();
        let clen = chars_of(surface.as_str()).len();
        if clen > self.max_surface_len {
            self.max_surface_len = clen;
        }
        self.surface_to_id.insert(surface.clone(), id);
        self.surfaces.push(surface);
        self.scripts.push(script);
        self.root_sets.push(roots);
        self.tokens.push(Arc::new(token));
        let count = self.tokens.len();
        proof {
            assert(count == id + 1);
            let w = old(self)@.pushed(token@, surface@, script, roots@);
            assert(self@.tokens =~= w.tokens);
            assert(self@.surfaces =~= w.surfaces);
            assert(self@.scripts =~= w.scripts);
            assert(self@.roots =~= w.roots);
            assert(self@ =~= w);
            lemma_pushed_valid(old(self)@, token@, surface@, script, roots@);
        }
    }

    /// Puts a token in and returns its number: that of the token that already has the
    /// surface, or a new one.
    pub fn add_token(
        &mut self,
        token: Token,
        surface: String,
        is_strict: bool,
        is_ambiguous: bool,
    ) -> (id: usize)
        requires
            old(self)@.valid(),
        ensures
            final(self)@ == old(self)@.added(
                Entry {
                    token: token@,
                    surface: surface@,
                    strict: is_strict,
                    ambiguous: is_ambiguous,
                },
            ),
            final(self)@.valid(),
            final(self)@.lookup(surface@) == Some(id),
    {
        let ghost e = Entry {
            token: token@,
            surface: surface@,
            strict: is_strict,
            ambiguous: is_ambiguous,
        };
        let ghost s = surface@;
        let found = match self.surface_to_id.get(surface.as_str()) {
            Some(id) => Some(*id),
            None => None,
        };
        let id = match found {
            Some(id) => id,
            None => {
                let id = self.tokens.len();
                let script = token.script();
                let roots = match &token {
                    Token::Akshara(a) => copy_ids(&a.root_set),
                    _ => Vec::new(),
                };
                assert(roots@ =~= token@.own_roots());
                self.push_token(token, surface, script, roots);
                id
            },
        };
        let ghost grown = self@;
        if is_strict {
            self.v_strict.insert(id);
        }
        if is_ambiguous {
            self.v_ambiguous.insert(id);
        }
        assert(self@ =~= old(self)@.added(e));
        id
    }

    /// Puts in the base inventory: the aksharas, the seeded morphemes with all that are
    /// named strict or ambiguous, the markers, the punctuation with the dandas, the
    /// ASCII letters and digits, the bytes and the non-joiner.
    pub fn initialize(
        &mut self,
        base_aksharas: Vec<Akshara>,
        seed_morphemes: Vec<String>,
        punctuation: Vec<String>,
        v_strict: Vec<String>,
        v_ambiguous: Vec<String>,
        byte_encoder: &[char; 256],
    )
        requires
            old(self)@.valid(),
        ensures
            final(self)@ == initialized(
                old(self)@,
                akshara_texts(base_aksharas@),
                texts(seed_morphemes@),
                texts(punctuation@),
                texts(v_strict@),
                texts(v_ambiguous@),
                byte_encoder@,
            ),
            final(self)@.valid(),
    {
        let ghost v0 = self@;
        let ghost es = akshara_entries(
            akshara_texts(base_aksharas@),
            byte_encoder@,
        );
        for i in 0..base_aksharas.len()
            invariant
                self@.valid(),
                es == akshara_entries(
            akshara_texts(base_aksharas@),
            byte_encoder@,
        ),
                self@ == v0.added_all(es.take(i as int)),
        {
            let a = &base_aksharas[i];
            let surface = a.surface.clone();
            let token = Token::Akshara(
                Akshara { surface: a.surface.clone(), root_set: copy_ids(&a.root_set) },
            );
            assert(es.take(i + 1).drop_last() =~= es.take(i as int));
            let token = token_for_listed(token, &surface, byte_encoder);
            self.add_token(token, surface, false, false);
        }
        assert(es.take(es.len() as int) =~= es);
        let mut seeds = copy_texts(&seed_morphemes);
        push_texts(&mut seeds, &v_strict);
        push_texts(&mut seeds, &v_ambiguous);
        self.add_seeds(&seeds, &v_strict, &v_ambiguous, byte_encoder);
        let ghost v2 = self@;
        self.add_token(
            Token::SeededMorpheme(string_of_char(DEV_MARKER)),
            string_of_char(DEV_MARKER),
            false,
            false,
        );
        self.add_token(
            Token::Latin(string_of_char(LAT_MARKER)),
            string_of_char(LAT_MARKER),
            false,
            false,
        );
        proof {
            let ms = marker_entries();
            reveal_with_fuel(VocabModel::added_all, 3);
            assert(ms.drop_last() =~= seq![ms[0]]);
            assert(ms.drop_last().drop_last() =~= Seq::<Entry>::empty());
            assert(self@ == v2.added_all(ms));
        }
        let mut punct = copy_texts(&punctuation);
        punct.push(string_of_char(DANDA));
        punct.push(string_of_char(DOUBLE_DANDA));
        let ghost listed = texts(punctuation@) + seq![seq![DANDA], seq![DOUBLE_DANDA]];
        assert(texts(punct@) =~= listed);
        let ext = extended_punct_chars();
        let ghost more = extended_punct().map_values(|c: char| seq![c]);
        assert(listed + more.take(0) =~= listed);
        for i in 0..ext.len()
            invariant
                ext@ == extended_punct(),
                more == extended_punct().map_values(|c: char| seq![c]),
                texts(punct@) == listed + more.take(i as int),
        {
            let ghost before = texts(punct@);
            punct.push(string_of_char(ext[i]));
            assert(texts(punct@) =~= before.push(seq![ext@[i as int]]));
            assert(texts(punct@) =~= listed + more.take(i + 1));
        }
        assert(more.take(more.len() as int) =~= more);
        self.add_punctuation(&punct, byte_encoder);
        self.add_latin();
        self.add_bytes(byte_encoder);
        let ghost v7 = self@;
        self.add_token(Token::ZWNJ, string_of_char(ZWNJ), false, false);
        proof {
            let js = joiner_entries();
            reveal_with_fuel(VocabModel::added_all, 2);
            assert(js.drop_last() =~= Seq::<Entry>::empty());
            assert(self@ == v7.added_all(js));
        }
    }

    fn add_seeds(
        &mut self,
        seeds: &Vec<String>,
        v_strict: &Vec<String>,
        v_ambiguous: &Vec<String>,
        table: &[char; 256],
    )
        requires
            old(self)@.valid(),
        ensures
            final(self)@ == old(self)@.added_all(
                seed_entries(texts(seeds@), texts(v_strict@), texts(v_ambiguous@), table@),
            ),
            final(self)@.valid(),
    {
        let ghost v0 = self@;
        let ghost es = seed_entries(texts(seeds@), texts(v_strict@), texts(v_ambiguous@), table@);
        for i in 0..seeds.len()
            invariant
                self@.valid(),
                es == seed_entries(
                    texts(seeds@),
                    texts(v_strict@),
                    texts(v_ambiguous@),
                    table@,
                ),
                self@ == v0.added_all(es.take(i as int)),
        {
            let morph = &seeds[i];
            let is_strict = contains_text(v_strict, morph.as_str());
            let is_ambiguous = contains_text(v_ambiguous, morph.as_str());
            assert(es.take(i + 1).drop_last() =~= es.take(i as int));
            let token = token_for_listed(Token::SeededMorpheme(morph.clone()), morph, table);
            self.add_token(token, morph.clone(), is_strict, is_ambiguous);
        }
        assert(es.take(es.len() as int) =~= es);
    }

    fn add_punctuation(&mut self, punctuation: &Vec<String>, table: &[char; 256])
        requires
            old(self)@.valid(),
        ensures
            final(self)@ == old(self)@.added_all(punct_entries(texts(punctuation@), table@)),
            final(self)@.valid(),
    {
        let ghost v0 = self@;
        let ghost es = punct_entries(texts(punctuation@), table@);
        for i in 0..punctuation.len()
            invariant
                self@.valid(),
                es == punct_entries(texts(punctuation@), table@),
                self@ == v0.added_all(es.take(i as int)),
        {
            assert(es.take(i + 1).drop_last() =~= es.take(i as int));
            let surface = punctuation[i].clone();
            let token = token_for_listed(Token::Punctuation(surface.clone()), &surface, table);
            self.add_token(token, surface, false, false);
        }
        assert(es.take(es.len() as int) =~= es);
    }

    fn add_latin(&mut self)
        requires
            old(self)@.valid(),
        ensures
            final(self)@ == old(self)@.added_all(latin_entries()),
            final(self)@.valid(),
    {
        let ghost v0 = self@;
        let ghost es = latin_entries();
        for i in 0u8..62u8
            invariant
                self@.valid(),
                es == latin_entries(),
                self@ == v0.added_all(es.take(i as int)),
        {
            let c = if i < 26 {
                (97 + i) as char
            } else if i < 52 {
                (65 + (i - 26)) as char
            } else {
                (48 + (i - 52)) as char
            };
            assert(latin_chars()[i as int] == c);
            assert(es.take(i + 1).drop_last() =~= es.take(i as int));
            self.add_token(Token::Latin(string_of_char(c)), string_of_char(c), false, false);
        }
        assert(es.take(es.len() as int) =~= es);
    }

    fn add_bytes(&mut self, table: &[char; 256])
        requires
            old(self)@.valid(),
        ensures
            final(self)@ == old(self)@.added_all(byte_entries(table@)),
            final(self)@.valid(),
    {
        let ghost v0 = self@;
        let ghost es = byte_entries(table@);
        for i in 0usize..256usize
            invariant
                self@.valid(),
                es == byte_entries(table@),
                self@ == v0.added_all(es.take(i as int)),
        {
            let c = table[i];
            assert(es.take(i + 1).drop_last() =~= es.take(i as int));
            self.add_token(Token::ByteFallback(i as u8), string_of_char(c), false, false);
        }
        assert(es.take(es.len() as int) =~= es);
    }

    /// Puts in a unit that induction proposed. It becomes an ambiguous seed and
    /// never a strict one. Confidences are compared and kept, never computed with:
    /// any integers in the same order will do.
    pub fn add_induced_ambiguous(&mut self, surface: String, confidence: i64) -> (id: usize)
        requires
            old(self)@.valid(),
        ensures
            final(self)@.lookup(surface@) == Some(id),
            final(self)@ == (VocabModel {
                confidence: old(self)@.confidence.insert(id, confidence),
                ..old(self)@.added(
                    Entry {
                        token: TokenModel::SeededMorpheme(surface@),
                        surface: surface@,
                        strict: false,
                        ambiguous: true,
                    },
                )
            }),
            final(self)@.valid(),
    {
        let id = self.add_token(Token::SeededMorpheme(surface.clone()), surface, false, true);
        let ghost grown = self@;
        self.induction_conf.insert(id, confidence);
        assert(self@ =~= (VocabModel {
            confidence: old(self)@.confidence.insert(id, confidence),
            ..grown
        }));
        id
    }

    /// Makes a known surface a strict seed, which takes a person's consent.
    pub fn promote_to_strict(&mut self, surface: &str, human_validated: bool) -> (done: bool)
        requires
            old(self)@.valid(),
        ensures
            done == (human_validated && old(self)@.index.contains_key(surface@)),
            final(self)@.valid(),
            done ==> final(self)@ == (VocabModel {
                strict: old(self)@.strict.insert(old(self)@.index[surface@]),
                ambiguous: old(self)@.ambiguous.remove(old(self)@.index[surface@]),
                ..old(self)@
            }),
            !done ==> final(self)@ == old(self)@,
    {
        if !human_validated {
            return false;
        }
        let found = match self.surface_to_id.get(surface) {
            Some(id) => Some(*id),
            None => None,
        };
        match found {
            Some(id) => {
                self.v_ambiguous.remove(&id);
                self.v_strict.insert(id);
                assert(self@ =~= (VocabModel {
                    strict: old(self)@.strict.insert(id),
                    ambiguous: old(self)@.ambiguous.remove(id),
                    ..old(self)@
                }));
                true
            },
            None => false,
        }
    }

    pub fn induction_confidence(&self, id: usize) -> (c: Option<i64>)
        ensures
            c == (if self@.confidence.contains_key(id) {
                Some(self@.confidence[id])
            } else {
                None
            }),
    {
        match self.induction_conf.get(&id) {
            Some(c) => Some(*c),
            None => None,
        }
    }

    /// Tags the tokens with the roots whose paradigms know their surface.
    pub fn assign_roots_from_registry(
        &mut self,
        registry: &ParadigmRegistry,
        prior: &HashMap<usize, i64>,
    )
        requires
            old(self)@.valid(),
        ensures
            final(self)@ == (VocabModel {
                roots: tagged_roots(old(self)@, registry@, prior@),
                ..old(self)@
            }),
            final(self)@.valid(),
    {
        let ghost v0 = self@;
        let ghost goal = tagged_roots(v0, registry@, prior@);
        let n = self.tokens.len();
        for id in 0..n
            invariant
                v0.valid(),
                n == v0.len(),
                self@ == (VocabModel { roots: self@.roots, ..v0 }),
                self.tokens@.len() == n,
                self.surfaces@.len() == n,
                self.root_sets@.len() == n,
                goal == tagged_roots(v0, registry@, prior@),
                forall|i: int| 0 <= i < id ==> #[trigger] self@.roots[i] == goal[i],
                forall|i: int| id <= i < n ==> #[trigger] self@.roots[i] == v0.roots[i],
        {
            assert(v0.tokens[id as int] == self.tokens@[id as int]@);
            assert(v0.surfaces[id as int] == self.surfaces@[id as int]@);
            let ghost before = self@;
            assert(self@.roots[id as int] == v0.roots[id as int]);
            if self.tokens[id].takes_roots() {
                let roots = registry.get_root_set(self.surfaces[id].as_str());
                if roots.len() > 0 {
                    let ordered = sort_roots(&roots, prior);
                    self.root_sets.set(id, ordered);
                    assert(self@.roots =~= before.roots.update(id as int, ordered@));
                    assert(self@ =~= (VocabModel { roots: self@.roots, ..v0 }));
                }
            }
        }
        assert(self@.roots =~= goal);
    }

    pub fn get_id_by_surface(&self, surface: &str) -> (id: Option<usize>)
        ensures
            id == self@.lookup(surface@),
    {
        match self.surface_to_id.get(surface) {
            Some(id) => Some(*id),
            None => None,
        }
    }

    pub fn max_surface_len(&self) -> (n: usize)
        ensures
            n == self@.max_len,
    {
        self.max_surface_len
    }

    /// Replaces the vocabulary by the one that a list of numbered surfaces describes.
    /// The decoder leads from the codes of characters to the bytes that they name.
    pub fn load_from_pairs(
        &mut self,
        pairs: Vec<(usize, String)>,
        byte_decoder: &HashMap<u32, u8>,
    )
        ensures
            final(self)@ == loaded(pair_texts(pairs@), byte_decoder@),
            final(self)@.valid(),
    {
        let fresh = Vocabulary::new();
        *self = fresh;
        let ghost decoder = byte_decoder@;
        let rows = sort_pairs(pairs);
        let ghost rs = pair_texts(rows@);
        for i in 0..rows.len()
            invariant
                self@.valid(),
                decoder == byte_decoder@,
                rs == pair_texts(rows@),
                self@ == loaded_rows(rs.take(i as int), decoder),
        {
            let surface = rows[i].1.clone();
            let token = token_for_loaded(&surface, byte_decoder);
            let script = token.script();
            assert(rs.take(i + 1).drop_last() =~= rs.take(i as int));
            self.push_token(token, surface, script, Vec::new());
        }
        assert(rs.take(rs.len() as int) =~= rs);
        self.ensure_marker(DEV_MARKER, Token::SeededMorpheme(string_of_char(DEV_MARKER)));
        self.ensure_marker(LAT_MARKER, Token::Latin(string_of_char(LAT_MARKER)));
    }

    fn ensure_marker(&mut self, marker: char, token: Token)
        requires
            old(self)@.valid(),
        ensures
            final(self)@ == with_marker(old(self)@, token@, marker),
            final(self)@.valid(),
    {
        let surface = string_of_char(marker);
        if !self.surface_to_id.contains_key(surface.as_str()) {
            let keep = self.max_surface_len;
            let script = token.script();
            self.push_token(token, surface, script, Vec::new());
            let ghost grown = self@;
            self.max_surface_len = keep;
            assert(self@ =~= with_marker(old(self)@, token@, marker));
            assert forall|i: int| 0 <= i < self@.surfaces.len() implies (
            #[trigger] self@.surfaces[i]).len() <= max_nat(self@.max_len, 1) by {
                if i < old(self)@.surfaces.len() {
                    assert(self@.surfaces[i] == old(self)@.surfaces[i]);
                }
            }
        }
    }

    pub fn get_token(&self, id: usize) -> (t: Option<&Arc<Token>>)
        ensures
            t is Some <==> id < self@.len(),
            t is Some ==> (*t->0)@ == self@.tokens[id as int],
    {
        if id < self.tokens.len() {
            Some(&self.tokens[id])
        } else {
            None
        }
    }

    pub fn get_script(&self, id: usize) -> (s: Script)
        ensures
            s == self@.script_of(id),
    {
        if id < self.scripts.len() {
            self.scripts[id]
        } else {
            Script::MAL
        }
    }

    pub fn is_strict(&self, id: usize) -> (yes: bool)
        ensures
            yes == self@.strict.contains(id),
    {
        self.v_strict.contains(&id)
    }

    pub fn is_ambiguous(&self, id: usize) -> (yes: bool)
        ensures
            yes == self@.ambiguous.contains(id),
    {
        self.v_ambiguous.contains(&id)
    }

    pub fn get_root_set(&self, id: usize) -> (roots: &[usize])
        ensures
            roots@ == self@.roots_of(id),
    {
        if id < self.root_sets.len() {
            self.root_sets[id].as_slice()
        } else {
            &[]
        }
    }

    /// Makes the token for the merge of `a` and `b`, unless some token already has
    /// the joined surface.
    pub fn create_merged(&mut self, a: usize, b: usize, merged_root_set: Vec<usize>) -> (id: usize)
        requires
            old(self)@.valid(),
        ensures
            (final(self)@, id) == old(self)@.merged(a, b, merged_root_set@),
            final(self)@.valid(),
            id < final(self)@.len(),
    {
        let mut surface = self.surface_or_empty(a);
        let tail = self.surface_or_empty(b);
        push_text(&mut surface, tail.as_str());
        let found = match self.surface_to_id.get(surface.as_str()) {
            Some(id) => Some(*id),
            None => None,
        };
        match found {
            Some(id) => id,
            None => {
                let id = self.tokens.len();
                let script = if a < self.scripts.len() {
                    self.scripts[a]
                } else {
                    Script::DEV
                };
                let parts: Vec<usize> = vec![a, b];
                assert(parts@ =~= seq![a, b]);
                self.push_token(Token::MergedToken(parts), surface, script, merged_root_set);
                id
            },
        }
    }

    pub fn surface_or_empty(&self, id: usize) -> (s: String)
        ensures
            s@ == self@.surface_of(id),
    {
        match self.get_surface(id) {
            Some(s) => s,
            None => {
                let s = String::new();
                assert(s@ =~= Seq::<char>::empty());
                s
            },
        }
    }

    pub fn get_surface(&self, id: usize) -> (s: Option<String>)
        ensures
            s is Some <==> id < self@.surfaces.len(),
            s is Some ==> s->0@ == self@.surfaces[id as int],
    {
        if id < self.surfaces.len() {
            Some(self.surfaces[id].clone())
        } else {
            None
        }
    }

    pub fn len(&self) -> (n: usize)
        ensures
            n == self@.len(),
    {
        self.tokens.len()
    }

    pub fn is_empty(&self) -> (empty: bool)
        ensures
            empty == (self@.len() == 0),
    {
        self.tokens.len() == 0
    }

    /// Every token with its surface, in the order of the numbers.
    pub fn get_all_surfaces(&self) -> (pairs: Vec<(usize, String)>)
        ensures
            pair_texts(pairs@) == Seq::new(
                self@.surfaces.len(),
                |i: int| (i as usize, self@.surfaces[i]),
            ),
    {
        let mut pairs: Vec<(usize, String)> = Vec::new();
        for i in 0..self.surfaces.len()
            invariant
                pairs@.len() == i,
                forall|j: int|
                    0 <= j < i ==> (#[trigger] pairs@[j]).0 == j && pairs@[j].1@
                        == self@.surfaces[j],
        {
            pairs.push((i, self.surfaces[i].clone()));
        }
        assert(pair_texts(pairs@) =~= Seq::new(
            self@.surfaces.len(),
            |i: int| (i as usize, self@.surfaces[i]),
        ));
        pairs
    }

    pub fn contains_surface(&self, surface: &str) -> (yes: bool)
        ensures
            yes == self@.index.contains_key(surface@),
    {
        self.surface_to_id.contains_key(surface)
    }

    /// The script of every token, as its number, in the order of the tokens.
    pub fn script_vector(&self) -> (codes: Vec<u8>)
        requires
            self@.valid(),
        ensures
            codes@ == self@.scripts.map_values(|s: Script| s.code()),
    {
        let mut codes: Vec<u8> = Vec::new();
        for i in 0..self.scripts.len()
            invariant
                codes@ == self.scripts@.take(i as int).map_values(|s: Script| s.code()),
        {
            codes.push(self.scripts[i].code());
            assert(codes@ =~= self.scripts@.take(i + 1).map_values(|s: Script| s.code()));
        }
        assert(self.scripts@.take(self.scripts@.len() as int) =~= self.scripts@);
        codes
    }

    /// How many tokens have the given script.
    pub fn count_script(&self, s: Script) -> (n: usize)
        requires
            self@.valid(),
        ensures
            n == of_script(self@.scripts, s),
    {
        let mut n: usize = 0;
        let ghost all = self.scripts@;
        for i in 0..self.scripts.len()
            invariant
                all == self.scripts@,
                n == of_script(all.take(i as int), s),
                n <= i,
        {
            assert(all.take(i + 1).drop_last() =~= all.take(i as int));
            if self.scripts[i] == s {
                n = n + 1;
            }
        }
        assert(all.take(all.len() as int) =~= all);
        n
    }
}

pub fn prior_value(prior: &HashMap<usize, i64>, root: usize) -> (p: i64)
    ensures
        p == prior_of(prior@, root),
{
    match prior.get(&root) {
        Some(p) => *p,
        None => WEIGHT_ONE,
    }
}

fn sort_roots(roots: &Vec<usize>, prior: &HashMap<usize, i64>) -> (out: Vec<usize>)
    ensures
        out@ == sorted(roots@, by_prior(prior@)),
{
    let ghost leq = by_prior(prior@);
    let mut out: Vec<usize> = Vec::new();
    assert(out@ =~= sorted(roots@.take(0), leq));
    for i in 0..roots.len()
        invariant
            leq == by_prior(prior@),
            out@ == sorted(roots@.take(i as int), leq),
    {
        let x = roots[i];
        let px = prior_value(prior, x);
        let mut k: usize = out.len();
        let mut placed = false;
        while k > 0 && !placed
            invariant
                k <= out@.len(),
                leq == by_prior(prior@),
                px == prior_of(prior@, x),
                placed ==> k > 0 && leq(out@[k - 1], x),
                forall|j: int| k <= j < out@.len() ==> !leq(#[trigger] out@[j], x),
            decreases k + (if placed {
                0int
            } else {
                1int
            }),
        {
            let y = out[k - 1];
            let py = prior_value(prior, y);
            if py > px || (py == px && y <= x) {
                placed = true;
            } else {
                k = k - 1;
            }
        }
        proof {
            lemma_place_unique(out@, x, leq, k as int);
            assert(roots@.take(i + 1).drop_last() =~= roots@.take(i as int));
        }
        out.insert(k, x);
    }
    assert(roots@.take(roots@.len() as int) =~= roots@);
    out
}

fn sort_pairs(pairs: Vec<(usize, String)>) -> (out: Vec<(usize, String)>)
    ensures
        pair_texts(out@) == sorted(pair_texts(pairs@), by_id()),
{
    let ghost all = pair_texts(pairs@);
    let mut out: Vec<(usize, String)> = Vec::new();
    assert(pair_texts(out@) =~= sorted(all.take(0), by_id()));
    for i in 0..pairs.len()
        invariant
            all == pair_texts(pairs@),
            pair_texts(out@) == sorted(all.take(i as int), by_id()),
    {
        let id = pairs[i].0;
        let ghost x = all[i as int];
        let ghost front = pair_texts(out@);
        let mut k: usize = out.len();
        while k > 0 && out[k - 1].0 > id
            invariant
                k <= out@.len(),
                front == pair_texts(out@),
                x.0 == id,
                forall|j: int| k <= j < front.len() ==> !by_id()(#[trigger] front[j], x),
            decreases k,
        {
            assert(front[k - 1].0 == out@[k - 1].0);
            k = k - 1;
        }
        proof {
            if k > 0 {
                assert(front[k - 1].0 == out@[k - 1].0);
            }
            lemma_place_unique(front, x, by_id(), k as int);
            assert(all.take(i + 1).drop_last() =~= all.take(i as int));
        }
        out.insert(k, (id, pairs[i].1.clone()));
        assert(pair_texts(out@) =~= front.insert(k as int, x));
    }
    assert(all.take(all.len() as int) =~= all);
    out
}

/// Root sets are ordered by falling prior: a set cut short keeps the likeliest roots.
pub proof fn law_roots_by_falling_prior(roots: Seq<usize>, prior: Map<usize, i64>)
    ensures
        sorted(roots, by_prior(prior)).to_multiset() == roots.to_multiset(),
        forall|i: int, j: int|
            0 <= i <= j < roots.len() ==> prior_of(
                prior,
                #[trigger] sorted(roots, by_prior(prior))[i],
            ) >= prior_of(prior, #[trigger] sorted(roots, by_prior(prior))[j]),
{
    let leq = by_prior(prior);
    assert(total_order(leq));
    lemma_sorted(roots, leq);
    assert forall|i: int, j: int| 0 <= i <= j < roots.len() implies prior_of(
        prior,
        #[trigger] sorted(roots, leq)[i],
    ) >= prior_of(prior, #[trigger] sorted(roots, leq)[j]) by {
        assert(leq(sorted(roots, leq)[i], sorted(roots, leq)[j]));
    }
}

} // verus!
