//! Characters, words and the conversions between strings and character vectors.

use vstd::prelude::*;

verus! {

/// The ASCII letters and digits.
#[verifier::allow_in_spec]
pub fn is_ascii_alphanumeric(c: char) -> bool
    returns
        ('a' <= c && c <= 'z') || ('A' <= c && c <= 'Z') || ('0' <= c && c <= '9'),
{
    ('a' <= c && c <= 'z') || ('A' <= c && c <= 'Z') || ('0' <= c && c <= '9')
}

/// The ASCII punctuation: every visible ASCII character that is neither a
/// letter nor a digit.
#[verifier::allow_in_spec]
pub fn is_ascii_punctuation(c: char) -> bool
    returns
        '!' <= c && c <= '~' && !is_ascii_alphanumeric(c),
{
    '!' <= c && c <= '~' && !is_ascii_alphanumeric(c)
}

/// The bytes that stand for a visible ASCII character.
#[verifier::allow_in_spec]
pub fn is_ascii_graphic(b: u8) -> bool
    returns
        0x21 <= b && b <= 0x7E,
{
    0x21 <= b && b <= 0x7E
}

/// The characters with the Unicode property `White_Space`.
#[verifier::allow_in_spec]
pub fn is_white_space(c: char) -> bool
    returns
        ('\u{9}' <= c && c <= '\u{D}') || c == ' ' || c == '\u{85}' || c == '\u{A0}' || c
            == '\u{1680}' || ('\u{2000}' <= c && c <= '\u{200A}') || c == '\u{2028}' || c
            == '\u{2029}' || c == '\u{202F}' || c == '\u{205F}' || c == '\u{3000}',
{
    ('\u{9}' <= c && c <= '\u{D}') || c == ' ' || c == '\u{85}' || c == '\u{A0}' || c == '\u{1680}'
        || ('\u{2000}' <= c && c <= '\u{200A}') || c == '\u{2028}' || c == '\u{2029}' || c
        == '\u{202F}' || c == '\u{205F}' || c == '\u{3000}'
}

/// The characters of a string.
pub fn chars_of(s: &str) -> (v: Vec<char>)
    ensures
        v@ == s@,
{
    let mut v: Vec<char> = Vec::new();
    for c in it: s.chars()
        invariant
            v@ == it.seq().take(it.index() as int),
            it.seq() == s@,
    {
        v.push(c);
    }
    v
}

/// The string made of the characters from `from` up to `to`.
pub fn string_of(v: &Vec<char>, from: usize, to: usize) -> (s: String)
    requires
        from <= to <= v@.len(),
    ensures
        s@ == v@.subrange(from as int, to as int),
{
    let mut s = String::new();
    for i in from..to
        invariant
            from <= i <= to <= v@.len(),
            s@ == v@.subrange(from as int, i as int),
    {
        s.push(v[i]);
        assert(s@ =~= v@.subrange(from as int, i + 1));
    }
    s
}

/// The string made of one character.
pub fn string_of_char(c: char) -> (s: String)
    ensures
        s@ == seq![c],
{
    let mut s = String::new();
    s.push(c);
    s
}

/// Appends a string to another.
pub fn push_text(s: &mut String, tail: &str)
    ensures
        final(s)@ == old(s)@ + tail@,
{
    for c in it: tail.chars()
        invariant
            s@ == old(s)@ + it.seq().take(it.index() as int),
            it.seq() == tail@,
    {
        s.push(c);
    }
}

/// A copy of a list of texts.
pub fn copy_texts(list: &Vec<String>) -> (out: Vec<String>)
    ensures
        texts(out@) == texts(list@),
{
    let mut out: Vec<String> = Vec::new();
    push_texts(&mut out, list);
    assert(texts(out@) =~= texts(list@));
    out
}

/// Appends texts to a list.
pub fn push_texts(list: &mut Vec<String>, more: &Vec<String>)
    ensures
        texts(final(list)@) == texts(old(list)@) + texts(more@),
{
    let ghost front = texts(list@);
    assert(front + texts(more@).take(0) =~= front);
    for i in 0..more.len()
        invariant
            texts(list@) == front + texts(more@).take(i as int),
    {
        let ghost before = texts(list@);
        list.push(more[i].clone());
        assert(texts(list@) =~= before.push(more@[i as int]@));
        assert(texts(list@) =~= front + texts(more@).take(i + 1));
    }
    assert(texts(more@).take(more@.len() as int) =~= texts(more@));
}

/// Whether two strings hold the same characters.
pub fn same_text(a: &str, b: &str) -> (same: bool)
    ensures
        same == (a@ == b@),
{
    let x = chars_of(a);
    let y = chars_of(b);
    if x.len() != y.len() {
        return false;
    }
    for i in 0..x.len()
        invariant
            x@ == a@,
            y@ == b@,
            x@.len() == y@.len(),
            x@.take(i as int) == y@.take(i as int),
    {
        if x[i] != y[i] {
            assert(a@[i as int] != b@[i as int]);
            return false;
        }
        assert(x@.take(i + 1) =~= x@.take(i as int).push(x@[i as int]));
        assert(y@.take(i + 1) =~= y@.take(i as int).push(y@[i as int]));
    }
    assert(x@.take(x@.len() as int) =~= x@);
    assert(y@.take(y@.len() as int) =~= y@);
    true
}

/// The texts that a list of strings holds.
pub open spec fn texts(list: Seq<String>) -> Seq<Seq<char>> {
    list.map_values(|s: String| s@)
}

/// Whether `text` is one of the strings of `list`.
pub fn contains_text(list: &Vec<String>, text: &str) -> (found: bool)
    ensures
        found == texts(list@).contains(text@),
{
    for i in 0..list.len()
        invariant
            forall|j: int| 0 <= j < i ==> texts(list@)[j] != text@,
    {
        if same_text(list[i].as_str(), text) {
            assert(texts(list@)[i as int] == text@);
            return true;
        }
    }
    assert(!texts(list@).contains(text@));
    false
}

/// How many characters at the front of `t` are not white space.
pub open spec fn word_len(t: Seq<char>) -> nat
    decreases t.len(),
{
    if t.len() == 0 || is_white_space(t[0]) {
        0
    } else {
        1 + word_len(t.skip(1))
    }
}

pub proof fn lemma_word_len(t: Seq<char>)
    ensures
        word_len(t) <= t.len(),
        forall|i: int| 0 <= i < word_len(t) ==> !is_white_space(#[trigger] t[i]),
        word_len(t) < t.len() ==> is_white_space(t[word_len(t) as int]),
    decreases t.len(),
{
    if t.len() > 0 && !is_white_space(t[0]) {
        lemma_word_len(t.skip(1));
        assert forall|i: int| 0 <= i < word_len(t) implies !is_white_space(#[trigger] t[i]) by {
            if i > 0 {
                assert(t[i] == t.skip(1)[i - 1]);
            }
        }
    }
}

/// The words of a text: its longest stretches without white space, in order.
pub open spec fn words(t: Seq<char>) -> Seq<Seq<char>>
    decreases t.len(),
{
    if t.len() == 0 {
        Seq::empty()
    } else if is_white_space(t[0]) {
        words(t.skip(1))
    } else {
        let k = word_len(t);
        if k > t.len() {
            Seq::empty()
        } else {
            seq![t.take(k as int)] + words(t.skip(k as int))
        }
    }
}

/// Splits a text at white space.
pub fn split_words(t: &Vec<char>) -> (out: Vec<Vec<char>>)
    ensures
        out@.map_values(|w: Vec<char>| w@) == words(t@),
{
    let mut out: Vec<Vec<char>> = Vec::new();
    let mut i: usize = 0;
    assert(t@.skip(0) =~= t@);
    assert(out@.map_values(|w: Vec<char>| w@) + words(t@) =~= words(t@));
    while i < t.len()
        invariant
            i <= t@.len(),
            out@.map_values(|w: Vec<char>| w@) + words(t@.skip(i as int)) == words(t@),
        decreases t@.len() - i,
    {
        let ghost rest = t@.skip(i as int);
        if is_white_space(t[i]) {
            assert(rest.skip(1) =~= t@.skip(i + 1));
            i = i + 1;
        } else {
            proof {
                lemma_word_len(rest);
            }
            let start = i;
            let mut w: Vec<char> = Vec::new();
            while i < t.len() && !is_white_space(t[i])
                invariant
                    start <= i <= t@.len(),
                    rest == t@.skip(start as int),
                    w@ == t@.subrange(start as int, i as int),
                    i - start <= word_len(rest),
                    word_len(rest) <= rest.len(),
                    forall|j: int|
                        0 <= j < word_len(rest) ==> !is_white_space(#[trigger] rest[j]),
                    word_len(rest) < rest.len() ==> is_white_space(rest[word_len(rest) as int]),
                decreases t@.len() - i,
            {
                assert(t@[i as int] == rest[i - start]);
                w.push(t[i]);
                assert(w@ =~= t@.subrange(start as int, i + 1));
                i = i + 1;
            }
            assert(i - start == word_len(rest)) by {
                if i - start < word_len(rest) {
                    assert(t@[i as int] == rest[i - start]);
                }
            }
            assert(rest.take(word_len(rest) as int) =~= w@);
            assert(rest.skip(word_len(rest) as int) =~= t@.skip(i as int));
            let ghost before = out@.map_values(|w: Vec<char>| w@);
            out.push(w);
            assert(out@.map_values(|w: Vec<char>| w@) =~= before.push(w@));
            assert(before.push(w@) + words(t@.skip(i as int)) =~= before + (seq![w@] + words(
                t@.skip(i as int),
            )));
        }
    }
    assert(t@.skip(i as int) =~= Seq::<char>::empty());
    assert(out@.map_values(|w: Vec<char>| w@) + words(t@.skip(i as int)) =~= out@.map_values(
        |w: Vec<char>| w@,
    ));
    out
}

} // verus!
