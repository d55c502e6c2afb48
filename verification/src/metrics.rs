//! What a tokenizer makes of texts, in numbers.

use crate::encoding::decoded;
use crate::script::Script;
use crate::text::{chars_of, same_text, split_words, texts, words};
use crate::tokenizer::HimalayanTokenization;
use crate::vocab::of_script;
use vstd::prelude::*;
use vstd::utf8::encode_utf8;

verus! {

/// Sums over a list of texts, all taken from the normalized texts, and the sizes of
/// the vocabulary and of its parts.
#[derive(Debug, Clone, Copy)]
pub struct CorpusStats {
    pub texts: usize,
    pub tokens: u128,
    pub words: u128,
    pub chars: u128,
    pub bytes: u128,
    /// Tokens that stand for bytes.
    pub malformed: u128,
    /// Texts that come back from their tokens.
    pub roundtrips: u128,
    pub vocab_size: usize,
    pub dev_tokens: usize,
    pub lat_tokens: usize,
}

/// The sum of a number over texts.
pub open spec fn sum_over(list: Seq<Seq<char>>, f: spec_fn(Seq<char>) -> nat) -> nat
    decreases list.len(),
{
    if list.len() == 0 {
        0
    } else {
        sum_over(list.drop_last(), f) + f(list.last())
    }
}

impl HimalayanTokenization {
    pub open spec fn token_number(&self) -> spec_fn(Seq<char>) -> nat {
        |n: Seq<char>| self.encoder().encoded(n).len()
    }

    pub open spec fn malformed_number(&self) -> spec_fn(Seq<char>) -> nat {
        |n: Seq<char>|
            self.encoder().encoded(n).filter(
                |id: usize| self.vocab@.script_of(id) == Script::MAL,
            ).len()
    }

    pub open spec fn roundtrip_number(&self) -> spec_fn(Seq<char>) -> nat {
        |n: Seq<char>|
            if decoded(self.vocab@, self.encoder().encoded(n)) == n {
                1nat
            } else {
                0nat
            }
    }

    /// The numbers that evaluation is made from.
    pub fn corpus_stats(&self, list: &Vec<String>) -> (stats: CorpusStats)
        requires
            self.wf(),
        ensures
            ({
                let ns = texts(list@).map_values(|t: Seq<char>| self.normalizer.normalized(t));
                &&& stats.texts == list@.len()
                &&& stats.tokens == sum_over(ns, self.token_number())
                &&& stats.words == sum_over(ns, |n: Seq<char>| words(n).len())
                &&& stats.chars == sum_over(ns, |n: Seq<char>| n.len())
                &&& stats.bytes == sum_over(ns, |n: Seq<char>| encode_utf8(n).len())
                &&& stats.malformed == sum_over(ns, self.malformed_number())
                &&& stats.roundtrips == sum_over(ns, self.roundtrip_number())
            }),
            stats.vocab_size == self.vocab@.len(),
            stats.dev_tokens == of_script(self.vocab@.scripts, Script::DEV),
            stats.lat_tokens == of_script(self.vocab@.scripts, Script::LAT),
    {
        let ghost ns = texts(list@).map_values(|t: Seq<char>| self.normalizer.normalized(t));
        let ghost word_number = |n: Seq<char>| words(n).len();
        let ghost char_number = |n: Seq<char>| n.len();
        let ghost byte_number = |n: Seq<char>| encode_utf8(n).len();
        let mut tokens: u128 = 0;
        let mut word_sum: u128 = 0;
        let mut chars: u128 = 0;
        let mut bytes: u128 = 0;
        let mut malformed: u128 = 0;
        let mut roundtrips: u128 = 0;
        let count = list.len();
        for i in 0..count
            invariant
                self.wf(),
                count == list@.len(),
                ns == texts(list@).map_values(|t: Seq<char>| self.normalizer.normalized(t)),
                word_number == (|n: Seq<char>| words(n).len()),
                char_number == (|n: Seq<char>| n.len()),
                byte_number == (|n: Seq<char>| encode_utf8(n).len()),
                tokens == sum_over(ns.take(i as int), self.token_number()),
                word_sum == sum_over(ns.take(i as int), word_number),
                chars == sum_over(ns.take(i as int), char_number),
                bytes == sum_over(ns.take(i as int), byte_number),
                malformed == sum_over(ns.take(i as int), self.malformed_number()),
                roundtrips == sum_over(ns.take(i as int), self.roundtrip_number()),
                tokens <= i * 0xFFFF_FFFF_FFFF_FFFF,
                word_sum <= i * 0xFFFF_FFFF_FFFF_FFFF,
                chars <= i * 0xFFFF_FFFF_FFFF_FFFF,
                bytes <= i * 0xFFFF_FFFF_FFFF_FFFF,
                malformed <= i * 0xFFFF_FFFF_FFFF_FFFF,
                roundtrips <= i,
        {
            let norm = self.normalizer.normalize(list[i].as_str());
            let ghost n = ns[i as int];
            assert(n == norm@);
            assert(ns.take(i + 1).drop_last() =~= ns.take(i as int));
            assert(ns.take(i + 1).last() == n);
            let cs = chars_of(norm.as_str());
            let parts = split_words(&cs);
            assert(parts@.map_values(|w: Vec<char>| w@).len() == parts@.len());
            let raw = norm.as_str().as_bytes();
            let ids = self.encode_normalized(norm.as_str());
            let mal = self.count_malformed(&ids);
            let back = self.decode(ids.as_slice());
            chars = chars + cs.len() as u128;
            bytes = bytes + raw.len() as u128;
            word_sum = word_sum + parts.len() as u128;
            tokens = tokens + ids.len() as u128;
            malformed = malformed + mal as u128;
            if same_text(back.as_str(), norm.as_str()) {
                roundtrips = roundtrips + 1;
            }
        }
        assert(ns.take(count as int) =~= ns);
        CorpusStats {
            texts: count,
            tokens,
            words: word_sum,
            chars,
            bytes,
            malformed,
            roundtrips,
            vocab_size: self.vocab.len(),
            dev_tokens: self.vocab.count_script(Script::DEV),
            lat_tokens: self.vocab.count_script(Script::LAT),
        }
    }

    fn count_malformed(&self, ids: &Vec<usize>) -> (n: usize)
        ensures
            n == ids@.filter(|id: usize| self.vocab@.script_of(id) == Script::MAL).len(),
    {
        let mut n: usize = 0;
        let ghost pick = |id: usize| self.vocab@.script_of(id) == Script::MAL;
        proof {
            reveal(Seq::filter);
        }
        for i in 0..ids.len()
            invariant
                pick == (|id: usize| self.vocab@.script_of(id) == Script::MAL),
                n == ids@.take(i as int).filter(pick).len(),
                n <= i,
        {
            proof {
                reveal(Seq::filter);
                assert(ids@.take(i + 1).drop_last() =~= ids@.take(i as int));
            }
            if self.vocab.get_script(ids[i]) == Script::MAL {
                n = n + 1;
            }
        }
        assert(ids@.take(ids@.len() as int) =~= ids@);
        n
    }
}

} // verus!
