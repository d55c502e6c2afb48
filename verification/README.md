# Himalayan tokenization

A byte-pair tokenizer for Nepali that knows about aksharas, scripts and
paradigms, written in Verus. A text is normalised, marked at word starts, cut
into runs of one script, and each run into units; the longest stretches of whole
units that have a token are taken, and what has none is spelled in bytes.

## Layout

`src/` is the library. Everything in it is verified.

| module | what it holds |
| --- | --- |
| `external` | the calls that are trusted: NFC, lossy UTF-8, two functions of `std` |
| `text`, `pair_map`, `sorting` | characters and strings, a map keyed by pairs, stable sorting |
| `script` | scripts, markers, the byte alphabet |
| `normalize` | folding modes and rules, the normaliser |
| `akshara` | the automaton that cuts Devanagari into aksharas |
| `paradigm`, `vocab` | which root allows which form; tokens and their surfaces |
| `corpus`, `merge_queue`, `trainer`, `training` | pair frequencies, the queue of candidates, the rules of admission and priority, the training loop |
| `encoding`, `tokenizer` | what encoding and decoding mean, and the tokenizer that does them |
| `roundtrip`, `lossless`, `boundaries` | decoding undoes encoding; which vocabularies can spell everything; where tokens end |
| `counting`, `harvest`, `pipeline` | word counts, akshara inventories, training from text |
| `tsv`, `metrics` | vocabularies as lines, the numbers that evaluation is made from |

Contracts speak of models: a vocabulary is a `VocabModel`, a corpus a sequence of
counted words, a run of training the function `Training::trained`. The functions
whose names begin with `law_` state what holds of the library as a whole.

`app/` is the Python module around the library: argument conversion, files,
progress messages and floating point.

`tests/` runs the library on concrete values.

## Numbers

Priors and weights are multiples of 2⁻³², held in `i64`. Of priors only the order and
the proportions count, and the Python module scales them so that the largest takes up
the range. A priority is computed
exactly in integers: the score and the weight times the frequency times 1024,
rounded down, and the largest `u64` where that does not fit. With scores and
weights switched off it is the frequency times 1024. Of two pairs of equal
priority the one with the smaller numbers is merged first.
