# privstrip

Detection of personally identifiable information (PII) in text. A token classifier gives
every token of a text a score for each BIES class; this crate turns the scores into byte
spans of the text, and the spans into reports, JSON and redacted text.

The library under `src/` is written in Verus: what each function does is stated in its
contract and proved. The program under `app/` loads a checkpoint, runs the model with
candle, and reads and prints.

## Library

| Module | What it does |
| --- | --- |
| `labels` | Label sets: the BIES boundary and the span label of every class |
| `score` | The order of scores, decided on their bits |
| `viterbi`, `viterbi_laws` | Decoding of scores under the order of boundaries and biases |
| `spans`, `span_laws`, `overlap_laws` | From labels over token spans to byte spans without overlap |
| `redaction` | Placeholders in place of spans |
| `decoders` | Decoders by operating point |
| `settings` | Tokenizers, read from their JSON, that can encode every text |
| `engine` | Tokenize, score, decode, extract |
| `inspection` | What is shown of every token |
| `json`, `stream` | JSON answers, and the answers to a stream of requests |
| `report` | Lines for a terminal, and the lines of a stream |
| `config`, `weights` | The sizes of a model, and the names and sizes of its tensors |
| `attention` | The slices of a projection, the sliding-window mask, the cache of masks |
| `routing` | The experts a token goes to, and the tokens an expert gets |
| `timing` | Time per stage |
| `text`, `sorting` | Pieces of UTF-8 text, decimal numbers, stable sorting |

A score is the bit pattern of an IEEE 754 binary32 number. Scores are compared on their
bits; where scores are added, the caller hands in the addition, and the contract holds
for whatever that addition computes. Span offsets are byte offsets into the text.

Functions whose names begin with `law_` state what holds across functions: that decoding
never returns a malformed sequence where scores and biases stay within bounds and a
well-formed one can be reached, that it then returns a best one, that it falls back to the
best label of each token where no sequence scores above half the score of a forbidden step,
and not where one does and no sum overflows, that spans lie in the text, in order and apart,
that none is lost where tokens lie in order, that redaction copies no byte of a span and
every other byte of the text, that as many tokens are counted as are classified where the
tokenizer chooses nothing by chance, and that a cached mask is the mask.

A tokenizer is read by `settings::TextTokenizer::read`, which looks at the JSON of every part
before the `tokenizers` crate builds it, and refuses what might fail on some text. It does so
with care rather than precisely: a `Precompiled` normalizer, a BPE model with a prefix for
continuing pieces, and a regular expression with back references, named groups or large
counts are refused whatever else they hold.

## Program

```
privstrip <check|redact|list|debug|stream> [-t TEXT | -f FILE] [-m MODEL_DIR]
          [--decoder viterbi|argmax] [--operating-point NAME] [--metal]
```

`check` prints the places of what it finds to stderr and exits with 1 if there is
anything, `redact` prints the text with placeholders, `list` prints a JSON array, `debug`
prints every token, and `stream` answers JSON lines `{"id":..., "text":...}`.
`PRIVSTRIP_TIMING=1` prints the time per stage at the end of a stream, and
`PRIVSTRIP_DEBUG_TOPK=n` lists the `n` best classes of every token.
