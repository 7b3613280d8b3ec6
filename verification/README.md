# whisper_ct2

The logic of Whisper transcription on CTranslate2, verified with Verus: from
raw PCM and load options to transcripts with segment and word times.

- `src/` is the library. Every function carries a contract; properties that
  span functions are public proof functions named `law_...`.
- `app/` is the Elixir NIF around it: the model runtime, mel features in
  floating point, and the terms that cross to Erlang.
- `tests/` run the library on concrete values, with the real tokenizer.

Modules, from the bottom up:

| module | what it holds |
| --- | --- |
| `text`, `errors`, `time` | strings, error chains, exact times |
| `pipeline`, `tokenizer` | the tokenizer boundary: which tokenizers are admitted, text to tokens and back |
| `pcm`, `device`, `options` | decoding samples, load and decoding options |
| `preprocessor`, `batch` | feature configuration, windows of a batch |
| `tokens`, `language` | special tokens, prompts, timestamped pieces, languages |
| `align`, `words`, `timing` | from token alignments to word times |
| `transcribe`, `segments`, `job` | reading what was generated, transcripts, the course of a job |

Times are whole numbers of `1 / (100 * sampling_rate)` seconds, so that
samples, encoder frames and timestamp tokens all fall on exact instants.
Probabilities and scores are carried through as type parameters.
