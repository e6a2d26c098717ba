# toakue

Builds the Toaq dictionary (`toakue`) from the entries of Toadua and the tags
of Toakao, orders it the way Toaq speakers look words up, drops duplicate
entries, and suggests missing metadata (frames, distributions, pronouns,
subjects) for entries that lack it.

The library in `src/` is verified with Verus; each public function states
what it computes in its `requires`/`ensures`:

- `text`, `patterns`: the text operations the rest relies on, and the trusted
  boundary to `unicode-normalization`, `regex` and `String::from_utf8`.
- `letters`: Toaq letters, tones and grapheme segmentation.
- `collation`, `order_laws`: the dictionary order and the proof that it is a
  total preorder.
- `toadua`, `readable`, `toakao`: entries, their warnings and dates, their
  readable form, and Toakao's tags.
- `dedup`: preparing, sorting and de-duplicating Toadua's entries.
- `data`, `tone_sort`: tone keys of headwords and the dictionary ordered by
  them.
- `guess_metadata`, `features`, `token_counts`, `heuristics`, `folds`,
  `balance`, `tally`, `numbering`: what metadata guessing learns from and is
  judged by: examples, features, token counts, rule-of-thumb guesses,
  cross-validation folds and their training sets, label numbers, the
  repetition of rare labels, and the counts of agreeing guesses.
- `noto`: the characters, font order and style sheet of the web page.

`app/` holds the program: downloading, JSON, files, the logistic-regression
model with its calibration (floating point), and the font download.
