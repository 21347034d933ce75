# graffiti

A small text-retrieval toolkit, verified with Verus.

- `utils`: the positional byte hash (`get_hash_val`) and the table recurrence `levenshtein`.
- `text`: character-level helpers on rule texts: splitting, Unicode trimming, decimal
  byte parsing and UTF-8 encoding.
- `tokenizer`: reading byte-class and transition rule texts, and the table-driven
  tokenizer run.
- `stemmer`, `postagger`: suffix lookup by hash.
- `scanner`, `corpus`: document contents and the words of each document.
- `invertedindex`: postings, frequencies and counts per term hash, and the integer
  scores of a query.

`app/` holds what reads files and directories and the floating-point ranking.
