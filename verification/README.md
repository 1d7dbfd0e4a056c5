# boolsearch

A Boolean and proximity search engine over a text corpus, built around a positional
inverted index and a query language:

```
quantum AND ("error correction" NEAR/5 surface) NOT class*
```

`src/` is the engine, written and proved in [Verus](https://github.com/verus-lang/verus):

| Module | What it does |
| --- | --- |
| `text`, `whitespace` | characters and their bytes; words between white space |
| `tokenize` | splits text into positioned terms |
| `corpus` | documents, their ids, and the decisions of a JSON Lines reader |
| `index`, `postings`, `dictionary` | the two-pass index build, what an index answers, the term dictionary |
| `agreement` | an index answers as reading every document would |
| `format`, `reading`, `codec`, `ordering` | the index file, written and read |
| `roundtrip` | reading a file gives back what was written |
| `query` | lexes the query language and points at what is wrong with a query |
| `relexing` | lexing queries put together, and lexing again what was lexed |
| `report`, `error` | what is told to a person |

`tests/` runs the engine on concrete values. `app/` is the command line: it opens files,
parses JSON, measures time, and prints.

```
boolsearch index --input arxiv.jsonl --limit 100000
boolsearch search 'quantum AND "error correction"'
boolsearch bench
```

## What is taken on trust

The engine calls a few functions that are not proved here; each stands behind a contract
that says what is believed of it.

- `rustc_hash::FxHashMap`, the term dictionary (`dictionary`).
- `str::to_lowercase`, `char::is_alphanumeric`, `char::is_alphabetic`: Unicode's tables
  (`tokenize`, `text`).
- `String::push`, `std::str::from_utf8`, and `{:?}` on a string (`text`, `codec`, `query`).
- `std::io::Error::from`, for a file in memory that ends too early (`reading`).
