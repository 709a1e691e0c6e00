# grix

grep with an index: a trigram index narrows a search to candidate files, and
the real regex then runs over their current content. `src/` is the verified
library, in [Verus](https://github.com/verus-lang/verus); `app/` is the command
around it: arguments, file and network I/O, threads.

## Layout

| module | what it holds |
| --- | --- |
| `varint`, `bytes`, `numbers`, `text`, `order`, `ids` | encodings, texts, sorting, id lists |
| `trigram`, `triset` | trigrams and sets of them |
| `syntax`, `plan` | syntax trees, and the plan: from a regex to a trigram query |
| `index::format`, `image`, `postings`, `writer`, `readback` | the index file: reading, writing, and that the one undoes the other |
| `index::candidates`, `known`, `builder`, `extract`, `pairs`, `reuse`, `merge`, `finish` | building: what to reuse, what to read, the merge |
| `index::exact`, `truth`, `refresh`, `planned`, `noop`, `compaction` | what a build guarantees |
| `search::matcher`, `lines`, `own_lines`, `spans`, `filter`, `view`, `eval`, `select`, `run` | searching |
| `search::agreement`, `freshness`, `unwritten`, `success` | that a search with an index finds what a full scan finds |
| `store`, `watch`, `mcp`, `cli` | index files and markers, the watcher, the server, the command line |

## What is proved

The executable functions have contracts over mathematical models. Called as its
`requires` says, none of them can panic or overflow. The laws that relate
several functions are proof functions named `law_..`. Among them:

- a plan admits every text that the regex matches in
  (`plan::soundness::law_plan_admits_every_match`);
- searching is line by line, but for `-U`: a plain search reports a line exactly
  when it matches by itself (`search::own_lines`);
- what is written to an index is read back, of a dense list its count
  (`index::readback`);
- after a build the index tells the truth about every file
  (`index::refresh::law_build_tells_truth`), an unchanged tree writes nothing
  (`index::noop`), and folding an overlay gives the bytes of a fresh build but
  for the build id, where each dense list that is carried on is dense, with the
  same count, in the fresh build too (`index::compaction`);
- a build leaves the index up to date (`search::freshness`,
  `search::unwritten`), and a search through an up-to-date index succeeds and
  reports exactly the files and lines that a full scan reports
  (`search::agreement`, `search::success`).

What is believed without proof stands in items marked
`#[verifier::external_body]` or `assume_specification`: calls into `regex`,
`regex-syntax`, `memchr`, `ignore` and `serde_json`, and a few of std. The
comment above each says what is claimed.
