# Zero

Fraud scoring by vector search, with the core verified in Verus. Each transaction
is reduced to a vector of fourteen features. The service finds the five reference
vectors nearest to it in an inverted-file index of `i16` vectors, and answers with
`fraud_score = count / 5`, where `count` is how many of the five are fraudulent.

## Layout

`src/` is the verified library.

| Module | What it holds |
| --- | --- |
| `format`, `image`, `encode` | the bytes of an index: constants, sections, what each byte says, writing numbers |
| `ivf`, `built` | building an index, and what holds of one that was built |
| `nearest`, `sort` | distances, the slots of a search, order by distance |
| `search`, `scalar`, `wide` | the index in memory, and search one vector or eight lanes at a time |
| `exact`, `exact_wide`, `agree`, `score_range` | when a search is exact, when both ways to search agree, when it can be done, and how great a result can be |
| `binary`, `quant` | single-precision arithmetic on integers, and the scale of features |
| `ascii`, `fields`, `normalize`, `members` | reading a transaction, its features, and that its members can stand in any order |
| `http`, `conn`, `table` | requests and responses, connections, the descriptors of a worker |
| `ring`, `sending`, `balance` | completions of a ring, partial sends, handing clients to workers |
| `kmeans`, `references`, `input` | the integer side of clustering, the reference set |
| `json`, `gate`, `tune` | test data, and how scores agree with expected ones |

`app/` is the program around it: sockets, rings, files, and the floating-point
side of clustering. `tests/` runs the library.

## What is proved

- A built index holds every vector it was built from, with its label, exactly
  once, and every search of it can be done.
- A search whose result lies in the range of repair finds the labels of the five
  nearest vectors, whatever number of clusters it probes; one that probes every
  cluster finds them whatever its result. For lanes side by side this holds where
  no sum or difference wraps around, as none does among features.
- Both ways to search give the same result where no two vectors are equally far
  from the query and every sum of labels calls for a repair.
- Every feature is the exact result of its formula, rounded to single precision
  after each operation and then quantized.
- Quantizing gives the nearest number on the scale, and keeps signs apart and
  features in order.
- The order of the members of a document does not change its vector.
- Where labels are zero or one, a score is a count out of five.
- A request ends as soon as it can be told, and every response says how long its
  body is.
- Replies do not depend on how the bytes of requests are cut into pieces.
- Days follow the calendar, and weekdays follow the days.

Functions that check nothing at run time say in `requires` what they need; those
that a program calls with data from outside, such as `Index::from_bytes`,
`Index::try_search`, `normalize`, `parse` and `Table::serve`, need nothing of it.

## Trusted

`flate2` decompresses the reference set (`input`), and `serde_json` reads test
data (`json`). What is believed of them stands beside the calls.

## Use

```sh
zero convert data/references.json.gz index.bin
zero gate index.bin test/test-data.json
zero worker
zero lb
```
