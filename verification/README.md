# compress-estimate

Estimate how well a file or a stream compresses with zstd, level by level,
without compressing it: the source is sampled, zstd's parse is replayed on the
samples, the parse is priced with an RFC 8878 cost model, and the result is
calibrated against a small span that is really compressed.

`src/` is the library, verified with Verus. `app/` is the command-line program
around it: input and output, threads, and everything in floating point.

## Layout

| Module | What it holds |
|---|---|
| `stats` | byte histograms |
| `sampler` | the random numbers, stratified plans, covering plans, rounds of reads, the reservoir |
| `source` | seekable sources and positioned reads |
| `estimator` | settings, the survey of a source, what is retained of a stream |
| `assemble` | grouping of samples by stratum, the merged histogram |
| `report` | verdicts, data classes, the best value, sizes and budgets as text |
| `backends::zstd::levels` | the parameters of each level and its strategy family |
| `backends::zstd::words`, `codes`, `tables` | hashing, match lengths, length and offset codes, match tables |
| `backends::zstd::parse`, `decode`, `totals` | what a parse is, how a decoder reads it back, what its statistics add up to |
| `backends::zstd::fast`, `dfast`, `lazy`, `lzparse` | the parse loops |
| `backends::zstd::huffman`, `cost` | code lengths and the price of literals |
| `backends::zstd::anchor` | real compression of a span, and the correction per level |

## What is proved

* A replayed parse is the one that its loop's specification gives, decodes back
  to the chunk, and reaches no further back than the window.
* The statistics of a parse cover the chunk exactly, block by block, and count no
  byte as a literal more often than it occurs.
* The depths of a Huffman tree make a complete prefix code, and code lengths
  respect their limit.
* Every level has exactly one correction, which only anchors of its own strategy
  family decide.
* A plan covers the source, every read lies in its stratum, and the chunks that
  its budget allows take no more bytes than the budget. The probe takes one chunk
  per stratum whatever the budget; the rounds after it never pass the budget.
* What a stream leaves behind does not depend on how it was fed, and a reservoir
  keeps no offer twice.

The zstd library itself is trusted: one function calls it, in
`backends::zstd::anchor`.

## Debugging

`CE_TRACE=1` prints every replayed sequence, `CE_DEBUG_ANCHOR=1` what each anchor
level measured.
