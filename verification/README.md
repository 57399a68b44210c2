# liteparse

The layout core of LiteParse, written in Verus. The functions under `src/` are verified against
the contracts that stand above them, but for calls that leave the library, whose contracts are
trusted: `encode_png` in `layout_annotate` hands pixels to the PNG encoder of the `image` crate,
and `text` states what `String::push` of the standard library does.

- `float`: single-precision arithmetic on bit patterns, with the rounding of IEEE 754.
- `text`, `pattern`, `sorting`, `permutations`: texts, patterns in texts, stable sorting by keys,
  and what does not depend on the order of a sequence.
- `types`, `config`, `error`: pages, settings and errors.
- `layout`, `layout_merge`, `layout_order`, `layout_annotate`: batches of pages, text items and
  their layout blocks, reading order, and screenshots with blocks drawn on them.
- `markdown_layout`: tables with and without rules, and what layout blocks say about lines.
- `yolo`: labels, the input of the layout model, and the decoding of its output.
- `output`: the JSON and markdown forms of parsed pages.
- `parser`: the steps of parsing a document and what is decided in them.

`app/` holds what surrounds the library: model inference, providers, serialisation, files and the
loop that parses a document. `tests/` holds the tests.
