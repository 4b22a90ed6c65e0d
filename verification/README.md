# placard

Renders small HTML/CSS documents (badges, status cards) to PNG or lossless
WebP, and serves them over HTTP from base64url-encoded payloads.

The library under `src/` is verified with Verus: every function states its
behaviour in `requires`/`ensures` and is proved to meet it.

- `html`: the tokenizer (exact: every token and where it ends), the DOM
  arena with its linked child lists, and the tree builder, stated as a
  state machine over the input (`html::tree`): the tree's nodes, parents
  and child lists are exactly what it builds.
- `selector`: compound and complex selector matching over the DOM,
  specificity, and the cascade order of the rules that pick an element.
- `style`, `property`, `families`: the computed-style enums and keyword
  tables, which property a declaration sets, font faces from file names,
  and which font families to warn about.
- `layout`: the
  layout tree's handles, the choice and stacking order of out-of-flow boxes.
- `text`, `chars`: words of inline text, Unicode whitespace, ASCII case.
- `canvas`, `png`, `adler32`, `crc32`: the RGBA canvas and a streaming PNG
  encoder proved equal to its whole-buffer definition.
- `webp`: the VP8L encoder: greedy LZ77 tokens that decode back to the
  pixels, Huffman codes built and length-limited exactly as stated, the bit
  writer and the RIFF frame; `webp::readback` proves the encoding lossless
  and deterministic.
- `format`: choosing an image format by extension.
- `http`, `routes`, `net`, `render`, `payload`: request reading as a state
  machine, routing, payload decoding and bounded inflating, which addresses
  a fetch may reach, the memory budget's bookkeeping.

`app/` is the server around it: sockets, threads, files, fonts, and the
floating-point work of computing styles, laying out boxes and painting.
