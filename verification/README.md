# deser-yaml

Reading and writing YAML, verified with Verus.

The library turns YAML text into data events (atoms and the starts and ends
of mappings and sequences) and writes data events as block style YAML.

## Layout

- `src/` is the verified library.
  - `scanner.rs`, `parser.rs`: text to tokens to YAML events.
  - `resolve.rs`: what plain and tagged scalars stand for under YAML 1.2
    (core schema) and YAML 1.1: nulls, booleans, integers, floats,
    timestamps, binary.
  - `de.rs`: documents to data events, with anchors, aliases, merge keys
    and limits; `io.rs` splits a stream into documents as its input
    arrives.
  - `quote.rs`, `emit.rs`, `ser.rs`: writing scalars, tags and documents.
  - `encoding.rs`: base64, hex and base32 for bytes in text formats.
  - `layer.rs`, `fields.rs`, `state.rs`, `style.rs`, `tag.rs`,
    `recording.rs`: the limits layer, lexical atoms and duplicate keys,
    event data (tags and style hints) and recorded values.
  - `suite.rs`: the event format of the YAML test suite.
- `tests/`: the tests.
- `app/`: reading from `std::io` readers, writing to writers, and
  floating point numbers, around the library.

Contracts state results over spec functions (for instance
`resolve::plain_result`, `quote::double_quoted_body`,
`encoding::base64_text`); proof functions named `lemma_*` with public
visibility state laws, such as that encoded bytes decode back
(`encoding::lemma_base64_roundtrip`) and that strings written by the
emitter read back as themselves (`emit::lemma_string_form_reads_back`).
