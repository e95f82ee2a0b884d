# xmip-core-contract-json-schema

The JSON content contract of `xmip-core-contract`, as a Verus library.

Two claims. Well-formedness is a given: every Stream this contract sees is read
as JSON, and a Stream that is not JSON is one `malformed` issue that says at
which line and column reading stopped. Conformance is a given once a schema is
bound: every JSON document is evaluated against it, and each departure is
reported with the keyword that refused it and the JSON pointer of where it
happened.

Layout:

- `src/contract.rs`: descriptors, errors, issues, results, streams.
- `src/json.rs`: JSON values as the library reads them; equality; compact rendering.
- `src/pointer.rs`: JSON Pointer lookup.
- `src/schema.rs`: the evaluated JSON Schema vocabulary, specified by `evaluate`
  and `halts`, and `check`, proved to report exactly what `evaluate` says;
  `check_within` decides first whether the evaluation finishes within a depth.
- `src/format.rs`: the `format` checks and pattern compilation.
- `src/text.rs`: character-level text operations.
- `src/laws.rs`, `src/locations.rs`: properties proved of every schema and instance,
  among them that every issue points into the document and that a schema whose
  `$ref`s form no cycle finishes.
- `src/lib.rs`: the contract itself (`JsonSchema`, `JsonSchemaFactory`).
- `app/`: reading Streams and schema files with `serde_json` and the file system.
