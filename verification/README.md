# i3s-schema

Parses the [Esri i3s-spec](https://github.com/Esri/i3s-spec) markdown
documentation into draft-07 JSON Schema files, and checks the spec's JSON
examples against them. The library is written in Verus: the functions of
`src/` carry contracts that the verifier proves, except five small wrappers
around `std` and the regex crates (Unicode lower-casing, `Debug` quoting,
`String::push`, and the `\w` and `\d` classes), whose contracts are
trusted.

## Layout

```text
src/
  text.rs       characters and strings: white space, trimming, splitting,
                case-insensitive matching, decimal text
  markdown.rs   the markdown grammar of the spec: HTML tags, enumeration
                lists, deprecation notes, headings, the properties table,
                the JSON examples
  parse.rs      the types read from one markdown file (TypeEntry and its
                properties, types and examples)
  catalog.rs    which directories and files of a spec checkout are read, in
                which order, and how the types are gathered (newest version
                first; the first definition of each type wins)
  smap.rs       sorted (key, value) sequences standing for ordered maps
  json.rs       the JSON value model and its compact text
  schema.rs     the schema document of each type, with relative `$ref`s
  layout.rs     the schema tree on disk and the stale-file check
  validate.rs   the validator for the draft-07 subset the schemas use
app/main.rs     the command line: reading and writing files, serde_json
tests/          tests of the library
```

## Usage

```sh
cargo run -- schema            # regenerate schema/ from spec/docs
cargo run -- schema --check    # exit non-zero if schema/ is stale
cargo run -- validate          # check spec example blocks against schemas
```

Defaults: `--spec-dir spec` (its `docs/` subdirectory is used when there is
one) and `--out schema`.
