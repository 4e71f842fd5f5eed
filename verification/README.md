# tool_versions

A library for reading, editing and writing `.tool-versions` files, the
format used by asdf and compatible version managers, verified with Verus.

```rust
use tool_versions::ToolVersions;

let mut tv = ToolVersions::parse("# pinned\nerlang 27.3.4.6\nruby 3.4.1\n")?;
assert_eq!(tv.get_version("erlang"), Some("27.3.4.6"));
tv.set("nodejs", "24.0.0");
assert_eq!(tv.to_string(), "# pinned\nerlang 27.3.4.6\nruby 3.4.1\nnodejs 24.0.0\n");
```

## Layout

- `src/model.rs`: the mathematical model of a document (its lines and its
  tools), the meaning of reading a text and of each edit, and the text a
  document writes.
- `src/text.rs`: characters, trimming, words and lines, as spec functions
  with the executable scanners proved against them.
- `src/tool_versions.rs`: `ToolEntry` and `ToolVersions`; every public
  method states its result over the model.
- `src/conversions.rs`: documents from and to vectors of pairs, `HashMap`s
  and `BTreeMap`s.
- `src/errors.rs`: the error type and its text.
- `src/laws.rs`: properties that span several operations, proved: what a
  lookup gives after a `set` or a `remove`, that lines and tools stay
  consistent under every edit (so the last `set` wins and a `remove`
  undoes the `set` of a new tool), that a document read from text writes
  out each line in a canonical form, comments included, and reads back the
  same, and how a text made of two texts reads.
- `app/`: loading and saving files, serde forms of the types, and an error
  type with `std::error::Error`.
