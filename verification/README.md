# mimisbrunnr

The core of a tag-based object store, written in Rust and verified with Verus.
Objects carry tags, attributes and relations; an ontology says which tags imply
which; indexes answer queries; pools spread the data over disks.

## Layout

- `src/types` — ids, values, assertions, queries, policies, tag definitions.
- `src/storage` — block devices, block and node headers, checksums, regions.
- `src/ontology` — the implication graph, modules, installation, upgrade,
  removal, policy resolution, and the image that goes to disk.
- `src/meta` — object records, locations, backpointers, and their tables.
- `src/index` — forward, tag, equality, range and chunk indexes with their
  blocks, pages and chains on disk.
- `src/query` — the query language, its evaluation, plans and facets.
- `src/pool` — configuration, disks, the pool's root block, placement.
- `src/ordmap.rs`, `src/sorting.rs`, `src/bytes.rs`, `src/text.rs` — what the
  rest is built on.
- `app` — files, TOML and CBOR around the library; not verified.

## What is proved

Each function states in its contract what it returns or changes. Laws that span
several functions are public proof functions. Among them:

- What is written to a device is read back. Attribute values of a forward index
  come back as zero.
- A module that is removed right after its installation leaves the registry as
  it was. This holds where every implication and relation is listed by an
  installed module, and of a module that stands by itself in any registry.
- A query that is rendered and parsed again is the same query, if its values are
  integers, texts, or floats that are not written like integers, and if the
  resolver gives each tag for its name.
- Keys sort as their values do.

Bitmaps come from the `roaring` crate and graphs from `petgraph`. What is
believed of them stands in `src/index/bitmap.rs` and `src/ontology/graph.rs`;
what is believed of the standard library stands in `src/text.rs` and
`src/query/lexer.rs`.
