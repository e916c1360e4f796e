# skipper-db

A small row-store database whose core is verified with Verus: a SQL lexer
and recursive-descent parser, a planner, query evaluation, and the binary
formats of records, slotted pages, table metadata and a B+Tree index.

## Layout

    src/                 the verified library
      parser/            lexer, AST, parser (each rule has a spec function),
                         and the proof that parse errors point into the input
      query/             planner, logical and physical plans, evaluation of
                         filter / sort / projection / limit over rows
      storage/           file header, record codec, slotted pages, table
                         metadata pages, B+Tree nodes and the tree itself
                         over the pages of an index file
      catalog/           table schemas and their binary form
      cli.rs             command-line values and how results are shown
    app/                 the `db-cli` program: argument parsing, logging and
                         all file I/O, calling the library for every decision
    tests/               tests of the library

## What is proved

The public functions of `src/` state their results in their contracts,
exactly wherever the result depends on the library alone. Planning asks a
`Catalog` for the schema of the named table; what a catalog answers is up
to its implementation, so `plan` is stated as planning against the schema
the catalog answered for that table. Among the laws proved:

- decoding an encoded record, schema, file header, table metadata page or
  B+Tree node gives back what was encoded;
- tokens come in increasing positions and end with `Eof` at the input's end;
  a parse error's position never lies past the input, and its message says
  what was expected and what was found;
- ORDER BY returns its rows sorted and as a permutation of its input, stably;
  WHERE keeps exactly the rows the predicate holds for;
- a slotted page holds, after an insert, the new record in the new slot and
  every earlier record unchanged;
- on a valid B+Tree, `find` returns what the tree maps the key to, and after
  `insert(key, rid)` the tree is still valid, maps `key` to `rid` and every
  other key as before; a split leaves two non-empty halves; the tree grows
  by at most its height plus two pages and one level per insert, and page 0
  always records the root, so the index opens again as it was left.

Page 0 of a table records the magic, version, page size, indexed column
(none for a new table) and the serialized schema. `LENGTH(expr)` counts the
characters of a text and is NULL for anything else.
