# ouro

A front end for the Ouro language, with its contracts and proofs checked by Verus.

- `tokenize`: splits source text into tokens (a function on characters with a grammar in its
  specification), and records where each token ends.
- `span`: spans of source text in bytes, characters or UTF-16 code units.
- `parse`, `parse_node`, `pprint`: a parser producing a flat list of nodes, and its tree printer.
- `parse_types`, `resolve`: nodes as name resolution reads them, and the resolver that links
  each use of a name to its definition or to where its scope opened.
- `token_sum_tree`: maps between tokens and (row, column) positions, over a sum tree of chunks.
- `sea`: the Sea front end: a parser that records subtree sizes, its tree printer, a two-pass
  name resolver, and the start of an evaluator.
- `analysis`: what the language server knows of one document (its Ouro parse, and the Ouro
  resolution of the whole file), and the lookup behind go-to-definition.
- `index`, `intern`, `text`: index types, name interning, and string building.

`app/` is the language server built on the library: it reads requests, keeps an analysis of
each open document, and answers hover and go-to-definition requests from it.
