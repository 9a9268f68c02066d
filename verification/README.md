# sqry_build

The graph-building passes of a source-code indexer, written and proved in Verus.

A build parses every file into a staging graph, commits the staging graphs into one
code graph, and then runs passes that add what no single file can know.

* `parallel_commit`: planning, committing a chunk of staging graphs in parallel,
  renaming strings, unifying nodes that several files define, and inserting edges.
* `pass3_intra`, `pass4_cross`: references inside a file and between files.
* `pass5_cross_language`: foreign-function calls and HTTP requests.
* `pass5b_c_indirect`: calls through function pointers in C.
* `pass_go_method_set`: method promotion through embedding, implicit interface
  satisfaction and function types in Go.
* `phase4e_binding`: scopes, aliases and shadowed names.

`graph` holds the code graph; `arena`, `strings`, `files`, `indices`, `edges`,
`metadata`, `hints`, `c_indirect` and `bind` hold its parts. Each type has a view, and
the contracts are stated over those views. Proof functions whose names start with
`law_` state what holds of several functions together.

Not proved: that rayon's `into_par_iter().map(..).collect()` calls the function on each
item in order (`parallel`), what `String::push` does (`text`), and the clock (`clock`).

`app/` runs the passes and writes to the log.
