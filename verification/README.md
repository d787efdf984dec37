# lifeline

Lifetime inference for the functions of an LLVM module (LLVM 14, typed
pointers). Every level of indirection of every value gets a lifetime; loads,
stores and bitcasts relate these lifetimes by outlives constraints and
equalities; at the end of a function the strongly connected components of the
outlives graph are unified and the function gets a signature such as
`('a, 'b)`: for each parameter, the lifetimes of its pointer levels.

## Layout

- `src/` is the library, verified with Verus:
  - `ir.rs`: the part of an LLVM module that the analysis reads, as plain
    values (names, types, operands, instructions, blocks, functions).
  - `dsu.rs`: a union-find structure with its parent-map model and laws.
  - `graph.rs`: the outlives graph, a `petgraph` stable graph reached through
    trusted wrappers.
  - `lifetimes.rs`: lifetimes, signatures and their text, and the context
    that registers locations and collects constraints, with its laws.
  - `framework.rs`: function passes and what running one means.
  - `analysis.rs`: the transfer function of each instruction and the analysis
    of a whole module.
  - `support.rs`: `analyse_module`, which analyses a module or says that the
    analysis stops on it (exactly where it stops), and a check that needs no
    run: its shape part refuses exactly what the analysis stops on, and its
    size bound is sufficient only.
  - `results.rs`: the text of a module's signatures.
  - `text.rs`, `utilities.rs`: numerals, labels and small helpers.
- `tests/`: tests of the library on concrete values.
- `app/`: the command-line program. It reads a bitcode file with `llvm-ir`,
  converts the module into the library's values, and prints the signatures.

Usage: `lifeline compiled.bc`.
