# evo-script-engine

The semantic core of the Evo script engine, written in Verus: from a parsed
program and the application's catalog of shared types and signatures to the
analysed program. Each step's contract states what a success contains. The
inputs on which a step is owed success, and the failure that a refused
input gets, are stated for the naming and declaration rules, imports,
function headers and local types, and, within a body, for expressions built
from names, literals and operators, for calls, constructions and `when`s
whose parts are such expressions (their failures where the parts are names
and literals), and for `let` statements of names and literals.
Beyond these the contracts say what a success contains but not which failure
is reported; the whole analysis owes success only to programs of functions
that return a parameter or a literal.

## Layout

- `src/` — the verified library.
  - `lexical`, `ast`, `semantic`, `compiled`, `failures`, `vm`: the data the
    engine passes around — source spans, syntax trees, the analysed program,
    compiled code, failures, and the values of a running program.
  - `catalog`: the application's shared types and signatures, each under a
    unique symbol.
  - `text`, `naming`, `literals`, `natives`, `tables`: text helpers, the naming
    rules, literal text (integers, floating literals, string escapes), native
    types and conversions, and name tables.
  - `graph`: reachability and cycle search on directed graphs.
  - `analyzer`, `body`, `calls`, `program`: the analysis — imports and catalog
    materialisation, local types and their containment, function headers and
    signature satisfaction, the typing of bodies, the call graph, and the whole
    run (`program::analyze_program`).
  - `external`: the decisions around an external call made by a running
    program.
- `tests/` — tests of the library on concrete values.
- `app/` — the embedding's side of an external call: capability lookup, value
  conversion and storage, around the library's decisions.
