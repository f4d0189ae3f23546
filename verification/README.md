# bril_forge

Optimization passes over [Bril](https://capra.cs.cornell.edu/bril/) programs,
written in Verus: every pass states in its contract what it does to a program,
and Verus proves the code against it.

## Layout

- `src/ast.rs`: the program representation, the instruction queries the
  passes use, and basic-block construction (`Function::get_basic_blocks`),
  specified as the unique cut of a body into blocks plus the control-flow
  edges between them.
- `src/dom.rs`: depth-first post order, and dominator sets as the greatest
  solution of the dominator equations.
- `src/passes/`:
  - `example.rs`: the trivial passes;
  - `dce.rs`: naive dead-code elimination and local dead-store elimination;
  - `const_prop.rs`: global constant propagation and folding with a work list,
    with a model of running the blocks under which each fold gives what the
    folded instruction computes;
  - `live.rs`: strong liveness (the least solution of the liveness
    equations) and the global dead-code elimination it drives;
  - `loops.rs`: back edges, pre-header insertion, loop discovery, and
    loop-invariant code motion into the pre-headers;
  - `lvn.rs`: local value numbering;
  - `pointer_analysis.rs`: a points-to graph and the dead-store elimination
    it allows;
  - `name_map.rs`: a small name-to-index map used by the scans.
- `app/`: the command-line driver: reads a program as JSON on standard input,
  runs the passes named on the command line, and writes JSON back.
- `tests/`: tests on concrete programs.

## Numbers

Constants keep the form they were written in (`Literal`). Folded
floating-point results are kept as the operations to perform
(`FloatAdd`, `FloatMul`), and the driver evaluates them in double precision
when it writes the program out; integer folding wraps around at 64 bits.
