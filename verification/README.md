# mork_helper

Helper functions for MORK expressions, verified with Verus.

An expression is a byte string in prefix order: a tag byte for each new variable,
variable reference, symbol (followed by its bytes) or tuple (followed by its elements).
`src/expr.rs` gives this encoding a model (a sequence of items, and a balance count
that says when items form whole expressions) and proves its laws; the other modules
work on that model:

- `src/normalize.rs`: renumbering variables in the order they occur (`freshen_pattern`);
- `src/vars.rs`: `is_var`, `is_exp`, `vars_to_indices` and `indices_to_vars`, which write
  variables as `(var i)` markers and back;
- `src/partition.rs`: the set partitions of the elements of a tuple (`partitions`);
- `src/arith.rs`: `factorial` and `falling_factorial` on `i64`, with the laws that tie
  them to each other and to binomial coefficients.

`app/lib.rs` registers the functions with the MORK evaluator: it reads each call from
the evaluator's expression source, passes the argument's bytes to the library and
writes the result to the sink.
