# kaze

A verified library for hardware module graphs and the compiler that lowers their signals to
the code of a cycle simulator.

* `context`: the owner of a module graph while it is being built; `arena` holds what is
  taken on trust of `typed_arena`.
* `graph`: modules, signals and instances, which refer to one another by position, and when
  a graph is well formed.
* `compiler`: `gather_regs` gives names to the registers that a signal depends on,
  `compile_signal` lowers a signal to an expression and to assignments to temporaries.
* `check`: tests to make before a search and before a signal is compiled, for callers that are
  not verified.
* `il`: the expressions and assignments that come out.
* `stack`, `scoped_map`, `name`: instance stacks, tables keyed by them, generated names.
* `lowering`: what the compiler makes of a signal, stated as a function.
* `semantics`: what signals and expressions are worth.
* `growth`, `search`, `bounds`, `reads`, `faithful`, `laws`, `words`: what holds of compiling
  and of the search for registers, with proofs. Above all, compiled code computes the design.

`app/` holds entry points that panic where a design is at fault.
