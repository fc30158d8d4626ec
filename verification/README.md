# fastnoise

A verified planner for graphs of noise nodes. A graph names nodes that move
positions, sample noise at positions, or combine fields; a query asks for a grid
of samples of one of the fields, and the answer is a summary of the samples.

`src/` is the library. Everything in it is checked by Verus:

- `model`, `noise`, `error`, `text`: the data, by its mathematical value. Numbers
  in single precision are held by their bit patterns.
- `state`: the graph and the changes that are made to it.
- `order`, `schedule`, `graph`, `layout`, `compile`, `plan`: from a graph to a
  plan. Nodes run first come, first served, each after what it reads; each writes
  to slots of its own; cycles, unknown names and wrong numbers of inputs are
  refused.
- `payload`, `kernel_payload`, `combine`, `kernel`, `backend`: the kernels of a
  plan, as bytes and as what they do with the buffers of a batch.
- `query`, `walk`, `summary`, `batch`: queries as buffers, the steps of a running
  kernel with its looks for a cancellation, and the summaries.
- `planner`: all of it behind one type.

Functions whose names begin with `law_` state what holds of the library as a
whole.

`app/` evaluates the formulas in floating point, with `fastnoise-lite` as the
noise generator, and runs plans on the buffers of a batch. `tests/` runs the
library on concrete values.
