# simplify_ordering

Order simplification for query plans, verified with Verus.

A plan is an arena of nodes. Between a node and each of its inputs runs an edge that says whether
the consumer may rely on the order of the rows it gets. Cache nodes that share an id stand for one
result: the last of them to be visited has an edge to its input, and the others, which have none,
hand on no order.

The pass starts with every edge ordered, visits the plan from its sinks to its sources and back,
and takes the order away wherever nobody observes it: edges become unordered, `maintain_order`
options are switched off, merges of sorted inputs become unions, and sorts whose order is not
observed are unlinked.

- `src/` is the library. `ir` holds the plan nodes, `traversal` the order of visits, `shape` the
  search that it rests on, `leaders` which cache nodes stand for others, `ir_graph` the edges,
  `rules` what a visit of each kind of node does, `simplify` single visits, `wiring` what holds of
  plan and edges at all times, `pass` the pass as a whole, `admission` whether a plan can be
  simplified, and `laws` what all of this adds up to.
- `app/` runs a pass to its end against an arena of expressions.
- `tests/` runs the library on small plans.

The pass knows nothing of expressions. `OrderingPass::request` says what it wants to know about
them next, and `OrderingPass::resume` takes the answer.
