# kfnetlist

Netlists of photonic layouts: instances, the nets between them and ports, with
the cell name and placement of each instance. A netlist is flattened by
replacing instances with the contents of their own cell's netlist.

- `src/` is the library, verified with Verus.
  - `name_map`, `names`, `seqs`, `sorting`, `union_find`, `duplicate`: tables by
    name, name order, sorting and disjoint sets.
  - `instance`, `net`, `netlist`, `placement`, `placed`, `wire`: netlists with
    and without placements, and their written form.
  - `flatten_model`: what flattening means. `flatten`, `inline`, `rewire`,
    `wiring`: how it is done.
  - `turn`: rotations by multiples of 90 degrees.
  - `net_laws`, `flatten_laws`, `connection_laws`, `level_laws`,
    `result_laws`, `placed_laws`: what holds over several operations.
- `tests/` runs the library on examples.
- `app/` is the Python extension module. It holds the floating point: an
  inlined instance carries the placements that lead to it, and the module
  composes them.
