# dinotree_alg

A 2d broad-phase collision library, verified with Verus. The tree is a kd tree whose nodes keep
the elements that cross their divider, sorted along the other axis, so that collisions are found
by a sweep inside each node and between a node and its descendants.

Layout of `src/`:

- `geom`, `bbox`: ranges, rectangles, points and the elements of the tree.
- `tree`, `analyze`: building the tree (`DinoTree`, `NotSorted`, `DinoTreeBuilder`) and its
  invariant; tree height and node counts.
- `oned`, `colfind`: the sweep and the collision walk; the naive and sweep-only searches.
- `rect`, `multirect`, `intersect_with`: rectangle queries, multi-rectangle sessions, pairs with
  elements kept outside the tree.
- `knearest`, `for_every_nearest`, `raycast`, `nbody`, `find`, `graphics`, `collect`: the other
  queries.
- `laws`: properties relating the operations, stated and proved once for all inputs.
- `ext`: the calls into std and into the `compt` and `pdqselect` crates, with the contracts Verus
  takes on trust.

`app/` holds what runs on threads (rayon) and the conversions to and from `axgeom`'s types.
