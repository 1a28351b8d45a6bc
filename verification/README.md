# quadtree_rs

A point/region quadtree with support for overlapping regions, written in Verus and verified.

A `Quadtree<U, V>` of depth `d` covers a square of side `2^d` anchored anywhere in the plane;
coordinates are any integer type that implements `coord::Coord` (`i8` to `i128`, `u8` to `u128`,
`isize` and `usize`).
Each stored region is associated with a value under a handle (a random version 4 UUID, as a
`u128`). The handle is filed at the topmost nodes of the tree that the region wholly covers
(at the bottom level, at the unit cells it touches), nodes being split into four subquadrants on
demand, so that a query need only search the nodes that meet it.

Layout of `src/`:

- `coord.rs`: the `Coord` trait (the integers a coordinate stands for, exact arithmetic) and
  saturating addition and subtraction; `text.rs`: coordinates in decimal and handles in the
  usual form of UUIDs, for the text renderings of points, regions and nodes.
- `point.rs`, `area.rs`, `builder.rs`, `geometry.rs`: points, rectangular areas with the
  intersection and containment tests, and the validating `AreaBuilder`.
- `qtinner.rs`: the nodes of the tree; insertion of a handle, removal of a handle, and the
  pruned search for the handles that may meet a query region.
- `uuid_iter.rs`: a depth-first walk that yields every handle of the tree once.
- `qtree.rs`: the `Quadtree` itself; `iter.rs`: what it hands out; `entry.rs`,
  `traversal.rs`: stored entries and the two ways a query selects them.
- `types.rs`: the `EntryStore` trait for the map that keeps a tree's entries by handle, with
  verified implementations for `HashMap` (`HashQuadtree`, the default) and `BTreeMap`
  (`BQuadtree`).

What is proved, in short: every operation keeps the tree well formed (the nodes keep exactly the
stored handles); inserting a region files its handle exactly at the topmost nodes that the region
wholly covers (at the bottom level, at the unit cells it touches), splits exactly the nodes on the
way down to them and leaves every other node as it was: no node keeping a fresh handle lies
below another that keeps it, and together they cover exactly the cells of the region that lie
inside the tree; a search
returns exactly the handles kept at the nodes reached from the top through nodes that meet the
query region, which include every handle whose region meets it; a query lists, once each, exactly
the stored entries that its region selects; insertion, deletion, modification and reset change
the stored entries exactly as their contracts say; the walk over all handles yields each of them
once and always knows how many are left, and draining it, or an iterator over the entries, or a
query, gives each handle or selected entry exactly once; removing a handle keeps the shape of the
tree; every handle drawn has the version and variant bits of a version 4 UUID.
