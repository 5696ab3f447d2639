# blaze

A multi-tenant streaming graph engine, verified with Verus.

Edges arrive on a partitioned, ordered log. Each is visible to every tenant or
to a few of them, and each tenant asks which nodes are connected in its own
view, and for the lowest id of a component. Connectivity is kept in layered
disjoint-set forests: one shared tier and one sparse overlay per tenant, over
immutable sorted runs on disk.

- `src/graph/` holds the forests: union-find, the two tiers, what they answer
  as a function of the edges applied, snapshots, and positions in a stream.
- `src/storage/` holds the on-disk formats with their round trips, routing bases
  read from them, layers resolved as one base, compaction, the catalog of
  snapshots, retention, the Parquet data files, and what a flush decides and
  does.
- `src/ingest/` holds the edge buffer and its rows as Arrow columns, the
  pipeline, the log's framing and the simulator.
- `src/ha/` holds the decisions of the election protocol, `src/api.rs` what
  requests are answered, and `src/config.rs` what settings mean.
- `app/` is the worker around the library: object store, files, HTTP, the
  election loop.

Public proof functions state what holds across functions: that a fold, a merge
or a recovery changes no answer, that what is written is read back, that a
redelivered batch is skipped, and the like.
