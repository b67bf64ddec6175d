# drust_apps

Two key-value benchmarks for a distributed heap, with their logic verified in Verus.

- `feedgen` fills one table from a key trace with a single bulk write and then reads it from every
  server.
- `feedgen_rw` fills a table with one lock per bucket and then mixes reads and writes.

Both spread the keys of the trace over servers and threads by bucket, and both walk a small graph
after every 32nd operation.

## Layout

- `src/conf.rs`: the shape of a deployment, the placement of keys, and which thread owns a bucket
- `src/entry.rs`: table entries
- `src/dataset.rs`: the key trace and its partitions
- `src/graph.rs`: the graph and the walks over it
- `src/random.rs`: seeded random numbers
- `src/schedule.rs`: the tasks of a run
- `src/feedgen/`: table operations and the read-only benchmark
- `src/feedgen_rw/`: accesses under locks and the mixed benchmark
- `src/socialnet_stub/`: the image type of an application that is not part of this build
- `app/`: file access, timing, and the drivers on top of a distributed runtime

Functions whose names start with `law_` state what holds across several operations: that a filled
table reads the stored value for every thread, that tasks share the trace without overlap, that the
graph is one cycle, and so on.

The number of buckets, the server and thread counts and the hash of a key come from `Conf`. The
hash may be any function that gives each key one bucket.
