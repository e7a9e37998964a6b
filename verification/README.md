# total_order_multi_map (verified)

A multi map that keeps the total order of the inserted key-value pairs:
after inserting `(k1, v1)`, `(k2, v2)`, `(k1, v3)`, iteration gives exactly
this order, while `get(k1)` gives `v1, v3`.

The map holds its pairs in a `Vec` in insertion order and a `HashMap` from
each key to the positions of its pairs. Every operation is proved, with
Verus, to keep that index exact and to do what its contract says over the
model of the map: the sequence of its pairs (`model.rs`).

Layout:

- `src/model.rs`: the spec functions of the model and their lemmas.
- `src/map.rs`: `TotalOrderMultiMap`, `EntryValues` and `EntryValuesMut`.
- `src/index.rs`: the `HashMap` index and the operations that keep it
  in step with the pairs.
- `src/entry.rs`: `Entry`, the place of one key.
- `src/iter.rs`, `src/map_iter.rs`: the iterators (each with a `next`
  method), shared and mutable.
- `src/laws.rs`: properties that relate several operations.
- `src/capacity.rs`: the calls into `Vec` and `HashMap` that are trusted.
- `src/utils.rs`: `DebugIterableOpaque`.
- `app/lib.rs`: the textual `Debug`-style output of a map.

Contracts of operations that look keys up in the `HashMap` assume that the
key type follows vstd's hash table model (`obeys_key_model`: hashing is
deterministic and `==` on keys is the equality of their values), under
which vstd specifies `HashMap`.
