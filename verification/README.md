# hi_sparse_bitset

Hierarchical sparse bitset, verified with Verus.

A `BitSet` holds indices below 262 144 in three levels of 64-bit masks: one
root mask, level-1 blocks and data blocks. A raised bit of a hierarchy mask
points to a block of the next level; only blocks with data are allocated, so
memory follows the number of indices, not their values. Operations between
bitsets (`apply`, `reduce`, and the `&`, `|`, `^` operators) are lazy bitsets
whose masks are computed from their operands' masks.

## Layout

- `src/` — the library. Every function states its behaviour in `requires` /
  `ensures` over mathematical models (`Set<int>` for the indices of a bitset,
  `Seq<u8>` for its binary form), and Verus proves it.
  - `bitset.rs` — the container: insert, remove, contains, unite, intersect,
    block insertion, and its memory laws.
  - `bitset_interface.rs`, `internals.rs`, `apply.rs`, `reduce.rs`, `ops.rs`,
    `binary_op.rs`, `operators.rs` —
    the mask interface shared by all bitsets, lazy operations and their laws.
  - `bitset_ranges.rs` — a bitset filled and cleared in whole index ranges.
  - `immutable_bitset.rs` — a bitset in a linear, serialized-like layout.
  - `iter.rs` — block and index iterators, cursors, the ordering laws of
    iteration and the resume laws.
  - `ordered.rs` — the ascending enumeration of a finite set of indices, the
    order in which the iterators return them.
  - `serialization.rs` — the binary format, its writer and reader, and the
    round-trip law.
  - `bit_utils.rs`, `bit_queue.rs`, `bit_block.rs`, `data_block.rs`,
    `block.rs`, `level.rs`, `primitive.rs`, `cache.rs` — bit manipulation and
    building blocks.
- `tests/` — tests on concrete values.
- `app/` — `std::io` streams, serde and `Debug` around the library.
