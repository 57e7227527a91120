# interstellar_db

The anti-entropy core of a persistent 4-D spatio-temporal store, verified with
Verus. Nodes of a leaderless mesh keep point observations under 20-byte keys

```
[ 4B macro epoch ][ 8B 3-D Morton code ][ 8B nanosecond offset in epoch ]
```

and, over those keys, a Merkle octree per epoch. Every node hash is the
exclusive or of the digests (SHA-256 of key and payload, cut to 128 bits) of all
items below it. Comparing two forests finds the leaf cells in which two nodes
disagree; exchanging the rows of those cells makes them agree.

## Layout

| Path     | What it is                                                          |
|----------|---------------------------------------------------------------------|
| `src/`   | The verified library. `src/lib.rs` lists its modules.               |
| `tests/` | Tests of the library, from outside.                                 |
| `app/`   | The network, the clock, the browser: ordinary Rust around `src/`.   |

## What is proved

- The forest is the fold of its items: order- and structure-independent, with
  inserts and removes that undo each other (`laws`).
- Diffing lists exactly the leaf cells that differ all the way up, in order, and
  one differing item yields one leaf whose key range holds it (`diff`,
  `laws_diff`).
- A sealed epoch loads as it was, hash for hash (`seal`, `laws_seal`).
- A pull round fetches exactly the leaves worth fetching, each once, and never
  looks into a subtree that agrees (`round`, `laws_round`).
- Stores that exchange the rows of their divergent leaves converge
  (`laws_converge`, `laws_merge`). So do stores that pull from each other, as
  long as no digests cancel each other out (`laws_pull`).

What is believed and not proved: that `sha2` computes a function of its input,
that `prost` encodes and decodes `Any` messages as `src/payload.rs` says, and
that the standard library sorts.
