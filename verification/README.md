# pds

Persistent data structures with structural sharing, verified with Verus.

- `src/` is the library. Every function states in its contract what it returns or
  changes, and Verus proves it.
- `tests/` runs the library on concrete values.
- `app/` holds what surrounds the library: shared cells, parallel iterators,
  macros, printing, and traits of other crates.

## Where things stand

| Modules | What they hold |
|---|---|
| `bits`, `sparse`, `node`, `entries`, `trie`, `champ` | the hash trie and a map on it |
| `canonical`, `shape`, `equal_nodes`, `structure` | how tries with the same keys compare |
| `hash_key`, `plain`, `random_state`, `identity_hasher`, `hash_width` | hashing of keys |
| `hash_map*`, `entry`, `iter`, `iter_mut`, `map_iters`, `diff` | hash maps |
| `hash_set*` | hash sets |
| `bag`, `bimap`, `hash_multimap*` | multisets, bijections, multimaps |
| `ord_tree`, `insertion_order_*` | collections in order of insertion |
| `fingerprint`, `content_hash` | fingerprints and hashes of collections |
| `intern*` | pools that let equal nodes share memory |
| `parallel*` | operations that divide their work among threads |
| `record`, `digest`, `persistent_map`, `merkle_wrapper` | content addresses and proofs of inclusion |
| `operators` | `+` and `*` on collections |
| `laws` | laws that relate several operations |

## What is taken on trust

A few short functions call other code and carry contracts that are believed:
`shared` (pointers of `std::sync::Arc`), `bits` (`u32::count_ones`), `random_state`
(SipHash and random keys of `std`), `parallel` (`rayon::join`), `record`
(`postcard`), `digest` (`blake3` and sorting) and `intern` (reference counts). The
comment above each says what is claimed.
