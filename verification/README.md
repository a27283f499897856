# marf_index

A verified index of authenticated forests: tries of key-value state, one per block, whose nodes
point back into the tries of earlier blocks.

`src/` is the library. Every function in it has a contract, and Verus proves it.

- Values, hashes and identities: `value`, `hash`, `hex`, `path`, `words`.
- Nodes and their encodings: `node`, `leaf`, `bits`, `bitmap`, `slots`, `node_codec`, `patch`,
  `raw_leaf`, `inline_value`, `mapped_node`, `packed_branch`, `branch_view`.
- Records and blobs: `record`, `record_context`, `blob_layout`, `trie_file`, `node_reads`,
  `read_node`, `scratch`, `mapping`.
- Reads: `read_storage` (what a storage backend answers), `cursor`, `marf_read`, `marf_heights`,
  `leaf_walk`, `fork_storage`.
- Proofs of inclusion: `proof_build`, `merkle_proof`, `proof_codec`.
- Writes: `marf`, `marf_extend`, `cow`.
- Direct hashes and ancestry: `ancestry`, `direct_hash_index`, `hash_publication`, `hash_session`,
  `audit`.
- Caches and counters: `cache`, `result_cache`, `key_index`, `counters`.

Laws that relate several functions are public proof functions whose names start with `law_`. Those
on longer proofs stand in `record_laws`, `mapped_laws`, `packed_laws`, `read_laws`, `proof_laws`,
`leaf_laws`, `locality_laws` and `cow_laws`.

What is taken on trust is small: SHA-512/256 (`hash`), the hash map of the result cache
(`key_index`), random generation tokens (`direct_hash_index`), the validity of UTF-8
(`fork_storage`) and the capacity of a list (`scratch`).

`tests/` runs the library on concrete values. `app/` opens files and databases around it.
