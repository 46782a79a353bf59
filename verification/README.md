# state_root

A verified library for computing a state root in parallel with the execution of a block: it
decides which proofs are needed for a stream of state updates, how many of them are calculated at a
time, in which order they reach the sparse trie, what they change there, and when the calculation
is over.

- `src/` holds the library. Its functions have contracts that Verus proves, but for the wrappers of
  outside functions in `maps`, `evm` and `primitives`: their contracts are believed without proof,
  and a comment above each names the outside function and says what is claimed of it. The laws that
  relate several functions are public proof functions.
  - `evm`, `hashed_state`, `primitives`: from EVM state to hashed state changes
  - `targets`: which accounts and slots are to be proved
  - `manager`: how many calculations run at a time
  - `multiproof`, `update`, `merge`: proofs and state changes, and putting them together
  - `sequencer`: bringing proofs back into order
  - `task`, `message`, `config`: what is done about each message
  - `lifecycle`, `stream`: what holds of a whole run, up to the state that the sparse trie ends in
  - `sparse_trie`: what an update does to the tries, step by step, and when the state root is
    calculated
  - `maps`: the hash maps of `alloy_primitives`
- `app/` runs it: channels, threads, metrics, the database and the sparse trie.
- `tests/` holds the tests.
