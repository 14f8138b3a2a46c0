# spdk

Silent payments (BIP-352) in version 2 partially signed transactions (BIP-375), with contracts that
Verus proves.

- `src/psbt.rs`, `src/bip375/`: the transaction, its silent payment fields, the eligibility and the
  keys of inputs, and the sums of their ECDH shares.
- `src/roles/`: the constructor, the signer, and the finalizers of output scripts and of input
  witnesses.
- `src/hash.rs`, `src/sending.rs`, `src/receiving.rs`: the tagged hashes, the keys that a sender
  derives for its recipients, and why the receiver finds them.
- `src/wallet/`: the choice of the outputs to spend, and the partial secret of a spend.
- `src/secp.rs`, `src/key_map.rs`, `src/address_map.rs`, `src/collected.rs`, `src/bytes.rs`,
  `src/script.rs`, `src/text.rs`: keys and scalars, maps, byte strings and texts.
- `app/`: ordinary Rust around the library. It reads and writes `psbt_v2` transactions, signs, runs
  the checks of DLEQ proofs, and displays errors.

The curve operations, SHA-256, the coin selection and the shuffling of outputs are those of the
crates `secp256k1`, `bitcoin_hashes`, `bdk_coin_select` and `rand`. What is taken from them on trust
is stated at the functions that call them.
