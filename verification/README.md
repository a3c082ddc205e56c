# irondag

The verified core of a DAG blockchain node: blocks and transactions, their
validation and processing against account state, GhostDAG consensus over a
hybrid block store with checkpoints, gas sponsorship, multi-signature and
social-recovery accounts, and governance upgrades. The functions in `src/`
are proved by Verus against their contracts, except the small trusted
wrappers (marked `external_body`) around Keccak-256, Ed25519, secp256k1
recovery, RLP encoding and `DashMap`, whose contracts are taken as given.

Layout:

- `src/` — the library.
  - `types`, `collections`, `text`: addresses and hashes, small maps and sets
    with views, decimal and hex text.
  - `crypto`, `signature`: Keccak-256, Ed25519 and secp256k1 behind trusted
    wrappers; transaction signatures (Ed25519, ECDSA with EIP-155 RLP signing
    hashes).
  - `block`, `validation`, `error`: blocks, transactions, hashes, the
    stateless and stateful transaction rules, block limits, double-spend
    tracking, error texts.
  - `blockchain`: the chain state (accounts, replay protection, spent
    outputs, sponsors, blocks), adding blocks, and settling the fee and
    receipt of a transaction that an EVM executed.
  - `consensus`: GhostDAG (`mod`), its store (`storage`), checkpoints
    (`checkpoint`), sorting (`sort`) and statistics (`stats`).
  - `database`: the key-value store checkpoints are written to.
  - `gas_sponsorship`, `multisig`, `social_recovery`, `scheduler`, `evm`,
    `chain`, `config`, `path`: the remaining rules.
  - `laws`: properties that relate several operations.
- `tests/` — tests on concrete values.
- `app/` — what the library leaves to its caller: the clock, block encoding
  (bincode), TOML configuration files, file-system path checks, and the
  statistics that end in floating point.
