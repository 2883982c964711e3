# Swift exits

A verified library for swift-exit requests: a fast withdrawal that validators
back with their supply of the matter token.

- `src/types.rs`: addresses, decimal amounts, signatures, errors, keyed lookups.
- `src/natural.rs`: unbounded natural numbers (bit vectors) for exact decimal arithmetic.
- `src/encoding.rs`: big-endian fixed-width byte encoding and its laws.
- `src/swift_exits/governance_interactor.rs`: validator queries on a snapshot
  of governance, the signer flags over all `u16` ids, and the 16-bit bitmask.
- `src/swift_exits/price_calculator.rs`: the supply amount that backs a request,
  computed exactly on decimals: the integer part in full, the fraction cut
  after 100 significant digits when it does not end sooner.
- `src/swift_exits/swift_exit.rs`: a request built around a withdraw operation.
- `src/models/swift_exit.rs`: the stored request: pricing, signing, encoding, commit.
- `app/lib.rs`: storage and contract calls around the library.
