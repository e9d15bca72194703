# ownable-std

Shared library for Ownables contracts, written in Verus. Verus proves the
functions under `src/` against their contracts, with these exceptions:

- three small wrappers are trusted, not proved: `push_char` (`String::push`),
  `string_from_utf8` (`String::from_utf8`) and `hex_decode` (`hex::decode`);
  their contracts state what the called function is documented to do;
- `EmptyQuerier::default` has no contract: the querier has no fields, so
  there is nothing to state.

- `src/abi/` — host ABI envelope (`HostAbiError`, `HostAbiResponse`),
  pointer/length packing, input-region checks, and the decisions of request
  dispatch and response encoding (the handler and the encoder are passed in).
- `src/memory_storage.rs` — `MemoryStorage`, an ordered byte-string map kept
  as a sorted vector, with the lexicographic key order and its lemmas.
- `src/storage.rs` — state dumps (`IdbStateDump`, `IdbStorage`) and the
  address conversions of `EmptyApi`. A dump stands for the map its pairs
  describe (the last pair of a key wins), and dumps compare as maps.
- `src/metadata.rs` — package titles, hash-derived colors, NFT metadata.
- `src/ownership.rs`, `src/register.rs`, `src/ingest.rs`,
  `src/external_event.rs`, `src/attachment.rs` — payload types and checks.
- `src/laws.rs` — properties that relate several operations.

`app/` holds what stays outside the proofs: CBOR (de)serialization of the
library's types, wasm memory access and the exported entrypoints, the
CosmWasm `Storage`/`Api`/`Querier` implementations, Solidity ABI decoding,
and the token helpers behind the message-extension macros. Those helpers are
plain functions from token streams to token streams: an attribute macro
needs a crate of its own compiled as a procedural-macro crate, which the
`#[proc_macro_attribute]` entry points would forward to.
