use vstd::prelude::*;
use vstd::utf8::*;
use vstd::slice::slice_to_vec;
use vstd::string::StringSliceAdditionalSpecFns;
use vstd::string::to_string_from_display_ensures;
use vstd::std_specs::cmp::PartialEqSpecImpl;

use crate::memory_storage::{
    filter_range, insert_all, lemma_filter_range_unbounded, pair_views, pairs_to_map,
    values_nonempty, KeyValue, MemoryStorage, Order,
};

verus! {

/// Serialized contract storage: the key/value pairs that move state between
/// the host and the contract.
///
/// The dump stands for the map its pairs describe: where a key occurs twice,
/// its last pair wins, and two dumps are equal when they describe the same map.
#[derive(Clone, Debug)]
pub struct IdbStateDump {
    pub state_dump: Vec<(Vec<u8>, Vec<u8>)>,
}

impl IdbStateDump {
    /// The pairs of the dump as plain sequences.
    pub open spec fn pairs(&self) -> Seq<KeyValue> {
        pair_views(self.state_dump@)
    }

    /// Generates a state dump from all key-value pairs of a storage, in
    /// ascending key order.
    pub fn from(store: MemoryStorage) -> (dump: IdbStateDump)
        requires
            store.wf(),
        ensures
            dump.pairs() == store.entries(),
            pairs_to_map(dump.pairs()) == store@,
    {
        let state = store.range(None, None, Order::Ascending);
        proof {
            lemma_filter_range_unbounded(store.entries());
        }
        IdbStateDump { state_dump: state }
    }

    /// The value the dump holds for `key`: that of its last pair with this key,
    /// which is the one loading keeps.
    pub fn get(&self, key: &[u8]) -> (r: Option<&Vec<u8>>)
        ensures
            match r {
                Some(v) => pairs_to_map(self.pairs()).contains_key(key@) && v@ == pairs_to_map(self.pairs())[key@],
                None => !pairs_to_map(self.pairs()).contains_key(key@),
            },
    {
        let ghost s = self.pairs();
        let mut i: usize = self.state_dump.len();
        while i > 0
            invariant
                i <= self.state_dump@.len(),
                s == self.pairs(),
                forall|j: int| i <= j < s.len() ==> (#[trigger] s[j]).0 != key@,
            decreases i,
        {
            let k = &self.state_dump[i - 1].0;
            if let crate::memory_storage::KeyOrder::Equal = crate::memory_storage::key_order(k.as_slice(), key) {
                proof {
                    crate::memory_storage::lemma_insert_all_last(Map::empty(), s, i - 1);
                }
                return Some(&self.state_dump[i - 1].1);
            }
            i = i - 1;
        }
        proof {
            crate::memory_storage::lemma_insert_all_contains(Map::empty(), s, key@);
            if crate::memory_storage::has_key(s, key@) {
                let j = choose|j: int| 0 <= j < s.len() && #[trigger] s[j].0 == key@;
                assert(s[j].0 != key@);
            }
        }
        None
    }
}

impl IdbStateDump {
    /// Every key of this dump's map is a key of `other`'s map, with the same value.
    fn agrees_with(&self, other: &IdbStateDump) -> (r: bool)
        ensures
            r <==> forall|k: Seq<u8>| #[trigger] pairs_to_map(self.pairs()).contains_key(k)
                ==> pairs_to_map(other.pairs()).contains_key(k)
                    && pairs_to_map(other.pairs())[k] == pairs_to_map(self.pairs())[k],
    {
        let ghost s = self.pairs();
        let ghost a = pairs_to_map(self.pairs());
        let ghost b = pairs_to_map(other.pairs());
        let mut i: usize = 0;
        while i < self.state_dump.len()
            invariant
                i <= self.state_dump@.len(),
                s == self.pairs(),
                a == pairs_to_map(s),
                b == pairs_to_map(other.pairs()),
                forall|j: int| 0 <= j < i ==> #[trigger] b.contains_key(s[j].0) && b[s[j].0] == a[s[j].0],
            decreases self.state_dump@.len() - i,
        {
            let k = self.state_dump[i].0.as_slice();
            assert(k@ == s[i as int].0);
            proof {
                crate::memory_storage::lemma_insert_all_contains(Map::empty(), s, k@);
                assert(s[i as int].0 == k@);
            }
            let mine = self.get(k);
            let theirs = other.get(k);
            match (mine, theirs) {
                (Some(x), Some(y)) => {
                    if let crate::memory_storage::KeyOrder::Equal = crate::memory_storage::key_order(x.as_slice(), y.as_slice()) {
                    } else {
                        return false;
                    }
                },
                _ => {
                    return false;
                },
            }
            i = i + 1;
        }
        proof {
            assert forall|k: Seq<u8>| #[trigger] a.contains_key(k) implies b.contains_key(k) && b[k] == a[k] by {
                crate::memory_storage::lemma_insert_all_contains(Map::empty(), s, k);
                let j = choose|j: int| 0 <= j < s.len() && #[trigger] s[j].0 == k;
                assert(b.contains_key(s[j].0));
            }
        }
        true
    }
}

impl PartialEq for IdbStateDump {
    fn eq(&self, other: &Self) -> (r: bool) {
        let r = self.agrees_with(other) && other.agrees_with(self);
        proof {
            let a = pairs_to_map(self.pairs());
            let b = pairs_to_map(other.pairs());
            if r {
                assert(a =~= b);
            }
            if a == b {
                assert(forall|k: Seq<u8>| #[trigger] a.contains_key(k) ==> b.contains_key(k) && b[k] == a[k]);
            }
        }
        r
    }
}

impl PartialEqSpecImpl for IdbStateDump {
    open spec fn obeys_eq_spec() -> bool {
        true
    }

    open spec fn eq_spec(&self, other: &IdbStateDump) -> bool {
        pairs_to_map(self.pairs()) == pairs_to_map(other.pairs())
    }
}

/// Contract storage loaded from a state dump.
pub struct IdbStorage {
    pub storage: MemoryStorage,
}

impl IdbStorage {
    /// Creates a storage populated from a state dump.
    ///
    /// Every value of the dump must be non-empty: storage refuses empty values.
    pub fn load(idb: IdbStateDump) -> (store: Self)
        requires
            values_nonempty(idb.pairs()),
        ensures
            store.storage.wf(),
            store.storage@ == pairs_to_map(idb.pairs()),
    {
        let mut store = IdbStorage { storage: MemoryStorage::new() };
        store.load_to_mem_storage(idb);
        store
    }

    /// Writes every pair of a state dump into the storage, in the dump's order.
    pub fn load_to_mem_storage(&mut self, idb_state: IdbStateDump)
        requires
            old(self).storage.wf(),
            values_nonempty(idb_state.pairs()),
        ensures
            final(self).storage.wf(),
            final(self).storage@ == insert_all(old(self).storage@, idb_state.pairs()),
    {
        let ghost s = idb_state.pairs();
        let ghost start = self.storage@;
        let n = idb_state.state_dump.len();
        let mut i: usize = 0;
        while i < n
            invariant
                n == idb_state.state_dump@.len(),
                s == idb_state.pairs(),
                values_nonempty(s),
                i <= n,
                self.storage.wf(),
                self.storage@ == insert_all(start, s.take(i as int)),
            decreases n - i,
        {
            let pair = &idb_state.state_dump[i];
            assert(s[i as int].1.len() > 0);
            self.storage.set(pair.0.as_slice(), pair.1.as_slice());
            assert(s.take(i + 1).drop_last() =~= s.take(i as int));
            i = i + 1;
        }
        assert(s.take(n as int) =~= s);
    }
}

/// Length of canonical addresses produced by [`EmptyApi`].
pub const CANONICAL_LENGTH: usize = 54;

/// The error of `String::from_utf8`, carried by [`EmptyApiError::InvalidUtf8`].
#[verifier::external_type_specification]
#[verifier::external_body]
pub struct ExFromUtf8Error(std::string::FromUtf8Error);

/// Errors of the address conversions of [`EmptyApi`].
#[derive(Debug, PartialEq, Eq)]
pub enum EmptyApiError {
    HumanAddressTooShort,
    HumanAddressTooLong,
    CanonicalLengthInvalid,
    /// The canonical bytes, without their zero bytes, are not UTF-8; holds
    /// the decoding error.
    InvalidUtf8(std::string::FromUtf8Error),
}

impl EmptyApiError {
    /// The message of an error raised by the conversions themselves.
    pub open spec fn fixed_message(&self) -> Seq<char> {
        match self {
            EmptyApiError::HumanAddressTooShort => "Invalid input: human address too short"@,
            EmptyApiError::HumanAddressTooLong => "Invalid input: human address too long"@,
            EmptyApiError::CanonicalLengthInvalid => "Invalid input: canonical address length not correct"@,
            EmptyApiError::InvalidUtf8(_) => Seq::empty(),
        }
    }

    /// The error's message: a fixed text, or for a decoding error the text
    /// of the decoding error.
    pub fn message(&self) -> (m: String)
        ensures
            match self {
                EmptyApiError::InvalidUtf8(e) => to_string_from_display_ensures::<std::string::FromUtf8Error>(e, m),
                _ => m@ == self.fixed_message(),
            },
    {
        match self {
            EmptyApiError::HumanAddressTooShort => "Invalid input: human address too short".to_owned(),
            EmptyApiError::HumanAddressTooLong => "Invalid input: human address too long".to_owned(),
            EmptyApiError::CanonicalLengthInvalid => "Invalid input: canonical address length not correct".to_owned(),
            EmptyApiError::InvalidUtf8(e) => e.to_string(),
        }
    }
}

/// The bytes of `s` without its zero bytes.
pub open spec fn strip_zero_bytes(s: Seq<u8>) -> Seq<u8>
    decreases s.len(),
{
    if s.len() == 0 {
        s
    } else if s.last() == 0 {
        strip_zero_bytes(s.drop_last())
    } else {
        strip_zero_bytes(s.drop_last()).push(s.last())
    }
}

/// Address handling for off-chain execution: human addresses are padded
/// with zero bytes to a fixed canonical length.
#[derive(Clone, Copy)]
pub struct EmptyApi {
    canonical_length: usize,
}

/// Decodes UTF-8 bytes into a string.
///
/// Calls `String::from_utf8`: it succeeds exactly on valid UTF-8, and then
/// the string holds the decoded characters. What the error holds (the bytes,
/// and where the first bad sequence starts) is not stated.
#[verifier::external_body]
fn string_from_utf8(bytes: Vec<u8>) -> (r: Result<String, std::string::FromUtf8Error>)
    ensures
        r is Ok <==> valid_utf8(bytes@),
        r matches Ok(s) ==> s@ == decode_utf8(bytes@),
{
    String::from_utf8(bytes)
}

impl EmptyApi {
    /// The length of the canonical addresses this API produces.
    pub closed spec fn spec_canonical_length(&self) -> usize {
        self.canonical_length
    }

    /// The canonical form of a human address, or why it has none.
    pub open spec fn canonicalize_spec(&self, human: Seq<char>) -> Result<Seq<u8>, EmptyApiError> {
        let bytes = encode_utf8(human);
        if bytes.len() < 3 {
            Err(EmptyApiError::HumanAddressTooShort)
        } else if bytes.len() > self.spec_canonical_length() {
            Err(EmptyApiError::HumanAddressTooLong)
        } else {
            Ok(bytes + Seq::new((self.spec_canonical_length() - bytes.len()) as nat, |i: int| 0u8))
        }
    }

    /// Converts a human address into its canonical form: its UTF-8 bytes,
    /// padded with zero bytes to the canonical length.
    pub fn addr_canonicalize(&self, human: &str) -> (r: Result<Vec<u8>, EmptyApiError>)
        ensures
            match r {
                Ok(v) => self.canonicalize_spec(human@) == Ok::<Seq<u8>, EmptyApiError>(v@),
                Err(e) => self.canonicalize_spec(human@) == Err::<Seq<u8>, EmptyApiError>(e),
            },
    {
        let human_bytes = human.as_bytes();
        let len = human_bytes.len();
        assert(human_bytes@ == encode_utf8(human@));
        if len < 3 {
            return Err(EmptyApiError::HumanAddressTooShort);
        }
        if len > self.canonical_length {
            return Err(EmptyApiError::HumanAddressTooLong);
        }
        let mut out = slice_to_vec(human_bytes);
        let ghost bytes = out@;
        while out.len() < self.canonical_length
            invariant
                bytes == encode_utf8(human@),
                bytes.len() <= out@.len() <= self.canonical_length,
                out@ =~= bytes + Seq::new((out@.len() - bytes.len()) as nat, |i: int| 0u8),
            decreases self.canonical_length - out@.len(),
        {
            out.push(0u8);
        }
        Ok(out)
    }

    /// Converts a canonical address back into a human address: the canonical
    /// bytes without zero bytes, decoded as UTF-8.
    pub fn addr_humanize(&self, canonical: &[u8]) -> (r: Result<String, EmptyApiError>)
        ensures
            canonical@.len() != self.spec_canonical_length() ==> r == Err::<String, EmptyApiError>(EmptyApiError::CanonicalLengthInvalid),
            canonical@.len() == self.spec_canonical_length() ==> match r {
                Ok(s) => valid_utf8(strip_zero_bytes(canonical@)) && s@ == decode_utf8(strip_zero_bytes(canonical@)),
                Err(e) => !valid_utf8(strip_zero_bytes(canonical@)) && e is InvalidUtf8,
            },
    {
        if canonical.len() != self.canonical_length {
            return Err(EmptyApiError::CanonicalLengthInvalid);
        }
        let mut trimmed: Vec<u8> = Vec::new();
        let mut i: usize = 0;
        while i < canonical.len()
            invariant
                i <= canonical@.len(),
                trimmed@ == strip_zero_bytes(canonical@.take(i as int)),
            decreases canonical@.len() - i,
        {
            assert(canonical@.take(i + 1).drop_last() =~= canonical@.take(i as int));
            if canonical[i] != 0 {
                trimmed.push(canonical[i]);
            }
            i = i + 1;
        }
        assert(canonical@.take(i as int) =~= canonical@);
        match string_from_utf8(trimmed) {
            Ok(human) => Ok(human),
            Err(e) => Err(EmptyApiError::InvalidUtf8(e)),
        }
    }

    /// Checks that a human address has a canonical form and returns it
    /// unchanged.
    pub fn addr_validate(&self, human: &str) -> (r: Result<String, EmptyApiError>)
        ensures
            match r {
                Ok(s) => self.canonicalize_spec(human@) is Ok && s@ == human@,
                Err(e) => self.canonicalize_spec(human@) == Err::<Seq<u8>, EmptyApiError>(e),
            },
    {
        match self.addr_canonicalize(human) {
            Ok(_) => Ok(human.to_owned()),
            Err(e) => Err(e),
        }
    }
}

impl Default for EmptyApi {
    fn default() -> (api: Self)
        ensures
            api.spec_canonical_length() == CANONICAL_LENGTH,
    {
        EmptyApi { canonical_length: CANONICAL_LENGTH }
    }
}

/// Querier for off-chain execution; it answers no queries.
pub struct EmptyQuerier {}

impl Default for EmptyQuerier {
    fn default() -> (q: Self) {
        EmptyQuerier {}
    }
}

} // verus!
