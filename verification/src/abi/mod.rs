use vstd::prelude::*;
use vstd::string::to_string_from_display_ensures;

use crate::storage::IdbStateDump;

verus! {

/// Version of the host ABI that the exported entrypoints implement.
pub const HOST_ABI_VERSION: &'static str = "1";

/// Manifest field that carries [`HOST_ABI_VERSION`].
pub const HOST_ABI_MANIFEST_FIELD: &'static str = "ownablesAbi";

/// Wire format of requests and response envelopes.
pub const HOST_ABI_WIRE_FORMAT: &'static str = "cbor";

/// Manifest field that carries [`HOST_ABI_WIRE_FORMAT`].
pub const HOST_ABI_WIRE_FORMAT_MANIFEST_FIELD: &'static str = "wireFormat";

/// Error code: null pointer with non-zero length input.
pub const ERR_INVALID_POINTER: &'static str = "INVALID_POINTER";

/// Error code: request bytes failed CBOR parsing.
pub const ERR_INVALID_CBOR: &'static str = "INVALID_CBOR";

/// Error code: envelope serialization failed.
pub const ERR_SERIALIZATION_FAILED: &'static str = "SERIALIZATION_FAILED";

/// Error code: the contract handler panicked.
pub const ERR_HANDLER_PANIC: &'static str = "HANDLER_PANIC";

/// Message of the error for a null pointer with non-zero length.
pub const MSG_NULL_POINTER: &'static str = "received null pointer for non-empty input";

/// Message of the error for a panicking handler.
pub const MSG_HANDLER_PANICKED: &'static str = "handler panicked";

/// Error object returned by the host ABI envelope.
#[derive(Clone, Debug, PartialEq, Eq)]
pub struct HostAbiError {
    pub code: Option<String>,
    pub message: String,
}

/// The view of an optional string.
pub open spec fn opt_string_view(s: Option<String>) -> Option<Seq<char>> {
    match s {
        Some(t) => Some(t@),
        None => None,
    }
}

impl HostAbiError {
    /// The error has code `code` and message `message`.
    pub open spec fn has(&self, code: Option<Seq<char>>, message: Seq<char>) -> bool {
        opt_string_view(self.code) == code && self.message@ == message
    }

    /// Creates an error without a machine-readable code.
    pub fn new(message: &str) -> (e: Self)
        ensures
            e.has(None, message@),
    {
        HostAbiError { code: None, message: message.to_owned() }
    }

    /// Creates an error with both code and message.
    pub fn with_code(code: &str, message: &str) -> (e: Self)
        ensures
            e.has(Some(code@), message@),
    {
        HostAbiError { code: Some(code.to_owned()), message: message.to_owned() }
    }

    /// Creates an error, without code, whose message is the displayed value.
    pub fn from_display<T: core::fmt::Display>(err: T) -> (e: Self)
        ensures
            e.code is None,
            to_string_from_display_ensures::<T>(&err, e.message),
    {
        HostAbiError { code: None, message: err.to_string() }
    }
}

impl From<String> for HostAbiError {
    fn from(value: String) -> (e: Self) {
        HostAbiError { code: None, message: value }
    }
}

impl vstd::std_specs::convert::FromSpecImpl<String> for HostAbiError {
    open spec fn obeys_from_spec() -> bool {
        true
    }

    open spec fn from_spec(value: String) -> Self {
        HostAbiError { code: None, message: value }
    }
}

impl From<&str> for HostAbiError {
    fn from(value: &str) -> (e: Self)
        ensures
            e.has(None, value@),
    {
        HostAbiError::new(value)
    }
}

/// A fresh `String` holds the characters of `value` but is not a value that
/// a spec function can name, so the generic contract of `from` is not claimed
/// for `&str`; the impl's own `ensures` says what it returns.
impl vstd::std_specs::convert::FromSpecImpl<&str> for HostAbiError {
    open spec fn obeys_from_spec() -> bool {
        false
    }

    open spec fn from_spec(value: &str) -> Self {
        choose|e: HostAbiError| e.has(None, value@)
    }
}

/// Top-level response envelope used by host ABI exports.
#[derive(Clone, Debug, PartialEq, Eq)]
pub struct HostAbiResponse {
    pub success: bool,
    pub payload: Vec<u8>,
    pub error_code: Option<String>,
    pub error_message: Option<String>,
}

impl HostAbiResponse {
    /// A successful envelope carrying `payload`.
    pub open spec fn is_ok_with(&self, payload: Seq<u8>) -> bool {
        &&& self.success
        &&& self.payload@ == payload
        &&& self.error_code is None
        &&& self.error_message is None
    }

    /// A failed envelope reporting `error`, with an empty payload.
    pub open spec fn is_err_with(&self, error: HostAbiError) -> bool {
        &&& !self.success
        &&& self.payload@.len() == 0
        &&& self.error_code == error.code
        &&& self.error_message == Some(error.message)
    }

    /// A failed envelope with an empty payload, error code `code` and message
    /// `message`.
    pub open spec fn reports(&self, code: Seq<char>, message: Seq<char>) -> bool {
        &&& !self.success
        &&& self.payload@.len() == 0
        &&& opt_string_view(self.error_code) == Some(code)
        &&& opt_string_view(self.error_message) == Some(message)
    }

    /// Builds a successful response with encoded payload bytes.
    pub fn ok(payload: Vec<u8>) -> (r: Self)
        ensures
            r.is_ok_with(payload@),
    {
        HostAbiResponse { success: true, payload, error_code: None, error_message: None }
    }

    /// Builds an error response from an error.
    pub fn err(error: HostAbiError) -> (r: Self)
        ensures
            r.is_err_with(error),
    {
        HostAbiResponse {
            success: false,
            payload: Vec::new(),
            error_code: error.code,
            error_message: Some(error.message),
        }
    }
}

/// The packed form of a pointer/length pair: length in the high 32 bits,
/// pointer in the low 32 bits.
pub open spec fn packed(ptr: u32, len: u32) -> int {
    len * 0x1_0000_0000 + ptr
}

/// The pointer (low 32 bits) and length (high 32 bits) of a packed pair.
pub open spec fn unpacked(packed: u64) -> (int, int) {
    (packed as int % 0x1_0000_0000, packed as int / 0x1_0000_0000)
}

/// Packs `(ptr, len)` into a single `u64` where the high 32 bits hold length.
pub fn pack_ptr_len(ptr: u32, len: u32) -> (p: u64)
    ensures
        p == packed(ptr, len),
{
    let p = ((len as u64) << 32u64) | (ptr as u64);
    assert(((len as u64) << 32u64) | (ptr as u64) == len as u64 * 0x1_0000_0000u64 + ptr as u64)
        by (bit_vector);
    p
}

/// Unpacks a pointer/length pair produced by [`pack_ptr_len`].
pub fn unpack_ptr_len(packed: u64) -> (pair: (u32, u32))
    ensures
        (pair.0 as int, pair.1 as int) == unpacked(packed),
{
    let ptr = packed as u32;
    let len = (packed >> 32u64) as u32;
    assert(packed as u32 == packed % 0x1_0000_0000 && (packed >> 32u64) as u32 == packed / 0x1_0000_0000)
        by (bit_vector);
    (ptr, len)
}

/// Decides what to do with an input region `(ptr, len)` handed over by the
/// host: `Ok(false)` when it is empty (nothing to read), `Ok(true)` when its
/// `len` bytes are to be read at `ptr`, and an `INVALID_POINTER` error for a
/// null pointer with non-zero length.
pub fn check_input_region(ptr: u32, len: u32) -> (r: Result<bool, HostAbiError>)
    ensures
        len == 0 ==> r == Ok::<bool, HostAbiError>(false),
        len != 0 && ptr != 0 ==> r == Ok::<bool, HostAbiError>(true),
        len != 0 && ptr == 0 ==> (r matches Err(e) && e.has(Some(ERR_INVALID_POINTER@), MSG_NULL_POINTER@)),
{
    if len == 0 {
        return Ok(false);
    }
    if ptr == 0 {
        return Err(HostAbiError::with_code(ERR_INVALID_POINTER, MSG_NULL_POINTER));
    }
    Ok(true)
}

/// How a contract handler ended.
pub enum HandlerOutcome {
    /// The handler returned: output bytes, or its error.
    Returned(Result<Vec<u8>, HostAbiError>),
    /// The handler panicked.
    Panicked,
}

/// `r` is the envelope that answers handler outcome `o`.
pub open spec fn responds_to(r: HostAbiResponse, o: HandlerOutcome) -> bool {
    match o {
        HandlerOutcome::Returned(Ok(payload)) => r.is_ok_with(payload@),
        HandlerOutcome::Returned(Err(e)) => r.is_err_with(e),
        HandlerOutcome::Panicked => r.reports(ERR_HANDLER_PANIC@, MSG_HANDLER_PANICKED@),
    }
}

/// Converts handler output (or failure) into [`HostAbiResponse`].
///
/// When the input could not be read, its error is answered and the handler
/// is not run. Otherwise the handler runs on the input and its outcome is
/// answered: its payload, its error, or a `HANDLER_PANIC` error.
pub fn dispatch_response<F: FnOnce(&Vec<u8>) -> HandlerOutcome>(
    input: Result<Vec<u8>, HostAbiError>,
    handler: F,
) -> (r: HostAbiResponse)
    requires
        input matches Ok(bytes) ==> handler.requires((&bytes,)),
    ensures
        match input {
            Ok(bytes) => exists|o: HandlerOutcome| handler.ensures((&bytes,), o) && responds_to(r, o),
            Err(e) => r.is_err_with(e),
        },
{
    match input {
        Ok(bytes) => {
            let outcome = handler(&bytes);
            let ghost o = outcome;
            let r = match outcome {
                HandlerOutcome::Returned(Ok(payload)) => HostAbiResponse::ok(payload),
                HandlerOutcome::Returned(Err(error)) => HostAbiResponse::err(error),
                HandlerOutcome::Panicked => HostAbiResponse::err(
                    HostAbiError::with_code(ERR_HANDLER_PANIC, MSG_HANDLER_PANICKED),
                ),
            };
            assert(handler.ensures((&bytes,), o) && responds_to(r, o));
            r
        },
        Err(error) => HostAbiResponse::err(error),
    }
}

/// `f` is the envelope sent when serializing a response failed with `e`.
pub open spec fn is_serialization_fallback(f: HostAbiResponse, e: HostAbiError) -> bool {
    &&& !f.success
    &&& f.payload@.len() == 0
    &&& opt_string_view(f.error_code) == Some(ERR_SERIALIZATION_FAILED@)
    &&& f.error_message == Some(e.message)
}

/// Serializes a response with `encode`. When that fails, a
/// `SERIALIZATION_FAILED` error envelope carrying the failure's message is
/// serialized instead, and when that fails too the output is empty.
pub fn encode_response<F: Fn(&HostAbiResponse) -> Result<Vec<u8>, HostAbiError>>(
    response: &HostAbiResponse,
    encode: F,
) -> (bytes: Vec<u8>)
    requires
        forall|r: &HostAbiResponse| encode.requires((r,)),
    ensures
        exists|first: Result<Vec<u8>, HostAbiError>|
            #![trigger encode.ensures((response,), first)]
            encode.ensures((response,), first) && match first {
                Ok(encoded) => bytes@ == encoded@,
                Err(e) => exists|fallback: HostAbiResponse, second: Result<Vec<u8>, HostAbiError>|
                    #![trigger encode.ensures((&fallback,), second)]
                    is_serialization_fallback(fallback, e) && encode.ensures((&fallback,), second)
                        && match second {
                        Ok(encoded) => bytes@ == encoded@,
                        Err(_) => bytes@.len() == 0,
                    },
            },
{
    let first = encode(response);
    match first {
        Ok(encoded) => encoded,
        Err(error) => {
            let fallback = HostAbiResponse::err(
                HostAbiError { code: Some(ERR_SERIALIZATION_FAILED.to_owned()), message: error.message },
            );
            let second = encode(&fallback);
            match second {
                Ok(encoded) => encoded,
                Err(_) => Vec::new(),
            }
        },
    }
}

/// A single key-value attribute from a contract response.
#[derive(Clone, Debug, PartialEq, Eq)]
pub struct AbiAttribute {
    pub key: String,
    pub value: String,
}

/// An event emitted by a contract response.
#[derive(Clone, Debug, PartialEq, Eq)]
pub struct AbiEvent {
    pub kind: String,
    pub attributes: Vec<AbiAttribute>,
}

/// Representation of a contract execute/instantiate/external event response:
/// only the attributes and events that the host needs.
#[derive(Clone, Debug, PartialEq, Eq)]
pub struct AbiResponse {
    pub attributes: Vec<AbiAttribute>,
    pub events: Vec<AbiEvent>,
}

/// The inner payload returned by every ABI handler: the raw result bytes and,
/// for state-mutating calls, the storage after the call.
#[derive(Clone, Debug)]
pub struct AbiResultPayload {
    pub result: Vec<u8>,
    pub mem: Option<IdbStateDump>,
}

} // verus!
