use alloy_sol_types::{sol_data, SolType};
use ownable_std::{
    decode_abi_for, ensure_owner, require_event_type, require_ownable_event_type, source_matches,
    OwnableEvent, OwnableEventError, OwnableEventSource, OwnableInfo, PublicEvent, PublicEventError,
};

type ConsumeEvent = (sol_data::Uint<32>, sol_data::Bool);

fn decode_consume(data: &[u8]) -> Result<(u32, bool), PublicEventError> {
    <ConsumeEvent as SolType>::abi_decode(data, true)
        .map_err(|err| PublicEventError::AbiDecode(err.to_string()))
}

fn public_event(event_type: &str, data: Vec<u8>) -> PublicEvent {
    PublicEvent {
        source: "0xabc".to_string(),
        event_type: event_type.to_string(),
        data,
        block_number: 0,
        transaction_hash: Vec::new(),
        transaction_index: 0,
        log_index: 0,
    }
}

fn ownable_event(event_type: &str) -> OwnableEvent {
    OwnableEvent {
        source: OwnableEventSource {
            id: "ownable-123".to_string(),
            owner: "owner-1".to_string(),
            issuer: "issuer-1".to_string(),
        },
        event_type: event_type.to_string(),
        attributes: serde_json::Value::Object(serde_json::Map::new()),
    }
}

#[test]
fn register_require_event_type_accepts_matching_type() {
    let event = public_event("consume", Vec::new());
    assert_eq!(require_event_type(&event, "consume"), Ok(()));
}

#[test]
fn register_require_event_type_rejects_wrong_type() {
    let event = public_event("redeem", Vec::new());
    assert_eq!(
        require_event_type(&event, "consume"),
        Err(PublicEventError::UnexpectedEventType {
            expected: "consume",
            actual: "redeem".to_string(),
        })
    );
}

#[test]
fn external_event_require_event_type_accepts_matching_type() {
    let event = public_event("consume", Vec::new());
    assert_eq!(ownable_std::external_event::require_event_type(&event, "consume"), Ok(()));
}

#[test]
fn external_event_require_event_type_rejects_wrong_type() {
    let event = public_event("redeem", Vec::new());
    assert_eq!(
        ownable_std::external_event::require_event_type(&event, "consume"),
        Err(PublicEventError::UnexpectedEventType {
            expected: "consume",
            actual: "redeem".to_string(),
        })
    );
}

#[test]
fn register_decode_abi_for_checks_event_type_before_decoding() {
    let event = public_event("redeem", vec![0x00, 0x01]);
    let err = decode_abi_for(&event, "consume", decode_consume).expect_err("must reject wrong event type");
    assert_eq!(
        err,
        PublicEventError::UnexpectedEventType {
            expected: "consume",
            actual: "redeem".to_string(),
        }
    );
}

#[test]
fn external_event_decode_abi_for_checks_event_type_before_decoding() {
    let event = public_event("redeem", vec![0x00, 0x01]);
    let mut decoded = false;
    let err = ownable_std::external_event::decode_abi_for(&event, "consume", |data: &[u8]| {
        decoded = true;
        decode_consume(data)
    })
    .expect_err("must reject wrong event type");
    assert!(!decoded);
    assert_eq!(
        err,
        PublicEventError::UnexpectedEventType {
            expected: "consume",
            actual: "redeem".to_string(),
        }
    );
}

#[test]
fn decode_abi_for_decodes_matching_event() {
    let data = <ConsumeEvent as SolType>::abi_encode(&(123u32, true));
    let event = public_event("consume", data);
    assert_eq!(decode_abi_for(&event, "consume", decode_consume), Ok((123, true)));
    let broken = public_event("consume", vec![0x01, 0x02]);
    assert!(matches!(
        decode_abi_for(&broken, "consume", decode_consume),
        Err(PublicEventError::AbiDecode(_))
    ));
}

#[test]
fn ingest_require_ownable_event_type_accepts_matching_type() {
    let event = ownable_event("consume");
    assert_eq!(require_ownable_event_type(&event, "consume"), Ok(()));
}

#[test]
fn ingest_require_ownable_event_type_rejects_wrong_type() {
    let event = ownable_event("redeem");
    assert_eq!(
        require_ownable_event_type(&event, "consume"),
        Err(OwnableEventError::UnexpectedEventType {
            expected: "consume",
            actual: "redeem".to_string(),
        })
    );
}

#[test]
fn external_event_require_ownable_event_type_accepts_matching_type() {
    let event = ownable_event("consume");
    assert_eq!(ownable_std::external_event::require_ownable_event_type(&event, "consume"), Ok(()));
}

#[test]
fn external_event_require_ownable_event_type_rejects_wrong_type() {
    let event = ownable_event("redeem");
    assert_eq!(
        ownable_std::external_event::require_ownable_event_type(&event, "consume"),
        Err(OwnableEventError::UnexpectedEventType {
            expected: "consume",
            actual: "redeem".to_string(),
        })
    );
}

#[test]
fn ingest_source_matches_checks_all_identity_fields() {
    let event = ownable_event("consume");
    assert!(source_matches(&event, "ownable-123", "owner-1", "issuer-1"));
    assert!(!source_matches(&event, "ownable-123", "owner-2", "issuer-1"));
}

#[test]
fn external_event_source_matches_checks_all_identity_fields() {
    let event = ownable_event("consume");
    assert!(ownable_std::external_event::source_matches(&event, "ownable-123", "owner-1", "issuer-1"));
    assert!(!ownable_std::external_event::source_matches(&event, "ownable-123", "owner-2", "issuer-1"));
    assert!(!source_matches(&event, "ownable-124", "owner-1", "issuer-1"));
    assert!(!source_matches(&event, "ownable-123", "owner-1", "issuer-2"));
}

#[test]
fn error_messages() {
    let public = PublicEventError::UnexpectedEventType { expected: "consume", actual: "redeem".to_string() };
    assert_eq!(public.message(), "unexpected public event type: expected 'consume', got 'redeem'");
    let decode = PublicEventError::AbiDecode("bad".to_string());
    assert_eq!(decode.message(), "failed to decode ABI payload: bad");
    let ownable = OwnableEventError::UnexpectedEventType { expected: "consume", actual: "redeem".to_string() };
    assert_eq!(ownable.message(), "unexpected ownable event type: expected 'consume', got 'redeem'");
}

#[derive(Debug, PartialEq)]
enum TestError {
    Unauthorized(&'static str),
}

#[test]
fn ensure_owner_accepts_owner_addr() {
    let owner = "owner".to_string();
    let sender = "owner".to_string();
    let result = ensure_owner(&owner, &sender, || TestError::Unauthorized("forbidden"));
    assert_eq!(result, Ok(()));
}

#[test]
fn ensure_owner_rejects_non_owner_addr() {
    let owner = "owner".to_string();
    let sender = "not-owner".to_string();
    let result = ensure_owner(&owner, &sender, || TestError::Unauthorized("forbidden"));
    assert_eq!(result, Err(TestError::Unauthorized("forbidden")));
}

#[test]
fn ensure_owner_accepts_owner_struct() {
    let ownable_info = OwnableInfo {
        owner: "owner".to_string(),
        issuer: "issuer".to_string(),
        ownable_type: Some("basic".to_string()),
    };
    let sender = "owner".to_string();
    let result = ensure_owner(&ownable_info, &sender, || TestError::Unauthorized("forbidden"));
    assert_eq!(result, Ok(()));
}

#[test]
fn ensure_owner_rejects_issuer_of_owner_struct() {
    let ownable_info = OwnableInfo {
        owner: "owner".to_string(),
        issuer: "issuer".to_string(),
        ownable_type: None,
    };
    let sender = "issuer".to_string();
    let result = ensure_owner(&ownable_info, &sender, || TestError::Unauthorized("forbidden"));
    assert_eq!(result, Err(TestError::Unauthorized("forbidden")));
}
