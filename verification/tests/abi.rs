use ownable_std::abi::{
    check_input_region, dispatch_response, encode_response, pack_ptr_len, unpack_ptr_len,
    HandlerOutcome, HostAbiError, HostAbiResponse, ERR_HANDLER_PANIC, ERR_INVALID_POINTER,
    ERR_SERIALIZATION_FAILED,
};

#[test]
fn pack_unpack_round_trip() {
    let packed = pack_ptr_len(42, 128);
    assert_eq!(unpack_ptr_len(packed), (42, 128));
}

#[test]
fn pack_puts_length_in_high_bits() {
    assert_eq!(pack_ptr_len(1, 2), 0x0000_0002_0000_0001);
    assert_eq!(pack_ptr_len(u32::MAX, u32::MAX), u64::MAX);
    assert_eq!(unpack_ptr_len(0x0000_0005_0000_0007), (7, 5));
    assert_eq!(pack_ptr_len(0, 0), 0);
}

#[test]
fn pack_after_unpack_restores_value() {
    let x = 0x1234_5678_9abc_def0u64;
    let (ptr, len) = unpack_ptr_len(x);
    assert_eq!(pack_ptr_len(ptr, len), x);
}

#[test]
fn dispatch_converts_panic_into_structured_error() {
    let response = dispatch_response(Ok(Vec::new()), |_: &Vec<u8>| HandlerOutcome::Panicked);
    assert!(!response.success);
    assert_eq!(response.error_code.as_deref(), Some(ERR_HANDLER_PANIC));
    assert_eq!(response.error_message.as_deref(), Some("handler panicked"));
}

#[test]
fn dispatch_passes_handler_payload_through() {
    let response = dispatch_response(Ok(vec![1, 2, 3]), |input: &Vec<u8>| {
        HandlerOutcome::Returned(Ok(input.iter().rev().cloned().collect()))
    });
    assert!(response.success);
    assert_eq!(response.payload, vec![3, 2, 1]);
    assert_eq!(response.error_code, None);
    assert_eq!(response.error_message, None);
}

#[test]
fn dispatch_reports_handler_error() {
    let response = dispatch_response(Ok(Vec::new()), |_: &Vec<u8>| {
        HandlerOutcome::Returned(Err(HostAbiError::with_code("E", "failed")))
    });
    assert!(!response.success);
    assert!(response.payload.is_empty());
    assert_eq!(response.error_code.as_deref(), Some("E"));
    assert_eq!(response.error_message.as_deref(), Some("failed"));
}

#[test]
fn dispatch_does_not_run_handler_on_unreadable_input() {
    let mut ran = false;
    let response = dispatch_response(Err(HostAbiError::new("bad input")), |_: &Vec<u8>| {
        ran = true;
        HandlerOutcome::Panicked
    });
    assert!(!ran);
    assert!(!response.success);
    assert_eq!(response.error_code, None);
    assert_eq!(response.error_message.as_deref(), Some("bad input"));
}

#[test]
fn input_region_rules() {
    assert_eq!(check_input_region(0, 0), Ok(false));
    assert_eq!(check_input_region(16, 0), Ok(false));
    assert_eq!(check_input_region(16, 4), Ok(true));
    let err = check_input_region(0, 4).expect_err("null pointer");
    assert_eq!(err.code.as_deref(), Some(ERR_INVALID_POINTER));
    assert_eq!(err.message, "received null pointer for non-empty input");
}

#[test]
fn error_constructors() {
    let plain = HostAbiError::new("boom");
    assert_eq!(plain.code, None);
    assert_eq!(plain.message, "boom");
    let coded = HostAbiError::with_code("CODE", "msg");
    assert_eq!(coded.code.as_deref(), Some("CODE"));
    assert_eq!(coded.message, "msg");
    let shown = HostAbiError::from_display(42u32);
    assert_eq!(shown.code, None);
    assert_eq!(shown.message, "42");
    let converted: HostAbiError = String::from("text").into();
    assert_eq!(converted, HostAbiError::new("text"));
}

#[test]
fn response_constructors() {
    let ok = HostAbiResponse::ok(vec![9]);
    assert!(ok.success);
    assert_eq!(ok.payload, vec![9]);
    let err = HostAbiResponse::err("boom".into());
    assert!(!err.success);
    assert!(err.payload.is_empty());
    assert_eq!(err.error_code, None);
    assert_eq!(err.error_message.as_deref(), Some("boom"));
    assert_eq!(HostAbiError::from("boom"), HostAbiError::new("boom"));
    assert_eq!(HostAbiError::from("boom".to_string()), HostAbiError::new("boom"));
}

#[test]
fn encode_response_uses_encoder_output() {
    let response = HostAbiResponse::ok(vec![7]);
    let bytes = encode_response(&response, |r: &HostAbiResponse| Ok(r.payload.clone()));
    assert_eq!(bytes, vec![7]);
}

#[test]
fn encode_response_falls_back_to_serialization_error() {
    let response = HostAbiResponse::ok(vec![7]);
    let bytes = encode_response(&response, |r: &HostAbiResponse| {
        if r.success {
            Err(HostAbiError::new("cannot encode"))
        } else {
            let mut out = r.error_code.clone().unwrap_or_default().into_bytes();
            out.push(b':');
            out.extend(r.error_message.clone().unwrap_or_default().into_bytes());
            Ok(out)
        }
    });
    assert_eq!(bytes, format!("{}:cannot encode", ERR_SERIALIZATION_FAILED).into_bytes());
}

#[test]
fn encode_response_is_empty_when_fallback_fails_too() {
    let response = HostAbiResponse::ok(vec![7]);
    let bytes = encode_response(&response, |_: &HostAbiResponse| Err(HostAbiError::new("no")));
    assert!(bytes.is_empty());
}
