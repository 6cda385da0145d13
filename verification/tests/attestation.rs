use matchbox_server::attestation::{
    attestation_outcome, attestation_status, quote_format, AttestationError, QuoteFormat, TeeKind,
};

#[test]
fn each_tee_kind_has_its_parser_family() {
    assert_eq!(quote_format(TeeKind::Sev), QuoteFormat::Sev);
    assert_eq!(quote_format(TeeKind::AzSev), QuoteFormat::Sev);
    assert_eq!(quote_format(TeeKind::Tdx), QuoteFormat::Tdx);
    assert_eq!(quote_format(TeeKind::AzTdx), QuoteFormat::Tdx);
    assert_eq!(quote_format(TeeKind::Sgx), QuoteFormat::Sgx);
}

#[test]
fn success_serves_the_raw_quote() {
    let quote = vec![1u8, 2, 3];
    let r = attestation_outcome(true, Some(quote.clone()), true);
    assert_eq!(r, Ok(quote));
    assert_eq!(attestation_status(&Ok(vec![1u8, 2, 3])), 200);
}

#[test]
fn missing_tee_is_reported_not_fatal() {
    let r = attestation_outcome(false, None, false);
    assert_eq!(r, Err(AttestationError::NoTeeDetected));
    assert_eq!(attestation_status(&r), 503);
    // even a quote in hand does not matter when no TEE was detected
    let r = attestation_outcome(false, Some(vec![9u8]), true);
    assert_eq!(r, Err(AttestationError::NoTeeDetected));
}

#[test]
fn missing_quote_is_reported() {
    let r = attestation_outcome(true, None, true);
    assert_eq!(r, Err(AttestationError::QuoteUnavailable));
    assert_eq!(attestation_status(&r), 503);
}

#[test]
fn unparsable_quote_is_reported() {
    let r = attestation_outcome(true, Some(vec![0u8; 4]), false);
    assert_eq!(r, Err(AttestationError::QuoteParseFailed));
    assert_eq!(attestation_status(&r), 503);
}
