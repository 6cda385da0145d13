//! Decision logic of the attestation endpoint: which parser family a
//! TEE's quote needs, and what to answer for each collaborator outcome.

use vstd::prelude::*;

verus! {

/// Kinds of trusted execution environment the server may run in.
#[derive(Clone, Copy, PartialEq, Eq, Structural, Debug)]
pub enum TeeKind {
    Sev,
    AzSev,
    Tdx,
    AzTdx,
    Sgx,
}

/// Quote encodings, one per family of parser.
#[derive(Clone, Copy, PartialEq, Eq, Structural, Debug)]
pub enum QuoteFormat {
    Sev,
    Tdx,
    Sgx,
}

/// Why the attestation endpoint could not produce a quote.
#[derive(Clone, Copy, PartialEq, Eq, Structural, Debug)]
pub enum AttestationError {
    /// No trusted execution environment was detected.
    NoTeeDetected,
    /// A TEE was detected but no quote could be acquired.
    QuoteUnavailable,
    /// A quote was acquired but could not be parsed.
    QuoteParseFailed,
}

/// The quote format each kind of TEE produces.
pub open spec fn spec_quote_format(tee: TeeKind) -> QuoteFormat {
    match tee {
        TeeKind::Sev | TeeKind::AzSev => QuoteFormat::Sev,
        TeeKind::Tdx | TeeKind::AzTdx => QuoteFormat::Tdx,
        TeeKind::Sgx => QuoteFormat::Sgx,
    }
}

/// Executable form of [`spec_quote_format`].
pub fn quote_format(tee: TeeKind) -> (f: QuoteFormat)
    ensures
        f == spec_quote_format(tee),
{
    match tee {
        TeeKind::Sev | TeeKind::AzSev => QuoteFormat::Sev,
        TeeKind::Tdx | TeeKind::AzTdx => QuoteFormat::Tdx,
        TeeKind::Sgx => QuoteFormat::Sgx,
    }
}

/// Outcome of the attestation endpoint, decided from what the external
/// collaborators reported: the raw quote is served exactly when a TEE
/// was detected, a quote was acquired, and it parsed; otherwise the
/// first failed step names the error.
pub fn attestation_outcome(tee_detected: bool, quote: Option<Vec<u8>>, parse_ok: bool) -> (r:
    Result<Vec<u8>, AttestationError>)
    ensures
        !tee_detected ==> r == Result::<Vec<u8>, AttestationError>::Err(
            AttestationError::NoTeeDetected,
        ),
        tee_detected && quote is None ==> r == Result::<Vec<u8>, AttestationError>::Err(
            AttestationError::QuoteUnavailable,
        ),
        tee_detected && quote is Some && !parse_ok ==> r == Result::<Vec<u8>, AttestationError>::Err(
            AttestationError::QuoteParseFailed,
        ),
        tee_detected && quote is Some && parse_ok ==> (r matches Ok(b) && b@ == quote.unwrap()@),
    {
    if !tee_detected {
        return Err(AttestationError::NoTeeDetected);
    }
    match quote {
        None => Err(AttestationError::QuoteUnavailable),
        Some(b) => {
            if parse_ok {
                Ok(b)
            } else {
                Err(AttestationError::QuoteParseFailed)
            }
        },
    }
}

/// HTTP status the endpoint answers with: success serves the quote,
/// every failure is reported as service-unavailable rather than
/// tearing the request down.
pub fn attestation_status(r: &Result<Vec<u8>, AttestationError>) -> (code: u16)
    ensures
        r is Ok ==> code == 200,
        r is Err ==> code == 503,
{
    match r {
        Ok(_) => 200,
        Err(_) => 503,
    }
}

} // verus!
