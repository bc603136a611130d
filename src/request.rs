//! How a failed request stage becomes an HTTP status.
use vstd::prelude::*;
use crate::cache::FetchError;
use crate::codec::SpecDecodeError;
use crate::engine::EngineError;
use crate::codec::{all_ascii, all_ascii_exec, ascii_bytes, pct_decode, pct_decoded, pct_well_formed, pct_well_formed_exec};

verus! {

/// The stage at which a request failed, with its cause.
#[derive(Clone, Copy, Debug, PartialEq, Eq, Structural)]
pub enum RequestError {
    /// The operation token did not decode.
    Spec(SpecDecodeError),
    /// The source URL segment was empty or not a well-formed percent-encoding.
    InvalidUrl,
    /// The source could not be fetched.
    Fetch(FetchError),
    /// The fetched bytes could not be turned into an output image.
    Engine(EngineError),
}

pub const STATUS_BAD_REQUEST: u16 = 400;
pub const STATUS_SERVER_ERROR: u16 = 500;

impl RequestError {
    pub open spec fn status_spec(self) -> u16 {
        match self {
            RequestError::Engine(_) => STATUS_SERVER_ERROR,
            _ => STATUS_BAD_REQUEST,
        }
    }

    /// Client-side causes (the token, the URL, the upstream) answer 400; a
    /// failure to process the fetched image answers 500.
    pub fn status_code(&self) -> (r: u16)
        ensures
            r == self.status_spec(),
    {
        match self {
            RequestError::Engine(_) => STATUS_SERVER_ERROR,
            _ => STATUS_BAD_REQUEST,
        }
    }
}

/// The bytes of the source URL that a path segment names: the segment must
/// be a well-formed ASCII percent-encoding of a non-empty URL.
pub fn source_url_bytes(segment: &str) -> (r: Result<Vec<u8>, RequestError>)
    ensures
        ({
            let ok = all_ascii(segment@) && pct_well_formed(ascii_bytes(segment@))
                && pct_decoded(ascii_bytes(segment@)).len() > 0;
            &&& ok ==> r is Ok && r->Ok_0@ == pct_decoded(ascii_bytes(segment@))
            &&& !ok ==> r == Err::<Vec<u8>, RequestError>(RequestError::InvalidUrl)
        }),
{
    if !all_ascii_exec(segment) || !pct_well_formed_exec(segment) {
        return Err(RequestError::InvalidUrl);
    }
    let bytes = pct_decode(segment);
    if bytes.len() == 0 {
        return Err(RequestError::InvalidUrl);
    }
    Ok(bytes)
}

} // verus!
