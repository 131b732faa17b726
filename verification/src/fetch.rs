//! What a request over the network comes to.
use crate::base64::{b64_decoded, decode_base64};
use vstd::prelude::*;
use vstd::utf8::encode_utf8;

verus! {

/// Why a request failed.
#[derive(Debug, PartialEq, Eq)]
pub enum NetworkError {
    /// The host could not be reached.
    ConnectionFailed(String),
    Other(String),
}

/// What the host environment answers to a request, with the body in Base64.
#[derive(Debug)]
pub struct FetchReply {
    pub status: u16,
    pub headers: Vec<(String, String)>,
    pub body_base64: String,
    pub error: Option<String>,
}

/// A response.
#[derive(Debug, PartialEq, Eq)]
pub struct HttpResponse {
    pub status: u16,
    pub headers: Vec<(String, String)>,
    pub body: Vec<u8>,
}

/// How the answer to a request came back.
#[derive(Debug)]
pub enum FetchOutcome {
    /// There was none.
    Missing,
    /// It could not be read, for this reason.
    Invalid(String),
    Reply(FetchReply),
}

/// Whether a result is what came of a fetch.
pub open spec fn fetch_answers(
    outcome: FetchOutcome,
    r: Result<HttpResponse, NetworkError>,
) -> bool {
    match outcome {
        FetchOutcome::Missing => r matches Err(NetworkError::Other(m)) && m@
            == "fetch returned null"@,
        FetchOutcome::Invalid(e) => r matches Err(NetworkError::Other(m)) && m@
            == "invalid fetch response: "@ + e@,
        FetchOutcome::Reply(reply) => match reply.error {
            Some(e) => r == Err::<HttpResponse, NetworkError>(
                NetworkError::ConnectionFailed(e),
            ),
            None => r matches Ok(x) && x.status == reply.status && x.headers == reply.headers
                && x.body@ == b64_decoded(encode_utf8(reply.body_base64@)),
        },
    }
}

/// What a request comes to: the response with its body decoded, or the reason why there is none.
pub fn fetch_result(outcome: FetchOutcome) -> (r: Result<HttpResponse, NetworkError>)
    ensures
        fetch_answers(outcome, r),
{
    match outcome {
        FetchOutcome::Missing => Err(NetworkError::Other("fetch returned null".to_owned())),
        FetchOutcome::Invalid(e) => Err(
            NetworkError::Other("invalid fetch response: ".to_owned().concat(e.as_str())),
        ),
        FetchOutcome::Reply(reply) => match reply.error {
            Some(e) => Err(NetworkError::ConnectionFailed(e)),
            None => {
                let body = decode_base64(reply.body_base64.as_str());
                Ok(HttpResponse { status: reply.status, headers: reply.headers, body })
            },
        },
    }
}

} // verus!
