//! What a probe of one credential can bring back.

use vstd::prelude::*;
use vstd::string::StringExecFns;
use crate::deepseek::UserBalance;
use crate::ppinfra::BalanceInfo;
use crate::siliconflow::UserInfo;

verus! {

/// The status code of an answer that the provider accepted.
pub const STATUS_OK: u16 = 200;

/// What was read out of the body of an answer.
#[derive(Debug, Clone, PartialEq, Eq)]
pub enum Decoded {
    /// The body was not read, or it is not what the provider documents.
    Nothing,
    /// A DeepSeek balance report.
    DeepSeek(UserBalance),
    /// A SiliconFlow account report.
    SiliconFlow(UserInfo),
    /// A Ppinfra balance report.
    Ppinfra(BalanceInfo),
}

/// The outcome of probing one credential.
#[derive(Debug, Clone, PartialEq, Eq)]
pub enum ProbeOutcome {
    /// The provider answered, with whatever status.
    Response { status_code: u16, body_text: String, decoded: Decoded },
    /// No answer arrived: the connection failed, timed out, or the like.
    TransportFailure { error_detail: String },
}

/// How a request is sent.
#[derive(Debug, Clone, Copy, PartialEq, Eq, Structural)]
pub enum Method {
    Get,
    Post,
}

/// The one request that probes a credential.
#[derive(Debug, Clone, PartialEq, Eq)]
pub struct ProbeRequest {
    pub method: Method,
    pub url: String,
    /// The value of the `Authorization` header, where the credential goes
    /// there.
    pub authorization: Option<String>,
    /// The body, as JSON text, where the request has one.
    pub body: Option<String>,
}

/// The value of the `Authorization` header that presents a credential.
pub open spec fn bearer(key: Seq<char>) -> Seq<char> {
    "Bearer "@ + key
}

/// A request that reads `url` and presents the credential in the
/// `Authorization` header.
pub fn bearer_get(url: &str, key: &str) -> (request: ProbeRequest)
    ensures
        request.method == Method::Get,
        request.url@ == url@,
        request.authorization is Some,
        request.authorization->0@ == bearer(key@),
        request.body is None,
{
    ProbeRequest {
        method: Method::Get,
        url: String::from_str(url),
        authorization: Some(String::from_str("Bearer ").concat(key)),
        body: None,
    }
}

} // verus!
