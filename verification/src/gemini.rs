//! Gemini: how a credential is judged by the status and the text of the
//! answer.

use vstd::prelude::*;
use vstd::string::StringExecFns;
use crate::files::{conclude, Checked};
use crate::probe::{Method, ProbeOutcome, ProbeRequest, STATUS_OK};
use crate::rules::{Bucket, Provider, Verdict};
use crate::serial::{dispatch, ran, ran_out, DispatchError};
use crate::text::{
    collapse_whitespace, collapsed, contains, is_word, law_collapsing_keeps_words, occurs_in,
};

verus! {

/// What an answer says when the credential has no permission.
pub open spec fn permission_denied() -> Seq<char> {
    "PERMISSION_DENIED"@
}

/// What an answer says when the place of the caller is not served.
pub open spec fn location_unsupported() -> Seq<char> {
    "location is not supported"@
}

/// What an answer says when the requests of one minute are used up.
pub open spec fn minute_quota_exceeded() -> Seq<char> {
    "Quota exceeded for quota metric 'Generate Content API requests per minute'"@
}

/// The bucket by the status of a models listing.
pub open spec fn listing_bucket(status_code: u16) -> Bucket {
    if status_code == STATUS_OK {
        Bucket::Valid
    } else if status_code == 429 {
        Bucket::ZeroBalance
    } else if status_code == 400 || status_code == 401 || status_code == 403 {
        Bucket::Forbidden
    } else {
        Bucket::Unknown
    }
}

/// The bucket by the status and the text of an answer to a prompt. The
/// first rule that applies decides.
pub open spec fn prompt_bucket(status_code: u16, text: Seq<char>) -> Bucket {
    if status_code == STATUS_OK {
        Bucket::Valid
    } else if status_code == 403 && !occurs_in(text, permission_denied()) {
        Bucket::LocationRestricted
    } else if status_code == 400 && occurs_in(text, location_unsupported()) {
        Bucket::LocationRestricted
    } else if status_code == 429 && occurs_in(text, minute_quota_exceeded()) {
        Bucket::Forbidden
    } else if status_code == 403 {
        Bucket::Forbidden
    } else if status_code == 400 || status_code == 401 {
        Bucket::Forbidden
    } else if status_code == 429 {
        Bucket::ZeroBalance
    } else {
        Bucket::Unknown
    }
}

/// How Gemini judges the outcome of a models listing.
pub open spec fn verdict(outcome: ProbeOutcome) -> Verdict {
    match outcome {
        ProbeOutcome::Response { status_code, body_text, decoded } => Verdict::plain(
            listing_bucket(status_code),
        ),
        ProbeOutcome::TransportFailure { error_detail } => Verdict::plain(Bucket::Unknown),
    }
}

/// How Gemini judges the outcome of a prompt. The text is read with single
/// spaces between its words.
pub open spec fn model_verdict(outcome: ProbeOutcome) -> Verdict {
    match outcome {
        ProbeOutcome::Response { status_code, body_text, decoded } => Verdict::plain(
            prompt_bucket(status_code, collapsed(body_text@)),
        ),
        ProbeOutcome::TransportFailure { error_detail } => Verdict::plain(Bucket::Unknown),
    }
}

/// Judges the outcome of a models listing.
pub fn judge(outcome: &ProbeOutcome) -> (v: Verdict)
    ensures
        v == verdict(*outcome),
{
    match outcome {
        ProbeOutcome::Response { status_code, body_text, decoded } => {
            let status = *status_code;
            let bucket = if status == STATUS_OK {
                Bucket::Valid
            } else if status == 429 {
                Bucket::ZeroBalance
            } else if status == 400 || status == 401 || status == 403 {
                Bucket::Forbidden
            } else {
                Bucket::Unknown
            };
            Verdict::plain(bucket)
        },
        ProbeOutcome::TransportFailure { error_detail } => Verdict::plain(Bucket::Unknown),
    }
}

/// Judges the outcome of a prompt.
pub fn judge_model(outcome: &ProbeOutcome) -> (v: Verdict)
    ensures
        v == model_verdict(*outcome),
{
    match outcome {
        ProbeOutcome::Response { status_code, body_text, decoded } => {
            let status = *status_code;
            let text = collapse_whitespace(body_text.as_str());
            let bucket = if status == STATUS_OK {
                Bucket::Valid
            } else if status == 403 && !contains(text.as_str(), "PERMISSION_DENIED") {
                Bucket::LocationRestricted
            } else if status == 400 && contains(text.as_str(), "location is not supported") {
                Bucket::LocationRestricted
            } else if status == 429 && contains(
                text.as_str(),
                "Quota exceeded for quota metric 'Generate Content API requests per minute'",
            ) {
                Bucket::Forbidden
            } else if status == 403 {
                Bucket::Forbidden
            } else if status == 400 || status == 401 {
                Bucket::Forbidden
            } else if status == 429 {
                Bucket::ZeroBalance
            } else {
                Bucket::Unknown
            };
            Verdict::plain(bucket)
        },
        ProbeOutcome::TransportFailure { error_detail } => Verdict::plain(Bucket::Unknown),
    }
}

/// Where Gemini lists its models, up to the credential.
pub open spec fn models_url() -> Seq<char> {
    "https://generativelanguage.googleapis.com/v1beta/models"@
}

/// The address that lists the models for a credential.
pub open spec fn listing_url(key: Seq<char>) -> Seq<char> {
    models_url() + "?key="@ + key
}

/// The address that takes a prompt to `model` for a credential.
pub open spec fn prompt_url(key: Seq<char>, model: Seq<char>) -> Seq<char> {
    models_url() + "/"@ + model + ":generateContent?key="@ + key
}

/// The prompt that probes a model: the one word `hi`.
pub open spec fn prompt_body() -> Seq<char> {
    "{\"contents\":[{\"parts\":[{\"text\":\"hi\"}]}]}"@
}

/// The request that probes a Gemini credential by listing the models.
pub fn list_model(key: &str) -> (request: ProbeRequest)
    ensures
        request.method == Method::Get,
        request.url@ == listing_url(key@),
        request.authorization is None,
        request.body is None,
{
    let url = String::from_str("https://generativelanguage.googleapis.com/v1beta/models").concat(
        "?key=",
    ).concat(key);
    ProbeRequest { method: Method::Get, url, authorization: None, body: None }
}

/// The request that probes a Gemini credential by a prompt to `model`.
pub fn say_hi(key: &str, model: &str) -> (request: ProbeRequest)
    ensures
        request.method == Method::Post,
        request.url@ == prompt_url(key@, model@),
        request.authorization is None,
        request.body is Some,
        request.body->0@ == prompt_body(),
{
    let url = String::from_str("https://generativelanguage.googleapis.com/v1beta/models").concat(
        "/",
    ).concat(model).concat(":generateContent?key=").concat(key);
    ProbeRequest {
        method: Method::Post,
        url,
        authorization: None,
        body: Some(String::from_str("{\"contents\":[{\"parts\":[{\"text\":\"hi\"}]}]}")),
    }
}

/// The rules that apply to a batch: those for prompts where a model was
/// probed, those for listings where none was.
pub open spec fn rules_for(with_model: bool) -> Provider {
    if with_model {
        Provider::GeminiModel
    } else {
        Provider::Gemini
    }
}

/// Classifies a batch of Gemini credentials with the outcomes of their
/// probes, and says what is to be written and reported of it.
pub fn check_resp(resp: &Vec<(String, ProbeOutcome)>, with_model: bool) -> (checked: Checked)
    ensures
        checked.concludes(rules_for(with_model), resp@),
{
    if with_model {
        conclude(Provider::GeminiModel, resp)
    } else {
        conclude(Provider::Gemini, resp)
    }
}

/// Checks a batch of Gemini credentials: probes them one after the other,
/// at `query_per_sec` starts per second at most, and classifies them by
/// the outcomes, by the rules for prompts where `with_model` says that a
/// model is probed.
///
/// `probe` is called once for each credential, in batch order;
/// `sleep_until` tells the time and `observe` is told of each probe that
/// has completed, as for `dispatch`. What `dispatch` says of the starts
/// holds here too: the clock told them, one probe was in flight at a
/// time, and no two starts lay closer together than the rate allows. The
/// check fails where `dispatch` fails, and only there: an outcome of a
/// probe, whatever it is, is no failure of the check.
pub fn check<P, S, O>(
    keys: &Vec<String>,
    query_per_sec: u64,
    with_model: bool,
    probe: P,
    sleep_until: S,
    observe: O,
) -> (r: Result<Checked, DispatchError>) where
    P: Fn(&String) -> ProbeOutcome,
    S: Fn(u64) -> u64,
    O: Fn(usize),

    requires
        forall|credential: &String| call_requires(probe, (credential,)),
        forall|until: u64| call_requires(sleep_until, (until,)),
        forall|count: usize| call_requires(observe, (count,)),
        forall|until: u64, now: u64| call_ensures(sleep_until, (until,), now) ==> now >= until,
    ensures
        query_per_sec == 0 <==> r == Err::<Checked, DispatchError>(DispatchError::NoRate),
        query_per_sec > 0 && keys@.len() <= 1 ==> r is Ok,
        r matches Err(DispatchError::OutOfTime { last_start }) ==> ran_out(
            keys@.len(),
            query_per_sec,
            sleep_until,
            last_start,
        ),
        r matches Ok(checked) ==> exists|pairs: Seq<(String, ProbeOutcome)>, started: Seq<u64>|
            {
                &&& #[trigger] ran(keys@, query_per_sec, probe, sleep_until, pairs, started)
                &&& checked.concludes(rules_for(with_model), pairs)
            },
{
    match dispatch(keys, query_per_sec, probe, sleep_until, observe) {
        Ok(done) => {
            let r: Result<Checked, DispatchError> = Ok(check_resp(&done.pairs, with_model));
            assert(ran(keys@, query_per_sec, probe, sleep_until, done.pairs@, done.started@));
            assert(r->Ok_0.concludes(rules_for(with_model), done.pairs@));
            r
        },
        Err(error) => Err(error),
    }
}

/// An answer to a prompt with status 403 means a rejected credential where
/// its text speaks of a denied permission, and a place that is not served
/// where it does not. With status 400, a text that speaks, with whatever
/// white space between the words, of a location that is not supported
/// means a place that is not served.
pub proof fn law_denied_or_out_of_place(outcome: ProbeOutcome)
    requires
        outcome is Response,
    ensures
        outcome->status_code == 403 && occurs_in(outcome->body_text@, permission_denied())
            ==> model_verdict(outcome).bucket == Bucket::Forbidden,
        outcome->status_code == 403 && !occurs_in(outcome->body_text@, permission_denied())
            ==> model_verdict(outcome).bucket == Bucket::LocationRestricted,
        outcome->status_code == 400 && occurs_in(
            collapsed(outcome->body_text@),
            location_unsupported(),
        ) ==> model_verdict(outcome).bucket == Bucket::LocationRestricted,
{
    reveal_strlit("PERMISSION_DENIED");
    assert(is_word(permission_denied()));
    law_collapsing_keeps_words(outcome->body_text@, permission_denied());
}

} // verus!
