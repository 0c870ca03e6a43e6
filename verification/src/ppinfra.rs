//! Ppinfra: the balance report and how a credential is judged by it.

use vstd::prelude::*;
use vstd::string::StringExecFns;
use crate::amount::{balance_of, number_text, parse_amount, push_number};
use crate::errors::AppError;
use crate::files::{conclude, Checked};
use crate::probe::{bearer, bearer_get, Decoded, Method, ProbeOutcome, ProbeRequest, STATUS_OK};
use crate::rules::{Bucket, Provider, Verdict};
use crate::serial::{dispatch, ran, ran_out, DispatchError};
use crate::text::string_of;

verus! {

/// The balance report of one account. The balance is kept as the decimal
/// text of the number that the provider sent.
#[derive(Debug, Clone, PartialEq, Eq)]
pub struct BalanceInfo {
    pub credit_balance: String,
}

impl BalanceInfo {
    /// The balance that counts, and 0 where the text is no amount.
    pub open spec fn total(self) -> u64 {
        balance_of(self.credit_balance@)
    }

    /// The balance that counts.
    pub fn total_balance(&self) -> (r: u64)
        ensures
            r == self.total(),
    {
        match parse_amount(self.credit_balance.as_str()) {
            Some(v) => v,
            None => 0,
        }
    }
}

/// How Ppinfra judges an outcome: an accepted answer with a balance report
/// counts by its balance, anything else is unknown, an accepted answer
/// whose body is no balance report included.
pub open spec fn verdict(outcome: ProbeOutcome) -> Verdict {
    match outcome {
        ProbeOutcome::Response { status_code, body_text, decoded: Decoded::Ppinfra(info) } => {
            if status_code == STATUS_OK {
                Verdict::by_balance(info.total())
            } else {
                Verdict::plain(Bucket::Unknown)
            }
        },
        _ => Verdict::plain(Bucket::Unknown),
    }
}

/// Judges one outcome by Ppinfra's rules.
///
/// A balance counts as what `parse_amount` reads it as: a number with a
/// digit that is not 0 is a balance above 0, however small or large, with
/// an exponent or without; a text that is no such number, one with a minus
/// sign, `inf` and `nan` among them, is a balance of 0.
pub fn judge(outcome: &ProbeOutcome) -> (v: Verdict)
    ensures
        v == verdict(*outcome),
{
    match outcome {
        ProbeOutcome::Response { status_code, body_text, decoded: Decoded::Ppinfra(info) } => {
            if *status_code == STATUS_OK {
                Verdict::by_balance(info.total_balance())
            } else {
                Verdict::plain(Bucket::Unknown)
            }
        },
        _ => Verdict::plain(Bucket::Unknown),
    }
}

/// Where Ppinfra reports on an account.
pub open spec fn user_url() -> Seq<char> {
    "https://api.ppinfra.com/v3/user"@
}

/// The request that probes a Ppinfra credential: it asks for the account.
pub fn get_balance(key: &str) -> (request: ProbeRequest)
    ensures
        request.method == Method::Get,
        request.url@ == user_url(),
        request.authorization is Some,
        request.authorization->0@ == bearer(key@),
        request.body is None,
{
    bearer_get("https://api.ppinfra.com/v3/user", key)
}

/// How a status code is written out: the number, a space, and the phrase
/// that HTTP gives it (`404 Not Found`).
pub uninterp spec fn status_text(status_code: u16) -> Seq<char>;

/// Writes out a status code.
///
/// Wraps `reqwest::StatusCode::from_u16` and the `Display` of the status
/// it gives. The first takes the codes from 100 to 999 and refuses all
/// others; the second writes the number, a space and the canonical reason
/// phrase of the code, or `<unknown status code>` where it has none. What
/// it writes is taken on trust, under the name `status_text`.
#[verifier::external_body]
fn status_line(status_code: u16) -> (r: Option<String>)
    ensures
        r is Some <==> 100 <= status_code <= 999,
        r matches Some(line) ==> line@ == status_text(status_code),
{
    match reqwest::StatusCode::from_u16(status_code) {
        Ok(status) => Some(status.to_string()),
        Err(_) => None,
    }
}

/// How the status of an answer is shown: written out as HTTP has it for
/// the codes from 100 to 999, and as the bare number for any other.
pub open spec fn shown_status(status_code: u16) -> Seq<char> {
    if 100 <= status_code <= 999 {
        status_text(status_code)
    } else {
        number_text(status_code as nat)
    }
}

/// What is said of an answer that is no balance report: its status, its
/// text, and why it could not be read.
pub open spec fn unreadable(status: Seq<char>, text: Seq<char>, why: Seq<char>) -> Seq<char> {
    "`"@ + status + "`: `"@ + text + "`, "@ + why
}

/// The error for an answer that is no balance report. `status` is the
/// status as it is to be shown, `why` says why no report could be read.
pub fn response_error(status: &str, text: &str, why: &str) -> (error: AppError)
    ensures
        error.detail() == unreadable(status@, text@, why@),
{
    let said = String::from_str("`").concat(status).concat("`: `").concat(text).concat("`, ").concat(
        why,
    );
    AppError::ResponseError(said)
}

/// The balance that an answer reports, in billionths. `decoded` is the
/// balance report read from the answer, or else why none could be read;
/// in that case the error says what was received.
pub fn total_balance(status_code: u16, text: &str, decoded: Result<BalanceInfo, String>) -> (r:
    Result<u64, AppError>)
    ensures
        decoded matches Ok(info) ==> r == Ok::<u64, AppError>(info.total()),
        decoded matches Err(why) ==> r is Err && r->Err_0.detail() == unreadable(
            shown_status(status_code),
            text@,
            why@,
        ),
{
    match decoded {
        Ok(info) => Ok(info.total_balance()),
        Err(why) => {
            let status = match status_line(status_code) {
                Some(line) => line,
                None => {
                    let mut digits: Vec<char> = Vec::new();
                    push_number(&mut digits, status_code as u128);
                    assert(digits@ =~= number_text(status_code as nat));
                    string_of(&digits)
                },
            };
            Err(response_error(status.as_str(), text, why.as_str()))
        },
    }
}

/// Classifies a batch of Ppinfra credentials with the outcomes of their
/// probes, and says what is to be written and reported of it.
pub fn check_resp(resp: &Vec<(String, ProbeOutcome)>) -> (checked: Checked)
    ensures
        checked.concludes(Provider::Ppinfra, resp@),
{
    conclude(Provider::Ppinfra, resp)
}

/// Checks a batch of Ppinfra credentials: probes them one after the
/// other, at `query_per_sec` starts per second at most, and classifies
/// them by the outcomes.
///
/// `probe` is called once for each credential, in batch order;
/// `sleep_until` tells the time and `observe` is told of each probe that
/// has completed, as for `dispatch`. What `dispatch` says of the starts
/// holds here too: the clock told them, one probe was in flight at a
/// time, and no two starts lay closer together than the rate allows. The
/// check fails where `dispatch` fails, and only there: an outcome of a
/// probe, whatever it is, is no failure of the check.
pub fn check<P, S, O>(
    keys: &Vec<String>,
    query_per_sec: u64,
    probe: P,
    sleep_until: S,
    observe: O,
) -> (r: Result<Checked, DispatchError>) where
    P: Fn(&String) -> ProbeOutcome,
    S: Fn(u64) -> u64,
    O: Fn(usize),

    requires
        forall|credential: &String| call_requires(probe, (credential,)),
        forall|until: u64| call_requires(sleep_until, (until,)),
        forall|count: usize| call_requires(observe, (count,)),
        forall|until: u64, now: u64| call_ensures(sleep_until, (until,), now) ==> now >= until,
    ensures
        query_per_sec == 0 <==> r == Err::<Checked, DispatchError>(DispatchError::NoRate),
        query_per_sec > 0 && keys@.len() <= 1 ==> r is Ok,
        r matches Err(DispatchError::OutOfTime { last_start }) ==> ran_out(
            keys@.len(),
            query_per_sec,
            sleep_until,
            last_start,
        ),
        r matches Ok(checked) ==> exists|pairs: Seq<(String, ProbeOutcome)>, started: Seq<u64>|
            {
                &&& #[trigger] ran(keys@, query_per_sec, probe, sleep_until, pairs, started)
                &&& checked.concludes(Provider::Ppinfra, pairs)
            },
{
    match dispatch(keys, query_per_sec, probe, sleep_until, observe) {
        Ok(done) => {
            let r: Result<Checked, DispatchError> = Ok(check_resp(&done.pairs));
            assert(ran(keys@, query_per_sec, probe, sleep_until, done.pairs@, done.started@));
            assert(r->Ok_0.concludes(Provider::Ppinfra, done.pairs@));
            r
        },
        Err(error) => Err(error),
    }
}

} // verus!
