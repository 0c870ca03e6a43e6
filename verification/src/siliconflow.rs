//! SiliconFlow: the account report and how a credential is judged by it.

use vstd::prelude::*;
use crate::amount::{balance_of, parse_amount};
use crate::files::{conclude, Checked};
use crate::probe::{bearer, bearer_get, Decoded, Method, ProbeOutcome, ProbeRequest, STATUS_OK};
use crate::rules::{Bucket, Provider, Verdict};
use crate::serial::{dispatch, ran, ran_out, DispatchError};
use crate::text::same_text;

verus! {

/// The account report, as the provider wraps it.
#[derive(Debug, Clone, PartialEq, Eq)]
pub struct UserInfo {
    pub data: Data,
}

/// What the report says of the account.
#[derive(Debug, Clone, PartialEq, Eq)]
pub struct Data {
    pub balance: String,
    pub status: String,
    pub charge_balance: String,
    pub total_balance: String,
}

/// The status that the provider gives a disabled account.
pub open spec fn disabled_status() -> Seq<char> {
    "disable"@
}

impl Data {
    pub open spec fn disabled(self) -> bool {
        self.status@ == disabled_status()
    }

    /// Whether the account is disabled.
    pub fn is_disabled(&self) -> (r: bool)
        ensures
            r == self.disabled(),
    {
        same_text(self.status.as_str(), "disable")
    }
}

/// How SiliconFlow judges an account report. A disabled account is
/// disabled whatever its balances. Any other counts by its total balance,
/// and is marked as paying where its paid-in balance is above 0.
pub open spec fn account_verdict(data: Data) -> Verdict {
    let charge = balance_of(data.charge_balance@);
    let total = balance_of(data.total_balance@);
    if data.disabled() {
        Verdict { bucket: Bucket::Disabled, pro: false, balance: total, charge }
    } else if total > 0 {
        Verdict { bucket: Bucket::Valid, pro: charge > 0, balance: total, charge }
    } else {
        Verdict { bucket: Bucket::ZeroBalance, pro: charge > 0, balance: total, charge }
    }
}

/// How SiliconFlow judges an outcome: an accepted answer with an account
/// report counts by the report, anything else is forbidden.
pub open spec fn verdict(outcome: ProbeOutcome) -> Verdict {
    match outcome {
        ProbeOutcome::Response { status_code, body_text, decoded: Decoded::SiliconFlow(user) } => {
            if status_code == STATUS_OK {
                account_verdict(user.data)
            } else {
                Verdict::plain(Bucket::Forbidden)
            }
        },
        _ => Verdict::plain(Bucket::Forbidden),
    }
}

/// Judges one outcome by SiliconFlow's rules.
///
/// A balance counts as what `parse_amount` reads it as: a number with a
/// digit that is not 0 is a balance above 0, however small or large, with
/// an exponent or without; a text that is no such number, one with a minus
/// sign, `inf` and `nan` among them, is a balance of 0.
pub fn judge(outcome: &ProbeOutcome) -> (v: Verdict)
    ensures
        v == verdict(*outcome),
{
    match outcome {
        ProbeOutcome::Response { status_code, body_text, decoded: Decoded::SiliconFlow(user) } => {
            if *status_code == STATUS_OK {
                let charge = match parse_amount(user.data.charge_balance.as_str()) {
                    Some(v) => v,
                    None => 0,
                };
                let total = match parse_amount(user.data.total_balance.as_str()) {
                    Some(v) => v,
                    None => 0,
                };
                if user.data.is_disabled() {
                    Verdict { bucket: Bucket::Disabled, pro: false, balance: total, charge }
                } else if total > 0 {
                    Verdict { bucket: Bucket::Valid, pro: charge > 0, balance: total, charge }
                } else {
                    Verdict { bucket: Bucket::ZeroBalance, pro: charge > 0, balance: total, charge }
                }
            } else {
                Verdict::plain(Bucket::Forbidden)
            }
        },
        _ => Verdict::plain(Bucket::Forbidden),
    }
}

/// Where SiliconFlow reports on an account.
pub open spec fn user_info_url() -> Seq<char> {
    "https://api.siliconflow.cn/v1/user/info"@
}

/// The request that probes a SiliconFlow credential: it asks for the
/// account.
pub fn get_userinfo(key: &str) -> (request: ProbeRequest)
    ensures
        request.method == Method::Get,
        request.url@ == user_info_url(),
        request.authorization is Some,
        request.authorization->0@ == bearer(key@),
        request.body is None,
{
    bearer_get("https://api.siliconflow.cn/v1/user/info", key)
}

/// Classifies a batch of SiliconFlow credentials with the outcomes of their
/// probes, and says what is to be written and reported of it.
pub fn check_resp(resp: &Vec<(String, ProbeOutcome)>) -> (checked: Checked)
    ensures
        checked.concludes(Provider::SiliconFlow, resp@),
{
    conclude(Provider::SiliconFlow, resp)
}

/// Checks a batch of SiliconFlow credentials: probes them one after the
/// other, at `query_per_sec` starts per second at most, and classifies
/// them by the outcomes.
///
/// `probe` is called once for each credential, in batch order;
/// `sleep_until` tells the time and `observe` is told of each probe that
/// has completed, as for `dispatch`. What `dispatch` says of the starts
/// holds here too: the clock told them, one probe was in flight at a
/// time, and no two starts lay closer together than the rate allows. The
/// check fails where `dispatch` fails, and only there: an outcome of a
/// probe, whatever it is, is no failure of the check.
pub fn check<P, S, O>(
    keys: &Vec<String>,
    query_per_sec: u64,
    probe: P,
    sleep_until: S,
    observe: O,
) -> (r: Result<Checked, DispatchError>) where
    P: Fn(&String) -> ProbeOutcome,
    S: Fn(u64) -> u64,
    O: Fn(usize),

    requires
        forall|credential: &String| call_requires(probe, (credential,)),
        forall|until: u64| call_requires(sleep_until, (until,)),
        forall|count: usize| call_requires(observe, (count,)),
        forall|until: u64, now: u64| call_ensures(sleep_until, (until,), now) ==> now >= until,
    ensures
        query_per_sec == 0 <==> r == Err::<Checked, DispatchError>(DispatchError::NoRate),
        query_per_sec > 0 && keys@.len() <= 1 ==> r is Ok,
        r matches Err(DispatchError::OutOfTime { last_start }) ==> ran_out(
            keys@.len(),
            query_per_sec,
            sleep_until,
            last_start,
        ),
        r matches Ok(checked) ==> exists|pairs: Seq<(String, ProbeOutcome)>, started: Seq<u64>|
            {
                &&& #[trigger] ran(keys@, query_per_sec, probe, sleep_until, pairs, started)
                &&& checked.concludes(Provider::SiliconFlow, pairs)
            },
{
    match dispatch(keys, query_per_sec, probe, sleep_until, observe) {
        Ok(done) => {
            let r: Result<Checked, DispatchError> = Ok(check_resp(&done.pairs));
            assert(ran(keys@, query_per_sec, probe, sleep_until, done.pairs@, done.started@));
            assert(r->Ok_0.concludes(Provider::SiliconFlow, done.pairs@));
            r
        },
        Err(error) => Err(error),
    }
}

} // verus!
