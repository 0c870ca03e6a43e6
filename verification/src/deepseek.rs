//! DeepSeek: the balance report and how a credential is judged by it.

use vstd::prelude::*;
use crate::amount::{balance_of, parse_amount};
use crate::files::{conclude, Checked};
use crate::probe::{bearer, bearer_get, Decoded, Method, ProbeOutcome, ProbeRequest, STATUS_OK};
use crate::rules::{Bucket, Provider, Verdict};
use crate::serial::{dispatch, ran, ran_out, DispatchError};

verus! {

/// One line of a balance report: the balance in one currency.
#[derive(Debug, Clone, PartialEq, Eq)]
pub struct BalanceInfo {
    pub currency: String,
    pub total_balance: String,
    pub granted_balance: String,
    pub topped_up_balance: String,
}

/// The balance report of one account.
#[derive(Debug, Clone, PartialEq, Eq)]
pub struct UserBalance {
    pub is_available: bool,
    pub balance_infos: Vec<BalanceInfo>,
}

impl UserBalance {
    /// The balance that counts: the total of the first currency listed, and
    /// 0 where none is listed or the total is no amount.
    pub open spec fn total(self) -> u64 {
        if self.balance_infos@.len() > 0 {
            balance_of(self.balance_infos@[0].total_balance@)
        } else {
            0
        }
    }

    /// The balance that counts.
    pub fn total_balance(&self) -> (r: u64)
        ensures
            r == self.total(),
    {
        if self.balance_infos.len() > 0 {
            match parse_amount(self.balance_infos[0].total_balance.as_str()) {
                Some(v) => v,
                None => 0,
            }
        } else {
            0
        }
    }
}

/// How DeepSeek judges an outcome: an accepted answer with a balance report
/// counts by its balance, anything else is unknown.
///
/// A balance that cannot be read in a report that could be decoded counts
/// as a balance of 0. An accepted answer whose body is no balance report at
/// all is unknown, like an answer that was not accepted: nothing in it
/// says that the account is empty.
pub open spec fn verdict(outcome: ProbeOutcome) -> Verdict {
    match outcome {
        ProbeOutcome::Response { status_code, body_text, decoded: Decoded::DeepSeek(user) } => {
            if status_code == STATUS_OK {
                Verdict::by_balance(user.total())
            } else {
                Verdict::plain(Bucket::Unknown)
            }
        },
        _ => Verdict::plain(Bucket::Unknown),
    }
}

/// Judges one outcome by DeepSeek's rules.
///
/// A balance counts as what `parse_amount` reads it as: a number with a
/// digit that is not 0 is a balance above 0, however small or large, with
/// an exponent or without; a text that is no such number, one with a minus
/// sign, `inf` and `nan` among them, is a balance of 0.
pub fn judge(outcome: &ProbeOutcome) -> (v: Verdict)
    ensures
        v == verdict(*outcome),
{
    match outcome {
        ProbeOutcome::Response { status_code, body_text, decoded: Decoded::DeepSeek(user) } => {
            if *status_code == STATUS_OK {
                Verdict::by_balance(user.total_balance())
            } else {
                Verdict::plain(Bucket::Unknown)
            }
        },
        _ => Verdict::plain(Bucket::Unknown),
    }
}

/// Where DeepSeek reports the balance of an account.
pub open spec fn balance_url() -> Seq<char> {
    "https://api.deepseek.com/user/balance"@
}

/// The request that probes a DeepSeek credential: it asks for the balance.
pub fn get_balance(key: &str) -> (request: ProbeRequest)
    ensures
        request.method == Method::Get,
        request.url@ == balance_url(),
        request.authorization is Some,
        request.authorization->0@ == bearer(key@),
        request.body is None,
{
    bearer_get("https://api.deepseek.com/user/balance", key)
}

/// Classifies a batch of DeepSeek credentials with the outcomes of their
/// probes, and says what is to be written and reported of it.
pub fn check_resp(resp: &Vec<(String, ProbeOutcome)>) -> (checked: Checked)
    ensures
        checked.concludes(Provider::DeepSeek, resp@),
{
    conclude(Provider::DeepSeek, resp)
}

/// Checks a batch of DeepSeek credentials: probes them one after the
/// other, at `query_per_sec` starts per second at most, and classifies
/// them by the outcomes.
///
/// `probe` is called once for each credential, in batch order;
/// `sleep_until` tells the time and `observe` is told of each probe that
/// has completed, as for `dispatch`. What `dispatch` says of the starts
/// holds here too: the clock told them, one probe was in flight at a
/// time, and no two starts lay closer together than the rate allows. The
/// check fails where `dispatch` fails, and only there: an outcome of a
/// probe, whatever it is, is no failure of the check.
pub fn check<P, S, O>(
    keys: &Vec<String>,
    query_per_sec: u64,
    probe: P,
    sleep_until: S,
    observe: O,
) -> (r: Result<Checked, DispatchError>) where
    P: Fn(&String) -> ProbeOutcome,
    S: Fn(u64) -> u64,
    O: Fn(usize),

    requires
        forall|credential: &String| call_requires(probe, (credential,)),
        forall|until: u64| call_requires(sleep_until, (until,)),
        forall|count: usize| call_requires(observe, (count,)),
        forall|until: u64, now: u64| call_ensures(sleep_until, (until,), now) ==> now >= until,
    ensures
        query_per_sec == 0 <==> r == Err::<Checked, DispatchError>(DispatchError::NoRate),
        query_per_sec > 0 && keys@.len() <= 1 ==> r is Ok,
        r matches Err(DispatchError::OutOfTime { last_start }) ==> ran_out(
            keys@.len(),
            query_per_sec,
            sleep_until,
            last_start,
        ),
        r matches Ok(checked) ==> exists|pairs: Seq<(String, ProbeOutcome)>, started: Seq<u64>|
            {
                &&& #[trigger] ran(keys@, query_per_sec, probe, sleep_until, pairs, started)
                &&& checked.concludes(Provider::DeepSeek, pairs)
            },
{
    match dispatch(keys, query_per_sec, probe, sleep_until, observe) {
        Ok(done) => {
            let r: Result<Checked, DispatchError> = Ok(check_resp(&done.pairs));
            assert(ran(keys@, query_per_sec, probe, sleep_until, done.pairs@, done.started@));
            assert(r->Ok_0.concludes(Provider::DeepSeek, done.pairs@));
            r
        },
        Err(error) => Err(error),
    }
}

} // verus!
