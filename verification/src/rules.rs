//! The buckets that a credential can land in, and the rules of each
//! provider that decide which.

use vstd::prelude::*;
use crate::probe::ProbeOutcome;

verus! {

/// The providers whose credentials can be checked.
#[derive(Debug, Clone, Copy, PartialEq, Eq, Structural)]
pub enum Provider {
    DeepSeek,
    Ppinfra,
    SiliconFlow,
    /// Gemini, probed by listing the models.
    Gemini,
    /// Gemini, probed by a short prompt to one model.
    GeminiModel,
}

/// Where a credential lands. Every credential lands in exactly one bucket.
#[derive(Debug, Clone, Copy, PartialEq, Eq, Structural)]
pub enum Bucket {
    /// The credential works, and where the provider reports a balance it
    /// is above 0.
    Valid,
    /// The credential works but has nothing to spend: the balance is 0 or
    /// could not be read, or the provider is limiting its rate.
    ZeroBalance,
    /// The provider has disabled the account.
    Disabled,
    /// The provider rejected the credential.
    Forbidden,
    /// The provider does not serve the place the probe came from.
    LocationRestricted,
    /// Nothing can be said: no answer arrived, or one that no rule covers.
    Unknown,
}

/// What the rules say of one outcome.
#[derive(Debug, Clone, Copy, PartialEq, Eq, Structural)]
pub struct Verdict {
    /// The bucket of the credential.
    pub bucket: Bucket,
    /// Whether the credential is also listed among the paying accounts.
    pub pro: bool,
    /// The balance read from the answer, in billionths; 0 where none was.
    pub balance: u64,
    /// The paid-in balance read from the answer, in billionths; 0 where
    /// none was.
    pub charge: u64,
}

impl Verdict {
    pub open spec fn spec_plain(bucket: Bucket) -> Verdict {
        Verdict { bucket, pro: false, balance: 0, charge: 0 }
    }

    /// The verdict that puts a credential in `bucket` with no balance.
    #[verifier::when_used_as_spec(spec_plain)]
    pub fn plain(bucket: Bucket) -> (v: Verdict)
        ensures
            v == Self::spec_plain(bucket),
    {
        Verdict { bucket, pro: false, balance: 0, charge: 0 }
    }

    pub open spec fn spec_by_balance(balance: u64) -> Verdict {
        if balance > 0 {
            Verdict { bucket: Bucket::Valid, pro: false, balance, charge: 0 }
        } else {
            Verdict { bucket: Bucket::ZeroBalance, pro: false, balance, charge: 0 }
        }
    }

    /// The verdict by a balance alone: valid above 0, zero balance at 0.
    #[verifier::when_used_as_spec(spec_by_balance)]
    pub fn by_balance(balance: u64) -> (v: Verdict)
        ensures
            v == Self::spec_by_balance(balance),
    {
        if balance > 0 {
            Verdict { bucket: Bucket::Valid, pro: false, balance, charge: 0 }
        } else {
            Verdict { bucket: Bucket::ZeroBalance, pro: false, balance, charge: 0 }
        }
    }
}

/// What the rules of `provider` say of an outcome.
pub open spec fn verdict(provider: Provider, outcome: ProbeOutcome) -> Verdict {
    match provider {
        Provider::DeepSeek => crate::deepseek::verdict(outcome),
        Provider::Ppinfra => crate::ppinfra::verdict(outcome),
        Provider::SiliconFlow => crate::siliconflow::verdict(outcome),
        Provider::Gemini => crate::gemini::verdict(outcome),
        Provider::GeminiModel => crate::gemini::model_verdict(outcome),
    }
}

/// Judges one outcome by the rules of `provider`.
pub fn judge(provider: Provider, outcome: &ProbeOutcome) -> (v: Verdict)
    ensures
        v == verdict(provider, *outcome),
{
    match provider {
        Provider::DeepSeek => crate::deepseek::judge(outcome),
        Provider::Ppinfra => crate::ppinfra::judge(outcome),
        Provider::SiliconFlow => crate::siliconflow::judge(outcome),
        Provider::Gemini => crate::gemini::judge(outcome),
        Provider::GeminiModel => crate::gemini::judge_model(outcome),
    }
}

} // verus!
