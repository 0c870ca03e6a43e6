//! Sorting a batch of probed credentials into buckets.
//!
//! A batch is a sequence of pairs, each a credential with the outcome of
//! its probe, in the order in which the probes completed. Classifying it
//! gives, for every bucket, the credentials that landed there, in batch
//! order; one detail record per pair; and the balances summed up.

use vstd::multiset::Multiset;
use vstd::prelude::*;
use crate::probe::ProbeOutcome;
use crate::rules::{judge, verdict, Bucket, Provider, Verdict};
use crate::text::{collapse_whitespace, collapsed};

verus! {

/// The balances of a batch, summed up, in billionths.
#[derive(Debug, Clone, Copy, PartialEq, Eq, Structural)]
pub struct Totals {
    /// The balances of the valid credentials.
    pub total: u128,
    /// The paid-in balances of the paying accounts.
    pub pro: u128,
}

/// What is kept of one probed credential for inspection.
#[derive(Debug, Clone, PartialEq, Eq)]
pub struct DetailRecord {
    pub credential: String,
    pub verdict: Verdict,
    /// The status of the answer; `None` where no answer arrived.
    pub status_code: Option<u16>,
    /// The text of the answer as the rules read it, or, where no answer
    /// arrived, what went wrong.
    pub note: String,
}

/// A detail record as plain values.
pub struct DetailView {
    pub credential: Seq<char>,
    pub verdict: Verdict,
    pub status_code: Option<u16>,
    pub note: Seq<char>,
}

impl View for DetailRecord {
    type V = DetailView;

    open spec fn view(&self) -> DetailView {
        DetailView {
            credential: self.credential@,
            verdict: self.verdict,
            status_code: self.status_code,
            note: self.note@,
        }
    }
}

/// The result of classifying a batch.
#[derive(Debug, Clone, PartialEq, Eq)]
pub struct Report {
    pub valid: Vec<String>,
    pub zero_balance: Vec<String>,
    pub disabled: Vec<String>,
    pub forbidden: Vec<String>,
    pub location_restricted: Vec<String>,
    pub unknown: Vec<String>,
    /// The paying accounts. A credential listed here is listed in its
    /// bucket as well.
    pub pro: Vec<String>,
    /// One record per pair of the batch, in batch order.
    pub details: Vec<DetailRecord>,
    pub totals: Totals,
}

/// The texts of a sequence of strings.
pub open spec fn texts(strings: Seq<String>) -> Seq<Seq<char>> {
    strings.map_values(|s: String| s@)
}

/// The credentials of a batch, in order.
pub open spec fn credentials(pairs: Seq<(String, ProbeOutcome)>) -> Seq<Seq<char>> {
    pairs.map_values(|pair: (String, ProbeOutcome)| pair.0@)
}

/// The pairs that the rules of `provider` put into `bucket`.
pub open spec fn lands_in(provider: Provider, bucket: Bucket) -> spec_fn(
    (String, ProbeOutcome),
) -> bool {
    |pair: (String, ProbeOutcome)| verdict(provider, pair.1).bucket == bucket
}

/// The pairs that the rules of `provider` list among the paying accounts.
pub open spec fn is_paying(provider: Provider) -> spec_fn((String, ProbeOutcome)) -> bool {
    |pair: (String, ProbeOutcome)| verdict(provider, pair.1).pro
}

/// The credentials of a batch that land in `bucket`, in batch order.
pub open spec fn members(
    provider: Provider,
    pairs: Seq<(String, ProbeOutcome)>,
    bucket: Bucket,
) -> Seq<Seq<char>> {
    credentials(pairs.filter(lands_in(provider, bucket)))
}

/// The credentials of a batch that are paying accounts, in batch order.
pub open spec fn paying_members(provider: Provider, pairs: Seq<(String, ProbeOutcome)>) -> Seq<
    Seq<char>,
> {
    credentials(pairs.filter(is_paying(provider)))
}

/// What one outcome adds to the total balance: its balance if the
/// credential is valid, and nothing otherwise.
pub open spec fn counted_balance(provider: Provider, outcome: ProbeOutcome) -> nat {
    let v = verdict(provider, outcome);
    if v.bucket == Bucket::Valid {
        v.balance as nat
    } else {
        0
    }
}

/// What one outcome adds to the total of the paying accounts: its paid-in
/// balance if the account is paying, and nothing otherwise.
pub open spec fn counted_charge(provider: Provider, outcome: ProbeOutcome) -> nat {
    let v = verdict(provider, outcome);
    if v.pro {
        v.charge as nat
    } else {
        0
    }
}

/// The sum of the balances of the valid credentials of a batch.
pub open spec fn total_balance(provider: Provider, pairs: Seq<(String, ProbeOutcome)>) -> nat
    decreases pairs.len(),
{
    if pairs.len() == 0 {
        0
    } else {
        total_balance(provider, pairs.drop_last()) + counted_balance(provider, pairs.last().1)
    }
}

/// The sum of the paid-in balances of the paying accounts of a batch.
pub open spec fn total_charge(provider: Provider, pairs: Seq<(String, ProbeOutcome)>) -> nat
    decreases pairs.len(),
{
    if pairs.len() == 0 {
        0
    } else {
        total_charge(provider, pairs.drop_last()) + counted_charge(provider, pairs.last().1)
    }
}

/// The text that is kept of an outcome: the text of the answer, for a
/// prompt to a Gemini model with single spaces between its words; or,
/// where no answer arrived, what went wrong.
pub open spec fn note_of(provider: Provider, outcome: ProbeOutcome) -> Seq<char> {
    match outcome {
        ProbeOutcome::Response { status_code, body_text, decoded } => {
            if provider == Provider::GeminiModel {
                collapsed(body_text@)
            } else {
                body_text@
            }
        },
        ProbeOutcome::TransportFailure { error_detail } => error_detail@,
    }
}

/// The status of an outcome; `None` where no answer arrived.
pub open spec fn status_of(outcome: ProbeOutcome) -> Option<u16> {
    match outcome {
        ProbeOutcome::Response { status_code, body_text, decoded } => Some(status_code),
        ProbeOutcome::TransportFailure { error_detail } => None,
    }
}

/// The detail record of one pair.
pub open spec fn detail_of(provider: Provider, pair: (String, ProbeOutcome)) -> DetailView {
    DetailView {
        credential: pair.0@,
        verdict: verdict(provider, pair.1),
        status_code: status_of(pair.1),
        note: note_of(provider, pair.1),
    }
}

/// The detail records of a batch, one per pair, in batch order.
pub open spec fn details_of(provider: Provider, pairs: Seq<(String, ProbeOutcome)>) -> Seq<
    DetailView,
> {
    pairs.map_values(|pair: (String, ProbeOutcome)| detail_of(provider, pair))
}

/// The views of a sequence of detail records.
pub open spec fn detail_views(records: Seq<DetailRecord>) -> Seq<DetailView> {
    records.map_values(|record: DetailRecord| record@)
}

impl Report {
    /// The credentials that the report lists in `bucket`.
    pub open spec fn bucket(self, bucket: Bucket) -> Seq<Seq<char>> {
        match bucket {
            Bucket::Valid => texts(self.valid@),
            Bucket::ZeroBalance => texts(self.zero_balance@),
            Bucket::Disabled => texts(self.disabled@),
            Bucket::Forbidden => texts(self.forbidden@),
            Bucket::LocationRestricted => texts(self.location_restricted@),
            Bucket::Unknown => texts(self.unknown@),
        }
    }

    /// The report is the classification of `pairs` by the rules of
    /// `provider`.
    pub open spec fn classifies(self, provider: Provider, pairs: Seq<(String, ProbeOutcome)>) -> bool {
        &&& forall|b: Bucket| #[trigger] self.bucket(b) == members(provider, pairs, b)
        &&& texts(self.pro@) == paying_members(provider, pairs)
        &&& detail_views(self.details@) == details_of(provider, pairs)
        &&& self.totals.total == total_balance(provider, pairs)
        &&& self.totals.pro == total_charge(provider, pairs)
    }

    /// The credentials listed in `bucket`.
    pub fn in_bucket(&self, bucket: Bucket) -> (list: &Vec<String>)
        ensures
            texts(list@) == self.bucket(bucket),
    {
        match bucket {
            Bucket::Valid => &self.valid,
            Bucket::ZeroBalance => &self.zero_balance,
            Bucket::Disabled => &self.disabled,
            Bucket::Forbidden => &self.forbidden,
            Bucket::LocationRestricted => &self.location_restricted,
            Bucket::Unknown => &self.unknown,
        }
    }
}

/// What one more pair adds to the credentials listed under a condition.
proof fn lemma_kept_push(
    pairs: Seq<(String, ProbeOutcome)>,
    pred: spec_fn((String, ProbeOutcome)) -> bool,
    pair: (String, ProbeOutcome),
)
    ensures
        credentials(pairs.push(pair).filter(pred)) == if pred(pair) {
            credentials(pairs.filter(pred)).push(pair.0@)
        } else {
            credentials(pairs.filter(pred))
        },
{
    pairs.lemma_filter_push(pair, pred);
    if pred(pair) {
        assert(credentials(pairs.filter(pred).push(pair)) =~= credentials(pairs.filter(pred)).push(
            pair.0@,
        ));
    }
}

proof fn lemma_totals_push(
    provider: Provider,
    pairs: Seq<(String, ProbeOutcome)>,
    pair: (String, ProbeOutcome),
)
    ensures
        total_balance(provider, pairs.push(pair)) == total_balance(provider, pairs)
            + counted_balance(provider, pair.1),
        total_charge(provider, pairs.push(pair)) == total_charge(provider, pairs) + counted_charge(
            provider,
            pair.1,
        ),
{
    assert(pairs.push(pair).drop_last() =~= pairs);
}

/// The detail record of one probed credential.
pub fn detail(provider: Provider, credential: &String, outcome: &ProbeOutcome) -> (record:
    DetailRecord)
    ensures
        record@ == detail_of(provider, (*credential, *outcome)),
{
    let verdict = judge(provider, outcome);
    match outcome {
        ProbeOutcome::Response { status_code, body_text, decoded } => {
            let note = match provider {
                Provider::GeminiModel => collapse_whitespace(body_text.as_str()),
                _ => body_text.clone(),
            };
            DetailRecord {
                credential: credential.clone(),
                verdict,
                status_code: Some(*status_code),
                note,
            }
        },
        ProbeOutcome::TransportFailure { error_detail } => DetailRecord {
            credential: credential.clone(),
            verdict,
            status_code: None,
            note: error_detail.clone(),
        },
    }
}

/// Classifies a batch by the rules of `provider`.
///
/// Every pair lands in exactly one bucket, whatever its outcome; a paying
/// account is listed among those as well. The totals count the balance of
/// a credential only where it is valid.
pub fn classify_batch(provider: Provider, pairs: &Vec<(String, ProbeOutcome)>) -> (report: Report)
    ensures
        report.classifies(provider, pairs@),
{
    let mut report = Report {
        valid: Vec::new(),
        zero_balance: Vec::new(),
        disabled: Vec::new(),
        forbidden: Vec::new(),
        location_restricted: Vec::new(),
        unknown: Vec::new(),
        pro: Vec::new(),
        details: Vec::new(),
        totals: Totals { total: 0, pro: 0 },
    };
    let mut i: usize = 0;
    proof {
        reveal(Seq::filter);
        assert(pairs@.take(0) =~= Seq::empty());
        assert forall|b: Bucket| #[trigger] report.bucket(b) == members(provider, pairs@.take(0), b) by {
            assert(report.bucket(b) =~= members(provider, pairs@.take(0), b));
        }
        assert(texts(report.pro@) =~= paying_members(provider, pairs@.take(0)));
        assert(detail_views(report.details@) =~= details_of(provider, pairs@.take(0)));
    }
    while i < pairs.len()
        invariant
            i <= pairs.len(),
            report.classifies(provider, pairs@.take(i as int)),
            report.totals.total <= i * u64::MAX,
            report.totals.pro <= i * u64::MAX,
        decreases pairs.len() - i,
    {
        let ghost before = pairs@.take(i as int);
        let ghost pair = pairs@[i as int];
        let ghost old_report = report;
        let credential = &pairs[i].0;
        let outcome = &pairs[i].1;
        let record = detail(provider, credential, outcome);
        let verdict = record.verdict;
        proof {
            assert(pairs@.take(i + 1) =~= before.push(pair));
            lemma_kept_push(before, is_paying(provider), pair);
            lemma_totals_push(provider, before, pair);
            assert forall|b: Bucket| #[trigger]
                members(provider, before.push(pair), b) == if verdict.bucket == b {
                    members(provider, before, b).push(pair.0@)
                } else {
                    members(provider, before, b)
                } by {
                lemma_kept_push(before, lands_in(provider, b), pair);
            }
            assert(details_of(provider, before.push(pair)) =~= details_of(provider, before).push(
                detail_of(provider, pair),
            ));
        }
        match verdict.bucket {
            Bucket::Valid => {
                report.valid.push(credential.clone());
                report.totals.total = report.totals.total + verdict.balance as u128;
            },
            Bucket::ZeroBalance => report.zero_balance.push(credential.clone()),
            Bucket::Disabled => report.disabled.push(credential.clone()),
            Bucket::Forbidden => report.forbidden.push(credential.clone()),
            Bucket::LocationRestricted => report.location_restricted.push(credential.clone()),
            Bucket::Unknown => report.unknown.push(credential.clone()),
        }
        if verdict.pro {
            report.pro.push(credential.clone());
            report.totals.pro = report.totals.pro + verdict.charge as u128;
        }
        report.details.push(record);
        proof {
            assert forall|b: Bucket| #[trigger]
                report.bucket(b) == members(provider, before.push(pair), b) by {
                assert(old_report.bucket(b) == members(provider, before, b));
                if verdict.bucket == b {
                    assert(report.bucket(b) =~= old_report.bucket(b).push(pair.0@));
                } else {
                    assert(report.bucket(b) =~= old_report.bucket(b));
                }
            }
            if verdict.pro {
                assert(texts(report.pro@) =~= texts(old_report.pro@).push(pair.0@));
            }
            assert(detail_views(report.details@) =~= detail_views(old_report.details@).push(
                record@,
            ));
        }
        i += 1;
    }
    assert(pairs@.take(pairs.len() as int) =~= pairs@);
    report
}

/// All that the buckets of a batch hold, each credential as often as the
/// buckets list it.
pub open spec fn bucketed(provider: Provider, pairs: Seq<(String, ProbeOutcome)>) -> Multiset<
    Seq<char>,
> {
    members(provider, pairs, Bucket::Valid).to_multiset().add(
        members(provider, pairs, Bucket::ZeroBalance).to_multiset(),
    ).add(members(provider, pairs, Bucket::Disabled).to_multiset()).add(
        members(provider, pairs, Bucket::Forbidden).to_multiset(),
    ).add(members(provider, pairs, Bucket::LocationRestricted).to_multiset()).add(
        members(provider, pairs, Bucket::Unknown).to_multiset(),
    )
}

/// The bucket of a credential whose probe brought no answer.
pub open spec fn failure_bucket(provider: Provider) -> Bucket {
    if provider == Provider::SiliconFlow {
        Bucket::Forbidden
    } else {
        Bucket::Unknown
    }
}

/// Taken together, the buckets hold exactly the credentials of the batch:
/// none is lost, and none is listed more often than the batch has it.
pub proof fn law_buckets_hold_the_batch(provider: Provider, pairs: Seq<(String, ProbeOutcome)>)
    ensures
        bucketed(provider, pairs) == credentials(pairs).to_multiset(),
        members(provider, pairs, Bucket::Valid).len() + members(
            provider,
            pairs,
            Bucket::ZeroBalance,
        ).len() + members(provider, pairs, Bucket::Disabled).len() + members(
            provider,
            pairs,
            Bucket::Forbidden,
        ).len() + members(provider, pairs, Bucket::LocationRestricted).len() + members(
            provider,
            pairs,
            Bucket::Unknown,
        ).len() == pairs.len(),
    decreases pairs.len(),
{
    broadcast use vstd::multiset::group_multiset_axioms;

    if pairs.len() == 0 {
        reveal(Seq::filter);
        assert(credentials(pairs) =~= Seq::empty());
        assert forall|b: Bucket| #[trigger] members(provider, pairs, b) =~= Seq::empty() by {}
        assert(Seq::<Seq<char>>::empty().to_multiset() =~= Multiset::empty()) by {
            Seq::<Seq<char>>::empty().to_multiset_ensures();
        }
        assert(bucketed(provider, pairs) =~= credentials(pairs).to_multiset());
    } else {
        let init = pairs.drop_last();
        let last = pairs.last();
        law_buckets_hold_the_batch(provider, init);
        assert(pairs =~= init.push(last));
        assert(credentials(pairs) =~= credentials(init).push(last.0@));
        vstd::seq_lib::to_multiset_build(credentials(init), last.0@);
        assert forall|b: Bucket| #[trigger]
            members(provider, pairs, b).to_multiset() == if verdict(provider, last.1).bucket == b {
                members(provider, init, b).to_multiset().insert(last.0@)
            } else {
                members(provider, init, b).to_multiset()
            } && members(provider, pairs, b).len() == if verdict(provider, last.1).bucket == b {
                members(provider, init, b).len() + 1
            } else {
                members(provider, init, b).len()
            } by {
            lemma_kept_push(init, lands_in(provider, b), last);
            vstd::seq_lib::to_multiset_build(members(provider, init, b), last.0@);
        }
        assert(bucketed(provider, pairs) =~= bucketed(provider, init).insert(last.0@));
    }
}

/// Where a credential is listed, a pair of the batch stands behind it.
proof fn lemma_listed_has_pair(
    pairs: Seq<(String, ProbeOutcome)>,
    pred: spec_fn((String, ProbeOutcome)) -> bool,
    credential: Seq<char>,
) -> (i: int)
    requires
        credentials(pairs.filter(pred)).contains(credential),
    ensures
        0 <= i < pairs.len(),
        pairs[i].0@ == credential,
        pred(pairs[i]),
{
    let kept = pairs.filter(pred);
    let k = choose|k: int| 0 <= k < credentials(kept).len() && credentials(kept)[k] == credential;
    pairs.lemma_filter_pred(pred, k);
    pairs.lemma_filter_contains_rev(pred, kept[k]);
    assert(kept.contains(kept[k]));
    let i = choose|i: int| 0 <= i < pairs.len() && pairs[i] == kept[k];
    i
}

/// Every credential of the batch is listed in the bucket of its verdict.
pub proof fn law_every_credential_lands(
    provider: Provider,
    pairs: Seq<(String, ProbeOutcome)>,
    i: int,
)
    requires
        0 <= i < pairs.len(),
    ensures
        members(provider, pairs, verdict(provider, pairs[i].1).bucket).contains(pairs[i].0@),
{
    let pred = lands_in(provider, verdict(provider, pairs[i].1).bucket);
    pairs.lemma_filter_contains(pred, i);
    let kept = pairs.filter(pred);
    let k = choose|k: int| 0 <= k < kept.len() && kept[k] == pairs[i];
    assert(credentials(kept)[k] == pairs[i].0@);
}

/// Where no credential occurs twice in the batch, none is listed in two
/// buckets.
pub proof fn law_buckets_are_disjoint(
    provider: Provider,
    pairs: Seq<(String, ProbeOutcome)>,
    credential: Seq<char>,
    first: Bucket,
    second: Bucket,
)
    requires
        credentials(pairs).no_duplicates(),
        members(provider, pairs, first).contains(credential),
        members(provider, pairs, second).contains(credential),
    ensures
        first == second,
{
    let i = lemma_listed_has_pair(pairs, lands_in(provider, first), credential);
    let j = lemma_listed_has_pair(pairs, lands_in(provider, second), credential);
    assert(credentials(pairs)[i] == credentials(pairs)[j]);
}

/// A credential that is listed among the paying accounts stands in a pair
/// of the batch whose verdict says so, and is listed in the bucket of that
/// verdict as well.
pub proof fn law_paying_is_an_overlay(
    provider: Provider,
    pairs: Seq<(String, ProbeOutcome)>,
    credential: Seq<char>,
) -> (i: int)
    requires
        paying_members(provider, pairs).contains(credential),
    ensures
        0 <= i < pairs.len(),
        pairs[i].0@ == credential,
        verdict(provider, pairs[i].1).pro,
        members(provider, pairs, verdict(provider, pairs[i].1).bucket).contains(credential),
{
    let i = lemma_listed_has_pair(pairs, is_paying(provider), credential);
    law_every_credential_lands(provider, pairs, i);
    i
}

/// Where no credential occurs twice in the batch, a credential is listed
/// in the bucket of its verdict and in no other, and among the paying
/// accounts only if its verdict says so.
pub proof fn law_a_credential_lands_nowhere_else(
    provider: Provider,
    pairs: Seq<(String, ProbeOutcome)>,
    i: int,
    bucket: Bucket,
)
    requires
        credentials(pairs).no_duplicates(),
        0 <= i < pairs.len(),
    ensures
        members(provider, pairs, bucket).contains(pairs[i].0@) <==> bucket == verdict(
            provider,
            pairs[i].1,
        ).bucket,
        paying_members(provider, pairs).contains(pairs[i].0@) <==> verdict(provider, pairs[i].1).pro,
{
    law_every_credential_lands(provider, pairs, i);
    if members(provider, pairs, bucket).contains(pairs[i].0@) {
        law_buckets_are_disjoint(
            provider,
            pairs,
            pairs[i].0@,
            bucket,
            verdict(provider, pairs[i].1).bucket,
        );
    }
    if paying_members(provider, pairs).contains(pairs[i].0@) {
        let j = lemma_listed_has_pair(pairs, is_paying(provider), pairs[i].0@);
        assert(credentials(pairs)[i] == credentials(pairs)[j]);
    }
    if verdict(provider, pairs[i].1).pro {
        let pred = is_paying(provider);
        pairs.lemma_filter_contains(pred, i);
        let kept = pairs.filter(pred);
        let k = choose|k: int| 0 <= k < kept.len() && kept[k] == pairs[i];
        assert(credentials(kept)[k] == pairs[i].0@);
    }
}

/// Taking one pair out of a batch takes out of the totals what that pair
/// counted for, and nothing else.
pub proof fn law_totals_are_sums(provider: Provider, pairs: Seq<(String, ProbeOutcome)>, i: int)
    requires
        0 <= i < pairs.len(),
    ensures
        total_balance(provider, pairs) == total_balance(provider, pairs.remove(i))
            + counted_balance(provider, pairs[i].1),
        total_charge(provider, pairs) == total_charge(provider, pairs.remove(i)) + counted_charge(
            provider,
            pairs[i].1,
        ),
    decreases pairs.len(),
{
    if i == pairs.len() - 1 {
        assert(pairs.remove(i) =~= pairs.drop_last());
    } else {
        law_totals_are_sums(provider, pairs.drop_last(), i);
        assert(pairs.remove(i).drop_last() =~= pairs.drop_last().remove(i));
        assert(pairs.remove(i).last() == pairs.last());
    }
}

/// A credential whose probe brought no answer lands in the bucket that
/// the provider keeps for failures, is no paying account, and counts for
/// nothing in the totals.
pub proof fn law_failed_probe_counts_nothing(
    provider: Provider,
    pairs: Seq<(String, ProbeOutcome)>,
    i: int,
)
    requires
        0 <= i < pairs.len(),
        pairs[i].1 is TransportFailure,
    ensures
        verdict(provider, pairs[i].1) == Verdict::plain(failure_bucket(provider)),
        members(provider, pairs, failure_bucket(provider)).contains(pairs[i].0@),
        total_balance(provider, pairs) == total_balance(provider, pairs.remove(i)),
        total_charge(provider, pairs) == total_charge(provider, pairs.remove(i)),
{
    law_every_credential_lands(provider, pairs, i);
    law_totals_are_sums(provider, pairs, i);
}

/// A SiliconFlow account that is disabled lands among the disabled
/// whatever its balances are, is no paying account, and counts for
/// nothing in the totals.
pub proof fn law_disabled_account_counts_nothing(pairs: Seq<(String, ProbeOutcome)>, i: int)
    requires
        0 <= i < pairs.len(),
        pairs[i].1 matches ProbeOutcome::Response {
            status_code,
            decoded: crate::probe::Decoded::SiliconFlow(user),
            ..
        } && status_code == crate::probe::STATUS_OK && user.data.disabled(),
    ensures
        verdict(Provider::SiliconFlow, pairs[i].1).bucket == Bucket::Disabled,
        !verdict(Provider::SiliconFlow, pairs[i].1).pro,
        members(Provider::SiliconFlow, pairs, Bucket::Disabled).contains(pairs[i].0@),
        total_balance(Provider::SiliconFlow, pairs) == total_balance(
            Provider::SiliconFlow,
            pairs.remove(i),
        ),
        total_charge(Provider::SiliconFlow, pairs) == total_charge(
            Provider::SiliconFlow,
            pairs.remove(i),
        ),
{
    law_every_credential_lands(Provider::SiliconFlow, pairs, i);
    law_totals_are_sums(Provider::SiliconFlow, pairs, i);
}

/// Classifying the same batch twice gives the same buckets, the same
/// records and the same totals.
pub proof fn law_classification_is_determined(
    provider: Provider,
    pairs: Seq<(String, ProbeOutcome)>,
    first: Report,
    second: Report,
)
    requires
        first.classifies(provider, pairs),
        second.classifies(provider, pairs),
    ensures
        forall|b: Bucket| first.bucket(b) == second.bucket(b),
        texts(first.pro@) == texts(second.pro@),
        detail_views(first.details@) == detail_views(second.details@),
        first.totals == second.totals,
{
    assert forall|b: Bucket| first.bucket(b) == second.bucket(b) by {
        assert(first.bucket(b) == members(provider, pairs, b));
        assert(second.bucket(b) == members(provider, pairs, b));
    }
}

/// The credentials that a batch lists under a condition, each as often as
/// the batch lists it.
pub open spec fn listed(
    pairs: Seq<(String, ProbeOutcome)>,
    pred: spec_fn((String, ProbeOutcome)) -> bool,
) -> Multiset<Seq<char>> {
    credentials(pairs.filter(pred)).to_multiset()
}

proof fn lemma_listed_push(
    pairs: Seq<(String, ProbeOutcome)>,
    pred: spec_fn((String, ProbeOutcome)) -> bool,
    pair: (String, ProbeOutcome),
)
    ensures
        listed(pairs.push(pair), pred) == if pred(pair) {
            listed(pairs, pred).insert(pair.0@)
        } else {
            listed(pairs, pred)
        },
{
    lemma_kept_push(pairs, pred, pair);
    if pred(pair) {
        vstd::seq_lib::to_multiset_build(credentials(pairs.filter(pred)), pair.0@);
    }
}

proof fn lemma_listed_remove(
    pairs: Seq<(String, ProbeOutcome)>,
    pred: spec_fn((String, ProbeOutcome)) -> bool,
    i: int,
)
    requires
        0 <= i < pairs.len(),
    ensures
        listed(pairs, pred) == if pred(pairs[i]) {
            listed(pairs.remove(i), pred).insert(pairs[i].0@)
        } else {
            listed(pairs.remove(i), pred)
        },
    decreases pairs.len(),
{
    broadcast use vstd::multiset::group_multiset_axioms;

    let init = pairs.drop_last();
    let last = pairs.last();
    assert(pairs =~= init.push(last));
    lemma_listed_push(init, pred, last);
    if i == pairs.len() - 1 {
        assert(pairs.remove(i) =~= init);
    } else {
        lemma_listed_remove(init, pred, i);
        assert(pairs.remove(i) =~= init.remove(i).push(last));
        lemma_listed_push(init.remove(i), pred, last);
        assert(listed(pairs, pred) =~= if pred(pairs[i]) {
            listed(pairs.remove(i), pred).insert(pairs[i].0@)
        } else {
            listed(pairs.remove(i), pred)
        });
    }
}

/// The order of a batch does not matter: two batches of the same pairs
/// give the same totals, and list the same credentials in every bucket
/// and among the paying accounts.
pub proof fn law_order_does_not_matter(
    provider: Provider,
    first: Seq<(String, ProbeOutcome)>,
    second: Seq<(String, ProbeOutcome)>,
)
    requires
        first.to_multiset() == second.to_multiset(),
    ensures
        total_balance(provider, first) == total_balance(provider, second),
        total_charge(provider, first) == total_charge(provider, second),
        forall|b: Bucket| #[trigger]
            members(provider, first, b).to_multiset() == members(provider, second, b).to_multiset(),
        paying_members(provider, first).to_multiset() == paying_members(
            provider,
            second,
        ).to_multiset(),
    decreases first.len(),
{
    broadcast use vstd::multiset::group_multiset_axioms;

    first.to_multiset_ensures();
    second.to_multiset_ensures();
    if first.len() == 0 {
        assert(second =~= first);
    } else {
        let init = first.drop_last();
        let last = first.last();
        assert(first =~= init.push(last));
        vstd::seq_lib::to_multiset_build(init, last);
        assert(first.to_multiset().count(last) > 0);
        assert(second.contains(last));
        let j = choose|j: int| 0 <= j < second.len() && second[j] == last;
        let rest = second.remove(j);
        vstd::seq_lib::to_multiset_remove(second, j);
        assert(rest.to_multiset() =~= init.to_multiset());
        law_order_does_not_matter(provider, init, rest);
        law_totals_are_sums(provider, second, j);
        law_totals_are_sums(provider, first, first.len() - 1);
        assert(first.remove(first.len() - 1) =~= init);
        assert forall|b: Bucket| #[trigger]
            members(provider, first, b).to_multiset() == members(
                provider,
                second,
                b,
            ).to_multiset() by {
            lemma_listed_push(init, lands_in(provider, b), last);
            lemma_listed_remove(second, lands_in(provider, b), j);
            assert(members(provider, init, b).to_multiset() == members(
                provider,
                rest,
                b,
            ).to_multiset());
        }
        lemma_listed_push(init, is_paying(provider), last);
        lemma_listed_remove(second, is_paying(provider), j);
    }
}

} // verus!
