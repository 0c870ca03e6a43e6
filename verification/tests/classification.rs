use aicheck::classify::{classify_batch, detail, Report, Totals};
use aicheck::deepseek;
use aicheck::gemini;
use aicheck::ppinfra;
use aicheck::probe::{Decoded, ProbeOutcome};
use aicheck::rules::{Bucket, Provider};
use aicheck::serial::{dispatch, DispatchError};
use aicheck::siliconflow::{self, Data, UserInfo};

fn strings(items: &[&str]) -> Vec<String> {
    items.iter().map(|s| s.to_string()).collect()
}

fn balance(total: &str) -> ProbeOutcome {
    ProbeOutcome::Response {
        status_code: 200,
        body_text: format!("{{\"total\":\"{}\"}}", total),
        decoded: Decoded::DeepSeek(deepseek::UserBalance {
            is_available: true,
            balance_infos: vec![deepseek::BalanceInfo {
                currency: "CNY".to_string(),
                total_balance: total.to_string(),
                granted_balance: "0".to_string(),
                topped_up_balance: total.to_string(),
            }],
        }),
    }
}

fn account(status: &str, charge: &str, total: &str) -> ProbeOutcome {
    ProbeOutcome::Response {
        status_code: 200,
        body_text: String::new(),
        decoded: Decoded::SiliconFlow(UserInfo {
            data: Data {
                balance: total.to_string(),
                status: status.to_string(),
                charge_balance: charge.to_string(),
                total_balance: total.to_string(),
            },
        }),
    }
}

fn status(status_code: u16, text: &str) -> ProbeOutcome {
    ProbeOutcome::Response { status_code, body_text: text.to_string(), decoded: Decoded::Nothing }
}

fn failure(detail: &str) -> ProbeOutcome {
    ProbeOutcome::TransportFailure { error_detail: detail.to_string() }
}

fn pairs(items: Vec<(&str, ProbeOutcome)>) -> Vec<(String, ProbeOutcome)> {
    items.into_iter().map(|(k, o)| (k.to_string(), o)).collect()
}

fn all_buckets(report: &Report) -> Vec<String> {
    let mut all = Vec::new();
    for bucket in [
        Bucket::Valid,
        Bucket::ZeroBalance,
        Bucket::Disabled,
        Bucket::Forbidden,
        Bucket::LocationRestricted,
        Bucket::Unknown,
    ] {
        all.extend(report.in_bucket(bucket).iter().cloned());
    }
    all
}

#[test]
fn three_credentials_land_as_expected() {
    let credentials = strings(&["a", "b", "c"]);
    let probe = |credential: &String| match credential.as_str() {
        "a" => balance("10"),
        "b" => balance("0"),
        _ => failure("operation timed out"),
    };
    let done = dispatch(&credentials, 1_000_000_000, probe, |until| until, |_| ()).unwrap();
    let report = classify_batch(Provider::DeepSeek, &done.pairs);
    assert_eq!(report.valid, strings(&["a"]));
    assert_eq!(report.zero_balance, strings(&["b"]));
    assert_eq!(report.unknown, strings(&["c"]));
    assert!(report.disabled.is_empty());
    assert!(report.forbidden.is_empty());
    assert!(report.location_restricted.is_empty());
    assert!(report.pro.is_empty());
    assert_eq!(report.totals, Totals { total: 10_000_000_000, pro: 0 });
    assert_eq!(report.totals.total as f64 / 1e9, 10.0);
}

#[test]
fn every_credential_lands_in_exactly_one_bucket() {
    let batch = pairs(vec![
        ("k1", account("normal", "1", "5")),
        ("k2", account("disable", "1", "5")),
        ("k3", account("normal", "0", "0")),
        ("k4", status(401, "no")),
        ("k5", failure("reset")),
        ("k6", account("normal", "0", "2")),
    ]);
    let report = classify_batch(Provider::SiliconFlow, &batch);
    let mut listed = all_buckets(&report);
    assert_eq!(listed.len(), batch.len());
    listed.sort();
    assert_eq!(listed, strings(&["k1", "k2", "k3", "k4", "k5", "k6"]));
    assert_eq!(report.valid, strings(&["k1", "k6"]));
    assert_eq!(report.disabled, strings(&["k2"]));
    assert_eq!(report.zero_balance, strings(&["k3"]));
    assert_eq!(report.forbidden, strings(&["k4", "k5"]));
    assert_eq!(report.pro, strings(&["k1"]));
    assert_eq!(report.details.len(), batch.len());
}

#[test]
fn a_credential_listed_twice_is_counted_twice() {
    let batch = pairs(vec![("k", balance("1")), ("k", balance("0")), ("k", balance("2.5"))]);
    let report = classify_batch(Provider::DeepSeek, &batch);
    assert_eq!(report.valid, strings(&["k", "k"]));
    assert_eq!(report.zero_balance, strings(&["k"]));
    assert_eq!(all_buckets(&report).len(), 3);
    assert_eq!(report.totals.total, 3_500_000_000);
}

#[test]
fn an_empty_batch_gives_an_empty_report() {
    let report = classify_batch(Provider::Gemini, &Vec::new());
    assert!(all_buckets(&report).is_empty());
    assert!(report.pro.is_empty());
    assert!(report.details.is_empty());
    assert_eq!(report.totals, Totals { total: 0, pro: 0 });
}

#[test]
fn a_failed_probe_lands_once_and_counts_for_nothing() {
    for provider in [Provider::DeepSeek, Provider::Ppinfra, Provider::SiliconFlow, Provider::Gemini, Provider::GeminiModel] {
        let batch = pairs(vec![("K", failure("connect error"))]);
        let report = classify_batch(provider, &batch);
        assert_eq!(all_buckets(&report), strings(&["K"]));
        let expected = if provider == Provider::SiliconFlow { Bucket::Forbidden } else { Bucket::Unknown };
        assert_eq!(report.in_bucket(expected), &strings(&["K"]));
        assert!(report.pro.is_empty());
        assert_eq!(report.totals, Totals { total: 0, pro: 0 });
        assert_eq!(report.details[0].status_code, None);
        assert_eq!(report.details[0].note, "connect error");
    }
    let batch = pairs(vec![("a", balance("4")), ("K", failure("timeout")), ("b", balance("6"))]);
    let with = classify_batch(Provider::DeepSeek, &batch);
    let without = classify_batch(Provider::DeepSeek, &pairs(vec![("a", balance("4")), ("b", balance("6"))]));
    assert_eq!(with.totals, without.totals);
    assert_eq!(with.totals.total, 10_000_000_000);
    assert_eq!(with.unknown, strings(&["K"]));
}

#[test]
fn a_disabled_account_is_only_disabled() {
    let batch = pairs(vec![("d", account("disable", "7", "9")), ("v", account("ok", "1", "2"))]);
    let report = classify_batch(Provider::SiliconFlow, &batch);
    assert_eq!(report.disabled, strings(&["d"]));
    assert_eq!(report.valid, strings(&["v"]));
    assert_eq!(report.pro, strings(&["v"]));
    assert_eq!(report.totals, Totals { total: 2_000_000_000, pro: 1_000_000_000 });
    assert_eq!(siliconflow::check_resp(&batch).report, report);
}

#[test]
fn only_valid_balances_are_summed() {
    let batch = pairs(vec![
        ("a", balance("1.5")),
        ("b", balance("junk")),
        ("c", balance("2.25")),
        ("d", status(500, "")),
        ("e", balance("-4")),
    ]);
    let report = deepseek::check_resp(&batch).report;
    assert_eq!(report.totals.total, 3_750_000_000);
    assert_eq!(report.valid, strings(&["a", "c"]));
    assert_eq!(report.zero_balance, strings(&["b", "e"]));
    assert_eq!(report.unknown, strings(&["d"]));
}

#[test]
fn totals_do_not_run_over() {
    let huge = "18446744073.709551615";
    let batch = pairs(vec![("a", balance(huge)), ("b", balance(huge)), ("c", balance(huge))]);
    let report = classify_batch(Provider::DeepSeek, &batch);
    assert_eq!(report.totals.total, 3 * (u64::MAX as u128));
}

#[test]
fn classifying_twice_gives_the_same_report() {
    let batch = pairs(vec![
        ("k1", status(200, "")),
        ("k2", status(403, "PERMISSION_DENIED")),
        ("k3", status(403, "elsewhere")),
        ("k4", status(429, "slow down")),
        ("k5", failure("x")),
    ]);
    let first = classify_batch(Provider::GeminiModel, &batch);
    let second = classify_batch(Provider::GeminiModel, &batch);
    assert_eq!(first, second);
    assert_eq!(first, gemini::check_resp(&batch, true).report);
    assert_eq!(first.valid, strings(&["k1"]));
    assert_eq!(first.forbidden, strings(&["k2"]));
    assert_eq!(first.location_restricted, strings(&["k3"]));
    assert_eq!(first.zero_balance, strings(&["k4"]));
    assert_eq!(first.unknown, strings(&["k5"]));
}

#[test]
fn the_order_of_the_batch_does_not_change_who_lands_where() {
    let forward = pairs(vec![("a", balance("1")), ("b", balance("0")), ("c", balance("2"))]);
    let backward = pairs(vec![("c", balance("2")), ("b", balance("0")), ("a", balance("1"))]);
    let one = classify_batch(Provider::DeepSeek, &forward);
    let other = classify_batch(Provider::DeepSeek, &backward);
    assert_eq!(one.totals, other.totals);
    assert_eq!(one.valid, strings(&["a", "c"]));
    assert_eq!(other.valid, strings(&["c", "a"]));
    assert_eq!(one.zero_balance, other.zero_balance);
}

#[test]
fn gemini_listing_and_prompt_rules_differ() {
    let batch = pairs(vec![("k", status(403, "somewhere else"))]);
    assert_eq!(gemini::check_resp(&batch, false).report.forbidden, strings(&["k"]));
    assert_eq!(gemini::check_resp(&batch, true).report.location_restricted, strings(&["k"]));
}

#[test]
fn ppinfra_batches_go_by_ppinfra_rules() {
    let report = |text: &str| ProbeOutcome::Response {
        status_code: 200,
        body_text: String::new(),
        decoded: Decoded::Ppinfra(ppinfra::BalanceInfo { credit_balance: text.to_string() }),
    };
    let batch = pairs(vec![("pp-a", report("12")), ("pp-b", report("0")), ("pp-c", balance("5"))]);
    let r = ppinfra::check_resp(&batch).report;
    assert_eq!(r.valid, strings(&["pp-a"]));
    assert_eq!(r.zero_balance, strings(&["pp-b"]));
    assert_eq!(r.unknown, strings(&["pp-c"]));
    assert_eq!(r.totals.total, 12_000_000_000);
}

#[test]
fn a_detail_record_keeps_what_was_seen() {
    let credential = "AIza".to_string();
    let record = detail(Provider::GeminiModel, &credential, &status(403, "{\n \"status\":  \"PERMISSION_DENIED\"\n}"));
    assert_eq!(record.credential, "AIza");
    assert_eq!(record.verdict.bucket, Bucket::Forbidden);
    assert_eq!(record.status_code, Some(403));
    assert_eq!(record.note, "{ \"status\": \"PERMISSION_DENIED\" }");
    let record = detail(Provider::Gemini, &credential, &status(403, " raw  text "));
    assert_eq!(record.note, " raw  text ");
    let record = detail(Provider::DeepSeek, &credential, &balance("3"));
    assert_eq!(record.verdict.balance, 3_000_000_000);
    assert_eq!(record.status_code, Some(200));
}

#[test]
fn checking_probes_classifies_and_says_what_to_write() {
    let credentials = strings(&["a", "b", "c"]);
    let probe = |credential: &String| match credential.as_str() {
        "a" => balance("10"),
        "b" => balance("0"),
        _ => failure("operation timed out"),
    };
    let checked = deepseek::check(&credentials, 3, probe, |until| until, |_| ()).unwrap();
    assert_eq!(checked.report.valid, strings(&["a"]));
    assert_eq!(checked.report.zero_balance, strings(&["b"]));
    assert_eq!(checked.report.unknown, strings(&["c"]));
    assert_eq!(checked.report.totals.total as f64 / 1e9, 10.0);
    assert_eq!(checked.summary, "total: 10");
    let names: Vec<&str> = checked.files.iter().map(|f| f.name.as_str()).collect();
    assert_eq!(
        names,
        vec!["deepseek_key", "deepseek_no_balance_keys", "deepseek_invalid_keys", "deepseek_detail.csv"]
    );
    assert_eq!(
        checked.files[3].contents,
        "key, total_balance\na, 10\nb, 0\nc, operation timed out\n"
    );
}

#[test]
fn every_provider_checks_by_its_own_rules() {
    let credentials = strings(&["k"]);
    let paying = |_: &String| account("normal", "1.5", "2");
    let checked = siliconflow::check(&credentials, 1, paying, |until| until, |_| ()).unwrap();
    assert_eq!(checked.report.valid, credentials);
    assert_eq!(checked.report.pro, credentials);
    assert_eq!(checked.summary, "total: 2, pro: 1.5");
    assert_eq!(checked, siliconflow::check_resp(&pairs(vec![("k", account("normal", "1.5", "2"))])));
    let denied = |_: &String| status(403, "PERMISSION_DENIED");
    let checked = gemini::check(&credentials, 1, true, denied, |until| until, |_| ()).unwrap();
    assert_eq!(checked.report.forbidden, credentials);
    assert_eq!(checked.summary, "done");
    let elsewhere = |_: &String| status(403, "not here");
    let checked = gemini::check(&credentials, 1, true, elsewhere, |until| until, |_| ()).unwrap();
    assert_eq!(checked.report.location_restricted, credentials);
    let checked = gemini::check(&credentials, 1, false, elsewhere, |until| until, |_| ()).unwrap();
    assert_eq!(checked.report.forbidden, credentials);
    let checked = ppinfra::check(&credentials, 1, elsewhere, |until| until, |_| ()).unwrap();
    assert_eq!(checked.report.unknown, credentials);
    assert_eq!(checked.summary, "total: 0");
}

#[test]
fn checking_needs_a_rate() {
    let credentials = strings(&["k"]);
    let probe = |_: &String| failure("never asked");
    assert_eq!(deepseek::check(&credentials, 0, probe, |until| until, |_| ()), Err(DispatchError::NoRate));
    assert_eq!(siliconflow::check(&credentials, 0, probe, |until| until, |_| ()), Err(DispatchError::NoRate));
    assert_eq!(ppinfra::check(&credentials, 0, probe, |until| until, |_| ()), Err(DispatchError::NoRate));
    assert_eq!(gemini::check(&credentials, 0, true, probe, |until| until, |_| ()), Err(DispatchError::NoRate));
}
