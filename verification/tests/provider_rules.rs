use aicheck::deepseek;
use aicheck::gemini;
use aicheck::ppinfra;
use aicheck::probe::{Decoded, ProbeOutcome};
use aicheck::rules::{judge, Bucket, Provider, Verdict};
use aicheck::siliconflow::{self, Data, UserInfo};

fn response(status_code: u16, body_text: &str, decoded: Decoded) -> ProbeOutcome {
    ProbeOutcome::Response { status_code, body_text: body_text.to_string(), decoded }
}

fn failure(detail: &str) -> ProbeOutcome {
    ProbeOutcome::TransportFailure { error_detail: detail.to_string() }
}

fn deepseek_report(totals: &[&str]) -> Decoded {
    Decoded::DeepSeek(deepseek::UserBalance {
        is_available: true,
        balance_infos: totals
            .iter()
            .map(|t| deepseek::BalanceInfo {
                currency: "CNY".to_string(),
                total_balance: t.to_string(),
                granted_balance: "0.00".to_string(),
                topped_up_balance: t.to_string(),
            })
            .collect(),
    })
}

fn account(status: &str, charge: &str, total: &str) -> Decoded {
    Decoded::SiliconFlow(UserInfo {
        data: Data {
            balance: total.to_string(),
            status: status.to_string(),
            charge_balance: charge.to_string(),
            total_balance: total.to_string(),
        },
    })
}

fn plain(bucket: Bucket) -> Verdict {
    Verdict { bucket, pro: false, balance: 0, charge: 0 }
}

#[test]
fn deepseek_counts_by_the_first_balance() {
    let v = judge(Provider::DeepSeek, &response(200, "{}", deepseek_report(&["10.00", "0"])));
    assert_eq!(v, Verdict { bucket: Bucket::Valid, pro: false, balance: 10_000_000_000, charge: 0 });
    let v = judge(Provider::DeepSeek, &response(200, "{}", deepseek_report(&["0.00", "5"])));
    assert_eq!(v, plain(Bucket::ZeroBalance));
}

#[test]
fn deepseek_reads_an_unreadable_balance_as_zero() {
    for total in ["", "n/a", "-3", "1e", "inf", "NaN"] {
        let v = deepseek::judge(&response(200, "{}", deepseek_report(&[total])));
        assert_eq!(v, plain(Bucket::ZeroBalance));
    }
    assert_eq!(deepseek::judge(&response(200, "{}", deepseek_report(&[]))), plain(Bucket::ZeroBalance));
}

#[test]
fn deepseek_knows_nothing_without_an_accepted_report() {
    assert_eq!(deepseek::judge(&response(401, "unauthorized", Decoded::Nothing)), plain(Bucket::Unknown));
    assert_eq!(deepseek::judge(&response(200, "<html>", Decoded::Nothing)), plain(Bucket::Unknown));
    assert_eq!(deepseek::judge(&response(500, "{}", deepseek_report(&["10"]))), plain(Bucket::Unknown));
    assert_eq!(deepseek::judge(&response(200, "{}", account("ok", "1", "1"))), plain(Bucket::Unknown));
    assert_eq!(deepseek::judge(&failure("timed out")), plain(Bucket::Unknown));
}

#[test]
fn ppinfra_counts_by_the_credit_balance() {
    let report = |text: &str| Decoded::Ppinfra(ppinfra::BalanceInfo { credit_balance: text.to_string() });
    let v = judge(Provider::Ppinfra, &response(200, "{}", report("5000")));
    assert_eq!(v, Verdict { bucket: Bucket::Valid, pro: false, balance: 5_000_000_000_000, charge: 0 });
    assert_eq!(ppinfra::judge(&response(200, "{}", report("0"))), plain(Bucket::ZeroBalance));
    assert_eq!(ppinfra::judge(&response(200, "{}", report("-12.5"))), plain(Bucket::ZeroBalance));
    assert_eq!(ppinfra::judge(&response(403, "{}", report("5000"))), plain(Bucket::Unknown));
    assert_eq!(ppinfra::judge(&response(200, "oops", Decoded::Nothing)), plain(Bucket::Unknown));
    assert_eq!(ppinfra::judge(&failure("dns")), plain(Bucket::Unknown));
}

#[test]
fn siliconflow_counts_by_the_total_and_marks_the_paying() {
    let v = judge(Provider::SiliconFlow, &response(200, "{}", account("normal", "2.5", "13.9876")));
    assert_eq!(
        v,
        Verdict { bucket: Bucket::Valid, pro: true, balance: 13_987_600_000, charge: 2_500_000_000 }
    );
    let v = siliconflow::judge(&response(200, "{}", account("normal", "0", "14")));
    assert_eq!(v, Verdict { bucket: Bucket::Valid, pro: false, balance: 14_000_000_000, charge: 0 });
    let v = siliconflow::judge(&response(200, "{}", account("normal", "0", "0")));
    assert_eq!(v, plain(Bucket::ZeroBalance));
    let v = siliconflow::judge(&response(200, "{}", account("normal", "3", "oops")));
    assert_eq!(v, Verdict { bucket: Bucket::ZeroBalance, pro: true, balance: 0, charge: 3_000_000_000 });
}

#[test]
fn siliconflow_disabled_is_disabled_whatever_the_balances() {
    let v = judge(Provider::SiliconFlow, &response(200, "{}", account("disable", "2.5", "13")));
    assert_eq!(v.bucket, Bucket::Disabled);
    assert!(!v.pro);
    let v = siliconflow::judge(&response(200, "{}", account("disable", "0", "0")));
    assert_eq!(v.bucket, Bucket::Disabled);
    assert!(!v.pro);
    let v = siliconflow::judge(&response(200, "{}", account("disabled", "1", "1")));
    assert_eq!(v.bucket, Bucket::Valid);
}

#[test]
fn siliconflow_forbids_what_it_cannot_read() {
    assert_eq!(siliconflow::judge(&response(401, "Invalid token", Decoded::Nothing)), plain(Bucket::Forbidden));
    assert_eq!(siliconflow::judge(&response(200, "[]", Decoded::Nothing)), plain(Bucket::Forbidden));
    assert_eq!(
        siliconflow::judge(&response(403, "{}", account("normal", "1", "1"))),
        plain(Bucket::Forbidden)
    );
    assert_eq!(siliconflow::judge(&failure("connection reset")), plain(Bucket::Forbidden));
}

#[test]
fn gemini_listing_goes_by_the_status() {
    let bucket = |status| judge(Provider::Gemini, &response(status, "", Decoded::Nothing)).bucket;
    assert_eq!(bucket(200), Bucket::Valid);
    assert_eq!(bucket(429), Bucket::ZeroBalance);
    assert_eq!(bucket(400), Bucket::Forbidden);
    assert_eq!(bucket(401), Bucket::Forbidden);
    assert_eq!(bucket(403), Bucket::Forbidden);
    assert_eq!(bucket(404), Bucket::Unknown);
    assert_eq!(bucket(500), Bucket::Unknown);
    assert_eq!(bucket(0), Bucket::Unknown);
    assert_eq!(gemini::judge(&failure("timeout")), plain(Bucket::Unknown));
    assert_eq!(
        gemini::judge(&response(403, "no PERMISSION_DENIED here", Decoded::Nothing)),
        plain(Bucket::Forbidden)
    );
}

#[test]
fn gemini_prompt_goes_by_status_and_text() {
    let bucket =
        |status, text: &str| judge(Provider::GeminiModel, &response(status, text, Decoded::Nothing)).bucket;
    assert_eq!(bucket(200, "anything"), Bucket::Valid);
    assert_eq!(bucket(200, "PERMISSION_DENIED"), Bucket::Valid);
    assert_eq!(bucket(403, "PERMISSION_DENIED"), Bucket::Forbidden);
    assert_eq!(bucket(403, "{\"status\": \"PERMISSION_DENIED\"}"), Bucket::Forbidden);
    assert_eq!(bucket(403, "User location is not supported"), Bucket::LocationRestricted);
    assert_eq!(bucket(403, ""), Bucket::LocationRestricted);
    assert_eq!(bucket(400, "User location is not supported for the API use."), Bucket::LocationRestricted);
    assert_eq!(bucket(400, "User location\n   is   not\tsupported"), Bucket::LocationRestricted);
    assert_eq!(bucket(400, "API key not valid"), Bucket::Forbidden);
    assert_eq!(bucket(401, "location is not supported"), Bucket::Forbidden);
    assert_eq!(
        bucket(429, "Quota exceeded for quota metric 'Generate Content API requests per minute' and limit"),
        Bucket::Forbidden
    );
    assert_eq!(bucket(429, "Resource has been exhausted"), Bucket::ZeroBalance);
    assert_eq!(bucket(404, "model not found"), Bucket::Unknown);
    assert_eq!(bucket(500, "PERMISSION_DENIED"), Bucket::Unknown);
    assert_eq!(gemini::judge_model(&failure("timeout")), plain(Bucket::Unknown));
}

#[test]
fn verdict_helpers_say_what_they_build() {
    assert_eq!(Verdict::plain(Bucket::Disabled), plain(Bucket::Disabled));
    assert_eq!(Verdict::by_balance(0), plain(Bucket::ZeroBalance));
    assert_eq!(Verdict::by_balance(7), Verdict { bucket: Bucket::Valid, pro: false, balance: 7, charge: 0 });
}

#[test]
fn a_funded_account_is_valid_however_small_or_large_its_balance() {
    let v = deepseek::judge(&response(200, "{}", deepseek_report(&["0.00000000001"])));
    assert_eq!(v, Verdict { bucket: Bucket::Valid, pro: false, balance: 1, charge: 0 });
    let v = deepseek::judge(&response(200, "{}", deepseek_report(&["123456789012345678901234567890"])));
    assert_eq!(v, Verdict { bucket: Bucket::Valid, pro: false, balance: u64::MAX, charge: 0 });
    let v = siliconflow::judge(&response(200, "{}", account("normal", "0.0000000000001", "99999999999999999999")));
    assert_eq!(v, Verdict { bucket: Bucket::Valid, pro: true, balance: u64::MAX, charge: 1 });
}

#[test]
fn a_balance_with_an_exponent_counts_as_the_number_it_denotes() {
    let v = deepseek::judge(&response(200, "{}", deepseek_report(&["1e3"])));
    assert_eq!(v, Verdict { bucket: Bucket::Valid, pro: false, balance: 1_000_000_000_000, charge: 0 });
    let v = deepseek::judge(&response(200, "{}", deepseek_report(&["2.5E-1"])));
    assert_eq!(v, Verdict { bucket: Bucket::Valid, pro: false, balance: 250_000_000, charge: 0 });
    let v = deepseek::judge(&response(200, "{}", deepseek_report(&["0e7"])));
    assert_eq!(v, plain(Bucket::ZeroBalance));
}
