use aicheck::classify::{classify_batch, Totals};
use aicheck::deepseek;
use aicheck::errors::AppError;
use aicheck::files::{
    conclude,
    bucket_file_name, detail_file_name, file_stem, header, output_files, pro_file_name, record_line, summary,
    OutputFile,
};
use aicheck::gemini;
use aicheck::ppinfra;
use aicheck::probe::{bearer_get, Decoded, Method, ProbeOutcome, ProbeRequest, STATUS_OK};
use aicheck::rules::{Bucket, Provider};
use aicheck::siliconflow::{self, Data, UserInfo};

fn written(name: &str, contents: &str) -> OutputFile {
    OutputFile { name: name.to_string(), contents: contents.to_string() }
}

fn balance(total: &str) -> ProbeOutcome {
    ProbeOutcome::Response {
        status_code: 200,
        body_text: String::new(),
        decoded: Decoded::DeepSeek(deepseek::UserBalance {
            is_available: true,
            balance_infos: vec![deepseek::BalanceInfo {
                currency: "CNY".to_string(),
                total_balance: total.to_string(),
                granted_balance: "0".to_string(),
                topped_up_balance: total.to_string(),
            }],
        }),
    }
}

fn account(status: &str, charge: &str, total: &str) -> ProbeOutcome {
    ProbeOutcome::Response {
        status_code: 200,
        body_text: String::new(),
        decoded: Decoded::SiliconFlow(UserInfo {
            data: Data {
                balance: total.to_string(),
                status: status.to_string(),
                charge_balance: charge.to_string(),
                total_balance: total.to_string(),
            },
        }),
    }
}

fn status(status_code: u16, text: &str) -> ProbeOutcome {
    ProbeOutcome::Response { status_code, body_text: text.to_string(), decoded: Decoded::Nothing }
}

fn failure(detail: &str) -> ProbeOutcome {
    ProbeOutcome::TransportFailure { error_detail: detail.to_string() }
}

#[test]
fn file_names_follow_the_provider() {
    assert_eq!(file_stem(Provider::DeepSeek), "deepseek");
    assert_eq!(file_stem(Provider::GeminiModel), "gemini");
    assert_eq!(bucket_file_name(Provider::DeepSeek, Bucket::Valid), "deepseek_key");
    assert_eq!(bucket_file_name(Provider::DeepSeek, Bucket::ZeroBalance), "deepseek_no_balance_keys");
    assert_eq!(bucket_file_name(Provider::DeepSeek, Bucket::Unknown), "deepseek_invalid_keys");
    assert_eq!(bucket_file_name(Provider::Ppinfra, Bucket::Valid), "ppinfra_key");
    assert_eq!(bucket_file_name(Provider::Ppinfra, Bucket::Unknown), "ppinfra_invalid_keys");
    assert_eq!(bucket_file_name(Provider::SiliconFlow, Bucket::Valid), "siliconflow_key");
    assert_eq!(bucket_file_name(Provider::SiliconFlow, Bucket::ZeroBalance), "siliconflow_no_balance_keys");
    assert_eq!(bucket_file_name(Provider::SiliconFlow, Bucket::Disabled), "siliconflow_disable_keys");
    assert_eq!(bucket_file_name(Provider::SiliconFlow, Bucket::Forbidden), "siliconflow_invalid_keys");
    assert_eq!(bucket_file_name(Provider::Gemini, Bucket::Valid), "gemini_key");
    assert_eq!(bucket_file_name(Provider::Gemini, Bucket::ZeroBalance), "gemini_429_keys");
    assert_eq!(bucket_file_name(Provider::GeminiModel, Bucket::Forbidden), "gemini_invalid_keys");
    assert_eq!(bucket_file_name(Provider::GeminiModel, Bucket::Unknown), "gemini_unknow_err_key");
    assert_eq!(
        bucket_file_name(Provider::GeminiModel, Bucket::LocationRestricted),
        "gemini_location_err_key"
    );
    assert_eq!(pro_file_name(Provider::SiliconFlow), "siliconflow_pro_key");
    assert_eq!(detail_file_name(Provider::Gemini), "gemini_detail.csv");
    assert_eq!(detail_file_name(Provider::DeepSeek), "deepseek_detail.csv");
}

#[test]
fn buckets_in_use_have_files_of_their_own() {
    let used = |provider| -> Vec<Bucket> {
        match provider {
            Provider::DeepSeek | Provider::Ppinfra => vec![Bucket::Valid, Bucket::ZeroBalance, Bucket::Unknown],
            Provider::SiliconFlow => {
                vec![Bucket::Valid, Bucket::ZeroBalance, Bucket::Disabled, Bucket::Forbidden]
            }
            Provider::Gemini => vec![Bucket::Valid, Bucket::ZeroBalance, Bucket::Forbidden, Bucket::Unknown],
            Provider::GeminiModel => vec![
                Bucket::Valid,
                Bucket::ZeroBalance,
                Bucket::Forbidden,
                Bucket::LocationRestricted,
                Bucket::Unknown,
            ],
        }
    };
    for provider in [Provider::DeepSeek, Provider::Ppinfra, Provider::SiliconFlow, Provider::Gemini, Provider::GeminiModel] {
        let mut names: Vec<String> = used(provider).into_iter().map(|b| bucket_file_name(provider, b)).collect();
        names.push(pro_file_name(provider));
        names.push(detail_file_name(provider));
        let count = names.len();
        names.sort();
        names.dedup();
        assert_eq!(names.len(), count);
    }
}

#[test]
fn headers_name_the_columns() {
    assert_eq!(header(Provider::DeepSeek), "key, total_balance");
    assert_eq!(header(Provider::Ppinfra), "key, total_balance");
    assert_eq!(header(Provider::SiliconFlow), "key, charge_balance, total_balance");
    assert_eq!(header(Provider::Gemini), "key, status_code, text");
    assert_eq!(header(Provider::GeminiModel), "key, status_code, text");
}

#[test]
fn detail_lines_show_what_was_seen() {
    let report = classify_batch(
        Provider::SiliconFlow,
        &vec![
            ("k1".to_string(), account("normal", "2.50", "13.9876")),
            ("k2".to_string(), account("disable", "0", "1")),
            ("k3".to_string(), status(401, "Invalid token")),
            ("k4".to_string(), failure("timed out")),
        ],
    );
    let lines: Vec<String> = report.details.iter().map(|r| record_line(Provider::SiliconFlow, r)).collect();
    assert_eq!(lines, vec!["k1, 2.5, 13.9876", "k2, 0, 1", "k3, 401, Invalid token", "k4, timed out"]);
    let report = classify_batch(
        Provider::DeepSeek,
        &vec![("a".to_string(), balance("10.00")), ("b".to_string(), balance("x")), ("c".to_string(), status(402, "pay"))],
    );
    let lines: Vec<String> = report.details.iter().map(|r| record_line(Provider::DeepSeek, r)).collect();
    assert_eq!(lines, vec!["a, 10", "b, 0", "c, 402, pay"]);
    let report = classify_batch(
        Provider::GeminiModel,
        &vec![("g".to_string(), status(200, "{\n \"ok\": true\n}")), ("h".to_string(), status(65535, ""))],
    );
    let lines: Vec<String> = report.details.iter().map(|r| record_line(Provider::GeminiModel, r)).collect();
    assert_eq!(lines, vec!["g, 200, { \"ok\": true }", "h, 65535, "]);
}

#[test]
fn totals_are_summed_up_in_words() {
    assert_eq!(summary(Provider::DeepSeek, Totals { total: 10_000_000_000, pro: 0 }), "total: 10");
    assert_eq!(summary(Provider::Ppinfra, Totals { total: 1_500_000_000, pro: 9 }), "total: 1.5");
    assert_eq!(
        summary(Provider::SiliconFlow, Totals { total: 13_250_000_000, pro: 500_000_000 }),
        "total: 13.25, pro: 0.5"
    );
    assert_eq!(summary(Provider::Gemini, Totals { total: 1, pro: 1 }), "done");
    assert_eq!(summary(Provider::GeminiModel, Totals { total: 0, pro: 0 }), "done");
}

#[test]
fn a_report_becomes_its_files() {
    let report = classify_batch(
        Provider::SiliconFlow,
        &vec![
            ("k1".to_string(), account("normal", "2", "13")),
            ("k2".to_string(), account("disable", "0", "1")),
            ("k3".to_string(), account("normal", "0", "4")),
            ("k4".to_string(), failure("timed out")),
        ],
    );
    assert_eq!(
        output_files(Provider::SiliconFlow, &report),
        vec![
            written("siliconflow_key", "k1\nk3\n"),
            written("siliconflow_disable_keys", "k2\n"),
            written("siliconflow_invalid_keys", "k4\n"),
            written("siliconflow_pro_key", "k1\n"),
            written(
                "siliconflow_detail.csv",
                "key, charge_balance, total_balance\nk1, 2, 13\nk2, 0, 1\nk3, 0, 4\nk4, timed out\n"
            ),
        ]
    );
}

#[test]
fn an_empty_report_still_has_its_details() {
    let report = classify_batch(Provider::Gemini, &Vec::new());
    assert_eq!(
        output_files(Provider::Gemini, &report),
        vec![written("gemini_detail.csv", "key, status_code, text\n")]
    );
}

#[test]
fn deepseek_files_keep_their_names() {
    let checked = deepseek::check_resp(&vec![
        ("a".to_string(), balance("1")),
        ("b".to_string(), balance("0")),
        ("c".to_string(), failure("boom")),
    ]);
    assert_eq!(checked.summary, "total: 1");
    assert_eq!(checked.files, output_files(Provider::DeepSeek, &checked.report));
    assert_eq!(
        checked.files,
        vec![
            written("deepseek_key", "a\n"),
            written("deepseek_no_balance_keys", "b\n"),
            written("deepseek_invalid_keys", "c\n"),
            written("deepseek_detail.csv", "key, total_balance\na, 1\nb, 0\nc, boom\n"),
        ]
    );
}

#[test]
fn bearer_requests_carry_the_credential_in_the_header() {
    assert_eq!(STATUS_OK, 200);
    let expected = |url: &str| ProbeRequest {
        method: Method::Get,
        url: url.to_string(),
        authorization: Some("Bearer sk-123".to_string()),
        body: None,
    };
    assert_eq!(deepseek::get_balance("sk-123"), expected("https://api.deepseek.com/user/balance"));
    assert_eq!(ppinfra::get_balance("sk-123"), expected("https://api.ppinfra.com/v3/user"));
    assert_eq!(siliconflow::get_userinfo("sk-123"), expected("https://api.siliconflow.cn/v1/user/info"));
    assert_eq!(bearer_get("http://x/y", "sk-123"), expected("http://x/y"));
    assert_eq!(bearer_get("u", "").authorization, Some("Bearer ".to_string()));
}

#[test]
fn gemini_requests_carry_the_credential_in_the_address() {
    assert_eq!(
        gemini::list_model("AIza-1"),
        ProbeRequest {
            method: Method::Get,
            url: "https://generativelanguage.googleapis.com/v1beta/models?key=AIza-1".to_string(),
            authorization: None,
            body: None,
        }
    );
    assert_eq!(
        gemini::say_hi("AIza-1", "gemini-pro"),
        ProbeRequest {
            method: Method::Post,
            url: "https://generativelanguage.googleapis.com/v1beta/models/gemini-pro:generateContent?key=AIza-1"
                .to_string(),
            authorization: None,
            body: Some("{\"contents\":[{\"parts\":[{\"text\":\"hi\"}]}]}".to_string()),
        }
    );
}

#[test]
fn an_error_says_what_was_received() {
    let error = AppError::ResponseError("`404 Not Found`: `oops`, missing field".to_string());
    assert_eq!(error.message(), "response error:``404 Not Found`: `oops`, missing field`");
    assert_eq!(AppError::ResponseError(String::new()).message(), "response error:``");
}

#[test]
fn ppinfra_reports_its_balance_or_what_it_got() {
    let info = ppinfra::BalanceInfo { credit_balance: "5000".to_string() };
    assert_eq!(info.total_balance(), 5_000_000_000_000);
    assert_eq!(ppinfra::total_balance(200, "{}", Ok(info)), Ok(5_000_000_000_000));
    let info = ppinfra::BalanceInfo { credit_balance: "12.5".to_string() };
    assert_eq!(ppinfra::total_balance(200, "{}", Ok(info)), Ok(12_500_000_000));
    let info = ppinfra::BalanceInfo { credit_balance: "-1".to_string() };
    assert_eq!(ppinfra::total_balance(404, "{}", Ok(info)), Ok(0));
    assert_eq!(
        ppinfra::total_balance(401, "{\"code\":401}", Err("Error(\"missing field\")".to_string())),
        Err(AppError::ResponseError(
            "`401 Unauthorized`: `{\"code\":401}`, Error(\"missing field\")".to_string()
        ))
    );
    assert_eq!(
        ppinfra::total_balance(200, "[]", Err("why".to_string())),
        Err(AppError::ResponseError("`200 OK`: `[]`, why".to_string()))
    );
    assert_eq!(
        ppinfra::total_balance(599, "", Err(String::new())),
        Err(AppError::ResponseError("`599 <unknown status code>`: ``, ".to_string()))
    );
    assert_eq!(
        ppinfra::total_balance(99, "x", Err("y".to_string())),
        Err(AppError::ResponseError("`99`: `x`, y".to_string()))
    );
    assert_eq!(
        ppinfra::total_balance(1000, "x", Err("y".to_string())),
        Err(AppError::ResponseError("`1000`: `x`, y".to_string()))
    );
    assert_eq!(
        ppinfra::response_error("404 Not Found", "gone", "no report"),
        AppError::ResponseError("`404 Not Found`: `gone`, no report".to_string())
    );
}

#[test]
fn deepseek_reports_the_first_balance() {
    let report = |totals: &[&str]| deepseek::UserBalance {
        is_available: true,
        balance_infos: totals
            .iter()
            .map(|t| deepseek::BalanceInfo {
                currency: "USD".to_string(),
                total_balance: t.to_string(),
                granted_balance: String::new(),
                topped_up_balance: String::new(),
            })
            .collect(),
    };
    assert_eq!(report(&["2.5", "100"]).total_balance(), 2_500_000_000);
    assert_eq!(report(&[]).total_balance(), 0);
    assert_eq!(report(&["?"]).total_balance(), 0);
}

#[test]
fn a_disabled_status_is_spelled_disable() {
    let data = |status: &str| Data {
        balance: String::new(),
        status: status.to_string(),
        charge_balance: String::new(),
        total_balance: String::new(),
    };
    assert!(data("disable").is_disabled());
    assert!(!data("disabled").is_disabled());
    assert!(!data("normal").is_disabled());
    assert!(!data("").is_disabled());
}

#[test]
fn concluding_gathers_report_files_and_summary() {
    let batch = vec![
        ("k1".to_string(), account("normal", "2", "13")),
        ("k2".to_string(), failure("timed out")),
    ];
    let checked = conclude(Provider::SiliconFlow, &batch);
    assert_eq!(checked.report, classify_batch(Provider::SiliconFlow, &batch));
    assert_eq!(checked.files, output_files(Provider::SiliconFlow, &checked.report));
    assert_eq!(checked.summary, "total: 13, pro: 2");
    assert_eq!(checked, siliconflow::check_resp(&batch));
}
