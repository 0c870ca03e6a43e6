//! What is written of a report: one list per bucket, and the details.

use vstd::prelude::*;
use vstd::string::StringExecFns;
use crate::amount::{amount_text, number_text, push_number, render_amount};
use crate::classify::{
    classify_batch, detail_views, texts, DetailRecord, DetailView, Report, Totals,
};
use crate::keys::{render_keys, rendered};
use crate::probe::ProbeOutcome;
use crate::rules::{verdict, Bucket, Provider};
use crate::save_to_file;
use crate::text::string_of;

verus! {

/// What the names of a provider's files start with.
pub open spec fn stem(provider: Provider) -> Seq<char> {
    match provider {
        Provider::DeepSeek => "deepseek"@,
        Provider::Ppinfra => "ppinfra"@,
        Provider::SiliconFlow => "siliconflow"@,
        Provider::Gemini => "gemini"@,
        Provider::GeminiModel => "gemini"@,
    }
}

/// Whether the provider is Gemini, however probed.
pub open spec fn is_gemini(provider: Provider) -> bool {
    provider == Provider::Gemini || provider == Provider::GeminiModel
}

/// Whether the provider reports nothing but a balance.
pub open spec fn is_balance_only(provider: Provider) -> bool {
    provider == Provider::DeepSeek || provider == Provider::Ppinfra
}

/// What the name of the file of a bucket ends with.
pub open spec fn suffix(provider: Provider, bucket: Bucket) -> Seq<char> {
    match bucket {
        Bucket::Valid => "_key"@,
        Bucket::ZeroBalance => if is_gemini(provider) {
            "_429_keys"@
        } else {
            "_no_balance_keys"@
        },
        Bucket::Disabled => "_disable_keys"@,
        Bucket::Forbidden => "_invalid_keys"@,
        Bucket::LocationRestricted => "_location_err_key"@,
        Bucket::Unknown => if is_balance_only(provider) {
            "_invalid_keys"@
        } else {
            "_unknow_err_key"@
        },
    }
}

/// The name of the file that lists a bucket.
pub open spec fn bucket_file(provider: Provider, bucket: Bucket) -> Seq<char> {
    stem(provider) + suffix(provider, bucket)
}

/// The name of the file that lists the paying accounts.
pub open spec fn pro_file(provider: Provider) -> Seq<char> {
    stem(provider) + "_pro_key"@
}

/// The name of the file that holds the details.
pub open spec fn detail_file(provider: Provider) -> Seq<char> {
    stem(provider) + "_detail.csv"@
}

/// The buckets that the rules of a provider can put a credential in.
pub open spec fn in_use(provider: Provider, bucket: Bucket) -> bool {
    match provider {
        Provider::DeepSeek | Provider::Ppinfra => bucket == Bucket::Valid || bucket
            == Bucket::ZeroBalance || bucket == Bucket::Unknown,
        Provider::SiliconFlow => bucket == Bucket::Valid || bucket == Bucket::ZeroBalance
            || bucket == Bucket::Disabled || bucket == Bucket::Forbidden,
        Provider::Gemini => bucket == Bucket::Valid || bucket == Bucket::ZeroBalance || bucket
            == Bucket::Forbidden || bucket == Bucket::Unknown,
        Provider::GeminiModel => bucket != Bucket::Disabled,
    }
}

/// The first line of the details: what each column holds.
pub open spec fn detail_header(provider: Provider) -> Seq<char> {
    match provider {
        Provider::DeepSeek => "key, total_balance"@,
        Provider::Ppinfra => "key, total_balance"@,
        Provider::SiliconFlow => "key, charge_balance, total_balance"@,
        Provider::Gemini => "key, status_code, text"@,
        Provider::GeminiModel => "key, status_code, text"@,
    }
}

/// Whether a record shows balances: the provider reports them, and the
/// verdict went by them.
pub open spec fn shows_balance(provider: Provider, bucket: Bucket) -> bool {
    !is_gemini(provider) && (bucket == Bucket::Valid || bucket == Bucket::ZeroBalance || bucket
        == Bucket::Disabled)
}

/// What a detail line says after the credential: the balances, where the
/// verdict went by them; else the status and the text of the answer; and
/// where no answer arrived, what went wrong.
pub open spec fn detail_fields(provider: Provider, record: DetailView) -> Seq<char> {
    match record.status_code {
        None => record.note,
        Some(status_code) => if shows_balance(provider, record.verdict.bucket) {
            if provider == Provider::SiliconFlow {
                amount_text(record.verdict.charge as nat) + ", "@ + amount_text(
                    record.verdict.balance as nat,
                )
            } else {
                amount_text(record.verdict.balance as nat)
            }
        } else {
            number_text(status_code as nat) + ", "@ + record.note
        },
    }
}

/// The line of one detail record: the credential, a comma, and what is
/// known of it.
pub open spec fn detail_line(provider: Provider, record: DetailView) -> Seq<char> {
    record.credential + ", "@ + detail_fields(provider, record)
}

/// The lines of the details: the header, then one line per record.
pub open spec fn detail_lines(provider: Provider, records: Seq<DetailView>) -> Seq<Seq<char>> {
    seq![detail_header(provider)] + records.map_values(
        |record: DetailView| detail_line(provider, record),
    )
}

/// What is said of the totals at the end of a run.
pub open spec fn summary_text(provider: Provider, totals: Totals) -> Seq<char> {
    if is_gemini(provider) {
        "done"@
    } else if provider == Provider::SiliconFlow {
        "total: "@ + amount_text(totals.total as nat) + ", pro: "@ + amount_text(
            totals.pro as nat,
        )
    } else {
        "total: "@ + amount_text(totals.total as nat)
    }
}

/// A file to be written.
#[derive(Debug, Clone, PartialEq, Eq)]
pub struct OutputFile {
    pub name: String,
    pub contents: String,
}

/// The name and the contents of each of a sequence of files.
pub open spec fn file_views(files: Seq<OutputFile>) -> Seq<(Seq<char>, Seq<char>)> {
    files.map_values(|file: OutputFile| (file.name@, file.contents@))
}

/// The file of a list of credentials: none where the list is empty.
pub open spec fn list_file(name: Seq<char>, keys: Seq<Seq<char>>) -> Seq<(Seq<char>, Seq<char>)> {
    if keys.len() == 0 {
        Seq::empty()
    } else {
        seq![(name, rendered(keys))]
    }
}

/// The files of a report: one for each bucket that is not empty, one for
/// the paying accounts if there are any, and the details.
pub open spec fn files_of(provider: Provider, report: Report) -> Seq<(Seq<char>, Seq<char>)> {
    list_file(bucket_file(provider, Bucket::Valid), report.bucket(Bucket::Valid)) + list_file(
        bucket_file(provider, Bucket::ZeroBalance),
        report.bucket(Bucket::ZeroBalance),
    ) + list_file(bucket_file(provider, Bucket::Disabled), report.bucket(Bucket::Disabled))
        + list_file(bucket_file(provider, Bucket::Forbidden), report.bucket(Bucket::Forbidden))
        + list_file(
        bucket_file(provider, Bucket::LocationRestricted),
        report.bucket(Bucket::LocationRestricted),
    ) + list_file(bucket_file(provider, Bucket::Unknown), report.bucket(Bucket::Unknown))
        + list_file(pro_file(provider), texts(report.pro@)) + seq![
        (
            detail_file(provider),
            rendered(detail_lines(provider, detail_views(report.details@))),
        ),
    ]
}

/// What the names of a provider's files start with.
pub fn file_stem(provider: Provider) -> (r: String)
    ensures
        r@ == stem(provider),
{
    match provider {
        Provider::DeepSeek => String::from_str("deepseek"),
        Provider::Ppinfra => String::from_str("ppinfra"),
        Provider::SiliconFlow => String::from_str("siliconflow"),
        Provider::Gemini => String::from_str("gemini"),
        Provider::GeminiModel => String::from_str("gemini"),
    }
}

/// The name of the file that lists a bucket.
pub fn bucket_file_name(provider: Provider, bucket: Bucket) -> (r: String)
    ensures
        r@ == bucket_file(provider, bucket),
{
    let gemini = match provider {
        Provider::Gemini => true,
        Provider::GeminiModel => true,
        _ => false,
    };
    let balance_only = match provider {
        Provider::DeepSeek => true,
        Provider::Ppinfra => true,
        _ => false,
    };
    let stem = file_stem(provider);
    match bucket {
        Bucket::Valid => stem.concat("_key"),
        Bucket::ZeroBalance => if gemini {
            stem.concat("_429_keys")
        } else {
            stem.concat("_no_balance_keys")
        },
        Bucket::Disabled => stem.concat("_disable_keys"),
        Bucket::Forbidden => stem.concat("_invalid_keys"),
        Bucket::LocationRestricted => stem.concat("_location_err_key"),
        Bucket::Unknown => if balance_only {
            stem.concat("_invalid_keys")
        } else {
            stem.concat("_unknow_err_key")
        },
    }
}

/// The name of the file that lists the paying accounts.
pub fn pro_file_name(provider: Provider) -> (r: String)
    ensures
        r@ == pro_file(provider),
{
    file_stem(provider).concat("_pro_key")
}

/// The name of the file that holds the details.
pub fn detail_file_name(provider: Provider) -> (r: String)
    ensures
        r@ == detail_file(provider),
{
    file_stem(provider).concat("_detail.csv")
}

/// The first line of the details.
pub fn header(provider: Provider) -> (r: String)
    ensures
        r@ == detail_header(provider),
{
    match provider {
        Provider::DeepSeek => String::from_str("key, total_balance"),
        Provider::Ppinfra => String::from_str("key, total_balance"),
        Provider::SiliconFlow => String::from_str("key, charge_balance, total_balance"),
        Provider::Gemini => String::from_str("key, status_code, text"),
        Provider::GeminiModel => String::from_str("key, status_code, text"),
    }
}

/// The line of one detail record.
pub fn record_line(provider: Provider, record: &DetailRecord) -> (r: String)
    ensures
        r@ == detail_line(provider, record@),
{
    let start = record.credential.clone().concat(", ");
    let status_code = match record.status_code {
        None => {
            return start.concat(record.note.as_str());
        },
        Some(status_code) => status_code,
    };
    let gemini = match provider {
        Provider::Gemini => true,
        Provider::GeminiModel => true,
        _ => false,
    };
    let by_balance = match record.verdict.bucket {
        Bucket::Valid => true,
        Bucket::ZeroBalance => true,
        Bucket::Disabled => true,
        _ => false,
    };
    let r = if !gemini && by_balance {
        let balance = render_amount(record.verdict.balance as u128);
        match provider {
            Provider::SiliconFlow => {
                let charge = render_amount(record.verdict.charge as u128);
                let fields = charge.concat(", ").concat(balance.as_str());
                start.concat(fields.as_str())
            },
            _ => start.concat(balance.as_str()),
        }
    } else {
        let mut digits: Vec<char> = Vec::new();
        push_number(&mut digits, status_code as u128);
        assert(digits@ =~= number_text(status_code as nat));
        let fields = string_of(&digits).concat(", ").concat(record.note.as_str());
        start.concat(fields.as_str())
    };
    assert(r@ =~= detail_line(provider, record@));
    r
}

/// What is said of the totals at the end of a run.
pub fn summary(provider: Provider, totals: Totals) -> (r: String)
    ensures
        r@ == summary_text(provider, totals),
{
    match provider {
        Provider::Gemini => String::from_str("done"),
        Provider::GeminiModel => String::from_str("done"),
        Provider::SiliconFlow => {
            let total = render_amount(totals.total);
            let pro = render_amount(totals.pro);
            String::from_str("total: ").concat(total.as_str()).concat(", pro: ").concat(
                pro.as_str(),
            )
        },
        _ => {
            let total = render_amount(totals.total);
            String::from_str("total: ").concat(total.as_str())
        },
    }
}

/// Adds the file of a list of credentials, unless the list is empty.
fn push_list_file(files: &mut Vec<OutputFile>, name: String, keys: &Vec<String>)
    ensures
        file_views(final(files)@) == file_views(old(files)@) + list_file(name@, texts(keys@)),
{
    match save_to_file(keys, name.as_str()) {
        Some(file) => {
            files.push(file);
        },
        None => {},
    }
    assert(file_views(files@) =~= file_views(old(files)@) + list_file(name@, texts(keys@)));
}

/// The files of a report, in the order in which they are to be written.
pub fn output_files(provider: Provider, report: &Report) -> (files: Vec<OutputFile>)
    ensures
        file_views(files@) == files_of(provider, *report),
{
    let mut files: Vec<OutputFile> = Vec::new();
    assert(file_views(files@) =~= Seq::empty());
    push_list_file(&mut files, bucket_file_name(provider, Bucket::Valid), &report.valid);
    push_list_file(
        &mut files,
        bucket_file_name(provider, Bucket::ZeroBalance),
        &report.zero_balance,
    );
    push_list_file(&mut files, bucket_file_name(provider, Bucket::Disabled), &report.disabled);
    push_list_file(&mut files, bucket_file_name(provider, Bucket::Forbidden), &report.forbidden);
    push_list_file(
        &mut files,
        bucket_file_name(provider, Bucket::LocationRestricted),
        &report.location_restricted,
    );
    push_list_file(&mut files, bucket_file_name(provider, Bucket::Unknown), &report.unknown);
    push_list_file(&mut files, pro_file_name(provider), &report.pro);
    let ghost lists = file_views(files@);
    let mut lines: Vec<String> = Vec::new();
    lines.push(header(provider));
    let mut i: usize = 0;
    assert(texts(lines@) =~= detail_lines(provider, detail_views(report.details@).take(0)));
    while i < report.details.len()
        invariant
            i <= report.details.len(),
            texts(lines@) == detail_lines(provider, detail_views(report.details@).take(i as int)),
        decreases report.details.len() - i,
    {
        let ghost before = lines@;
        lines.push(record_line(provider, &report.details[i]));
        assert(texts(lines@) =~= detail_lines(
            provider,
            detail_views(report.details@).take(i + 1),
        )) by {
            let views = detail_views(report.details@);
            assert(views.take(i + 1) =~= views.take(i as int).push(report.details@[i as int]@));
            assert(texts(lines@) =~= texts(before).push(
                detail_line(provider, report.details@[i as int]@),
            ));
        }
        i += 1;
    }
    assert(detail_views(report.details@).take(report.details.len() as int) =~= detail_views(
        report.details@,
    ));
    let contents = render_keys(&lines);
    files.push(OutputFile { name: detail_file_name(provider), contents });
    assert(file_views(files@) =~= files_of(provider, *report));
    files
}

/// All that comes of checking a batch.
#[derive(Debug, Clone, PartialEq, Eq)]
pub struct Checked {
    /// Who landed where, and the totals.
    pub report: Report,
    /// The files to be written, in order.
    pub files: Vec<OutputFile>,
    /// What is to be said of the totals.
    pub summary: String,
}

impl Checked {
    /// This is what comes of checking `pairs` by the rules of `provider`.
    pub open spec fn concludes(self, provider: Provider, pairs: Seq<(String, ProbeOutcome)>) -> bool {
        &&& self.report.classifies(provider, pairs)
        &&& file_views(self.files@) == files_of(provider, self.report)
        &&& self.summary@ == summary_text(provider, self.report.totals)
    }
}

/// Classifies a batch by the rules of `provider`, and says what is to be
/// written and reported of it.
pub fn conclude(provider: Provider, pairs: &Vec<(String, ProbeOutcome)>) -> (checked: Checked)
    ensures
        checked.concludes(provider, pairs@),
{
    let report = classify_batch(provider, pairs);
    let files = output_files(provider, &report);
    let summary = summary(provider, report.totals);
    Checked { report, files, summary }
}

/// The rules of a provider put a credential only into the buckets that the
/// provider uses.
pub proof fn law_verdicts_stay_in_use(provider: Provider, outcome: ProbeOutcome)
    ensures
        in_use(provider, verdict(provider, outcome).bucket),
{
}

/// What tells the endings of the file names apart: their lengths, and
/// where two are equally long, their second character.
proof fn lemma_endings()
    ensures
        "_key"@.len() == 4,
        "_no_balance_keys"@.len() == 16,
        "_429_keys"@.len() == 9,
        "_disable_keys"@.len() == 13,
        "_disable_keys"@[1] == 'd',
        "_invalid_keys"@.len() == 13,
        "_invalid_keys"@[1] == 'i',
        "_location_err_key"@.len() == 17,
        "_unknow_err_key"@.len() == 15,
        "_pro_key"@.len() == 8,
        "_detail.csv"@.len() == 11,
{
    reveal_strlit("_key");
    reveal_strlit("_no_balance_keys");
    reveal_strlit("_429_keys");
    reveal_strlit("_disable_keys");
    reveal_strlit("_invalid_keys");
    reveal_strlit("_location_err_key");
    reveal_strlit("_unknow_err_key");
    reveal_strlit("_pro_key");
    reveal_strlit("_detail.csv");
}

/// Names with the same start differ where their endings do.
proof fn lemma_names_differ(start: Seq<char>, first: Seq<char>, second: Seq<char>)
    requires
        first.len() != second.len() || (first.len() > 1 && first[1] != second[1]),
    ensures
        start + first != start + second,
{
    if first.len() == second.len() {
        assert((start + first)[start.len() as int + 1] == first[1]);
        assert((start + second)[start.len() as int + 1] == second[1]);
    } else {
        assert((start + first).len() == start.len() + first.len());
        assert((start + second).len() == start.len() + second.len());
    }
}

/// Every file of a provider has a name of its own: no two buckets that
/// the provider uses share a file, and none of them shares one with the
/// paying accounts or with the details.
pub proof fn law_files_have_names_of_their_own(provider: Provider, first: Bucket, second: Bucket)
    requires
        in_use(provider, first),
        in_use(provider, second),
        first != second,
    ensures
        bucket_file(provider, first) != bucket_file(provider, second),
        bucket_file(provider, first) != pro_file(provider),
        bucket_file(provider, first) != detail_file(provider),
        pro_file(provider) != detail_file(provider),
{
    lemma_endings();
    lemma_names_differ(stem(provider), suffix(provider, first), suffix(provider, second));
    lemma_names_differ(stem(provider), suffix(provider, first), "_pro_key"@);
    lemma_names_differ(stem(provider), suffix(provider, first), "_detail.csv"@);
    lemma_names_differ(stem(provider), "_pro_key"@, "_detail.csv"@);
}

} // verus!
