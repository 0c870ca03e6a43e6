//! Checking lists of API credentials against the providers that issued them.
//!
//! Each credential is probed with one request. The library says what that
//! request is (`probe` and the provider modules), when it may be sent
//! (`dispatch`, `serial`), which bucket the credential lands in by the
//! outcome (`rules`, `classify`), and what is written of the batch at the
//! end (`files`, `keys`). It sends nothing and writes nothing itself.

use vstd::prelude::*;
use vstd::string::StringExecFns;
use crate::classify::texts;
use crate::files::OutputFile;
use crate::keys::{render_keys, rendered};

pub mod amount;
pub mod classify;
pub mod deepseek;
pub mod dispatch;
pub mod errors;
pub mod files;
pub mod gemini;
pub mod keys;
pub mod ppinfra;
pub mod probe;
pub mod rules;
pub mod serial;
pub mod siliconflow;
pub mod text;

verus! {

/// How many probes are started per second where the caller names no rate.
pub const DEFAULT_RATE: usize = 3;

/// The text that follows the path in the message for a missing key file.
pub open spec fn missing_suffix() -> Seq<char> {
    " not exists"@
}

/// Decides what to do with the path of the key file, given whether a file
/// is there: the path itself when it is, and otherwise the message
/// `<path> not exists`.
pub fn check_file_exists(file: &str, exists: bool) -> (r: Result<String, String>)
    ensures
        exists ==> r is Ok && r->Ok_0@ == file@,
        !exists ==> r is Err && r->Err_0@ == file@ + missing_suffix(),
{
    if exists {
        Ok(String::from_str(file))
    } else {
        Err(String::from_str(file).concat(" not exists"))
    }
}

/// What saving a list of credentials under a name writes: a file of that
/// name with one credential per line, and nothing at all for an empty list.
pub fn save_to_file(keys: &Vec<String>, filename: &str) -> (r: Option<OutputFile>)
    ensures
        keys@.len() == 0 <==> r is None,
        r matches Some(file) ==> file.name@ == filename@ && file.contents@ == rendered(texts(keys@)),
{
    if keys.len() == 0 {
        None
    } else {
        Some(OutputFile { name: String::from_str(filename), contents: render_keys(keys) })
    }
}

} // verus!
