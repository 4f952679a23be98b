use vstd::prelude::*;
use crate::text::{decimal, push_decimal};

verus! {

pub open spec fn ascii_letter(c: char) -> bool {
    (65 <= (c as int) <= 90) || (97 <= (c as int) <= 122)
}

pub open spec fn id_char(c: char) -> bool {
    ascii_letter(c) || (48 <= (c as int) <= 57) || c == '.' || c == '_' || c == '-'
}

/// A module id: an ASCII letter followed by one or more ASCII letters,
/// digits, `.`, `_` or `-`.
pub open spec fn valid_module_id(s: Seq<char>) -> bool {
    s.len() >= 2 && ascii_letter(s[0]) && forall|i: int| 1 <= i < s.len() ==> #[trigger] id_char(s[i])
}

/// The regular expression that module ids match.
pub open spec fn module_id_pattern() -> Seq<char> {
    "^[a-zA-Z][a-zA-Z0-9._-]+$"@
}

/// Relies on regex_lite::Regex::new and regex_lite::Regex::is_match: the
/// module id pattern compiles, and without the multi-line flag its `^` and
/// `$` anchor at the two ends of the text, so a match is a whole-text match.
#[verifier::external_body]
fn regex_matches(pattern: &str, text: &str) -> (r: Option<bool>)
    ensures
        pattern@ == module_id_pattern() ==> r == Some(valid_module_id(text@)),
{
    match regex_lite::Regex::new(pattern) {
        Ok(re) => Some(re.is_match(text)),
        Err(_) => None,
    }
}

/// Accepts a valid module id and refuses anything else with a message.
pub fn validate_module_id(module_id: &str) -> (r: Result<(), String>)
    ensures
        r.is_ok() == valid_module_id(module_id@),
{
    let pattern = "^[a-zA-Z][a-zA-Z0-9._-]+$";
    match regex_matches(pattern, module_id) {
        Some(true) => Ok(()),
        _ => {
            let mut msg = "Invalid module ID: '".to_owned();
            msg.append(module_id);
            msg.append("'. Must match /^[a-zA-Z][a-zA-Z0-9._-]+$/");
            Err(msg)
        },
    }
}

/// A kernel-worker-like process name drawn from `seed`.
pub open spec fn kworker_name(seed: u64) -> Seq<char> {
    "kworker/u"@ + decimal((seed % 16) as nat) + ":"@ + decimal(((seed / 16) % 10) as nat)
}

pub fn random_kworker_name(seed: u64) -> (r: String)
    ensures
        r@ == kworker_name(seed),
{
    let mut r = "kworker/u".to_owned();
    push_decimal(&mut r, seed % 16);
    r.append(":");
    push_decimal(&mut r, (seed / 16) % 10);
    r
}

/// Where the planner reads a module from: its copy under the storage root
/// when that exists, else its source directory.
pub fn content_path(storage_root: &str, module: &crate::inventory::Module, copy_exists: bool) -> (r: String)
    ensures
        copy_exists ==> r@ == crate::text::joined(storage_root@, module.id@),
        !copy_exists ==> r@ == module.source_path@,
{
    if copy_exists {
        crate::text::join_path(storage_root, module.id.as_str())
    } else {
        module.source_path.clone()
    }
}

} // verus!
