//! Rendering a modification time for the touch suggestion.

use vstd::prelude::*;

verus! {

/// Relies on chrono: `DateTime::from_timestamp` (total, `None` out of
/// range) and local-time formatting with the pattern `%Y%m%d%H%M.%S`. A
/// timestamp beyond chrono's range is rendered as its plain seconds
/// instead. The rendering depends on the machine's local time zone, so
/// nothing is promised of it.
#[verifier::external_body]
pub(crate) fn format_touch_timestamp(secs: u64) -> String {
    let parsed = i64::try_from(secs).ok().and_then(|s| chrono::DateTime::from_timestamp(s, 0));
    match parsed {
        Some(utc) => utc.with_timezone(&chrono::Local).format("%Y%m%d%H%M.%S").to_string(),
        None => format!("{}", secs),
    }
}

} // verus!
