//! Telling the user about a problem when there may be no console to print to.
//!
//! Every user-facing problem goes through here; the caller shows the text in
//! a dialog (or on stderr) and records it in `viewer.log`.
use vstd::prelude::*;

use crate::text::{decimal, push_decimal};

verus! {

/// Records why `viewer.log` is unavailable, so error dialogs can say so.
/// Only the first reason is kept; later ones are ignored.
pub fn set_log_unavailable(slot: &mut Option<String>, reason: String)
    ensures
        (*old(slot)) is Some ==> *final(slot) == *old(slot),
        (*old(slot)) is None ==> *final(slot) == Some(reason),
{
    if slot.is_none() {
        *slot = Some(reason);
    }
}

pub const LOG_FAILURE_PREFIX: &'static str = "\n\n（viewer.log に記録できません: ";
pub const LOG_FAILURE_SUFFIX: &'static str = "）";

/// The text shown for a problem: the message, followed by why `viewer.log`
/// could not record it when that is known, so the report is still complete.
pub open spec fn error_text(message: Seq<char>, log_failure: Option<Seq<char>>) -> Seq<char> {
    match log_failure {
        Some(reason) => message + LOG_FAILURE_PREFIX@ + reason + LOG_FAILURE_SUFFIX@,
        None => message,
    }
}

/// The text to show the user for `message`.
pub fn error(message: &str, log_failure: Option<&str>) -> (shown: String)
    ensures
        shown@ == error_text(
            message@,
            match log_failure {
                Some(r) => Some(r@),
                None => None,
            },
        ),
{
    let mut shown = String::new();
    shown.push_str(message);
    if let Some(reason) = log_failure {
        shown.push_str(LOG_FAILURE_PREFIX);
        shown.push_str(reason);
        shown.push_str(LOG_FAILURE_SUFFIX);
    }
    shown
}

pub const PANIC_PREFIX: &'static str = "imageviewer が予期しないエラーで停止しました。\n\n";
pub const PANIC_LOCATION: &'static str = "\n\n発生位置: ";
pub const UNKNOWN_LOCATION: &'static str = "不明な位置";
pub const UNKNOWN_PAYLOAD: &'static str = "詳細不明";

/// Where a panic happened, as `file:line`, or a placeholder when unknown.
pub open spec fn location_text(location: Option<(Seq<char>, u32)>) -> Seq<char> {
    match location {
        Some((file, line)) => file + seq![':'] + decimal(line as nat),
        None => UNKNOWN_LOCATION@,
    }
}

/// The dialog text for a panic with the given message and location.
pub open spec fn panic_text_of(payload: Option<Seq<char>>, location: Option<(Seq<char>, u32)>) -> Seq<char> {
    PANIC_PREFIX@ + (match payload {
        Some(p) => p,
        None => UNKNOWN_PAYLOAD@,
    }) + PANIC_LOCATION@ + location_text(location)
}

/// The text reported when the viewer panics.
pub fn panic_text(payload: Option<&str>, location: Option<(&str, u32)>) -> (shown: String)
    ensures
        shown@ == panic_text_of(
            match payload {
                Some(p) => Some(p@),
                None => None,
            },
            match location {
                Some((f, l)) => Some((f@, l)),
                None => None,
            },
        ),
{
    let mut shown = String::new();
    shown.push_str(PANIC_PREFIX);
    match payload {
        Some(p) => shown.push_str(p),
        None => shown.push_str(UNKNOWN_PAYLOAD),
    }
    shown.push_str(PANIC_LOCATION);
    let ghost before = shown@;
    match location {
        Some((file, line)) => {
            shown.push_str(file);
            shown.push(':');
            push_decimal(&mut shown, line as u64);
        },
        None => shown.push_str(UNKNOWN_LOCATION),
    }
    proof {
        assert(shown@ =~= before + location_text(
            match location {
                Some((f, l)) => Some((f@, l)),
                None => None,
            },
        ));
    }
    shown
}

} // verus!
