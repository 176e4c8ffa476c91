//! The decisions of the wiki editing bot: which fields an item page gets,
//! when to ask before editing, what an answer asks for, and what a reply of
//! the wiki means for the next step.
use vstd::prelude::*;
use crate::backpack_db::{cost_present, infobox_fields, pairs_view, Item};
use crate::text::{chars_of, lowercase, same_chars, str_lower, string_of, trim, trim_chars};

verus! {

/// Whether a changed "lastUpdate" field alone makes an edit notable.
pub const VERSION_BUMP_IS_NOTABLE: bool = false;

/// Whether to ask before editing an existing page with a notable change.
pub const PROMPT_EXISTING: bool = true;

/// Whether to ask before creating a page.
pub const PROMPT_NEW: bool = true;

/// Whether edits are sent at all.
pub const EDIT_OK: bool = true;

/// Seconds to wait before sending an edit again after the wiki refused it
/// for its rate limit.
pub const RATE_LIMIT_WAIT_SECS: u64 = 70;

/// The "lastUpdate" value of a data version: "v" and the version.
pub open spec fn version_label(version: Seq<char>) -> Seq<char> {
    "v"@ + version
}

/// The "lastUpdate" value of the data version `version`.
pub fn version_label_of(version: &str) -> (r: String)
    ensures
        r@ == version_label(version@),
{
    let mut out = chars_of("v");
    let v = chars_of(version);
    crate::text::append_chars(&mut out, &v);
    string_of(&out)
}

/// The fields to write on an item's page: its infobox fields and the
/// "lastUpdate" field with the version label.
pub fn page_fields(item: &Item, version_label: &str) -> (r: Vec<(&'static str, String)>)
    requires
        item.cost matches Some(c) ==> cost_present(c),
    ensures
        pairs_view(r@) == infobox_fields(*item).push(("lastUpdate"@, version_label@)),
{
    let mut fields = item.to_infobox_pairs();
    let ghost before = pairs_view(fields@);
    fields.push(("lastUpdate", version_label.to_owned()));
    assert(pairs_view(fields@) =~= before.push(("lastUpdate"@, version_label@)));
    fields
}

/// Whether to ask before editing: for an existing page with a notable
/// change when `PROMPT_EXISTING`, for a new page when `PROMPT_NEW`.
pub fn should_prompt(existing: bool, notable: bool) -> (r: bool)
    ensures
        r == (existing && notable && PROMPT_EXISTING || !existing && PROMPT_NEW),
{
    existing && notable && PROMPT_EXISTING || !existing && PROMPT_NEW
}

/// What an answer to the edit prompt asks for.
#[derive(Debug, Clone, Copy, PartialEq, Eq)]
pub enum PromptAnswer {
    /// Send the edit.
    Edit,
    /// Stop the whole run.
    Quit,
    /// Leave this page as it is.
    Skip,
}

/// The request of an answer: trimmed and lowercased, "y" or "yes" edits,
/// "q" or "quit" quits, anything else skips.
pub open spec fn answer_request(answer: Seq<char>) -> PromptAnswer {
    let w = str_lower(trim(answer));
    if w == "y"@ || w == "yes"@ {
        PromptAnswer::Edit
    } else if w == "q"@ || w == "quit"@ {
        PromptAnswer::Quit
    } else {
        PromptAnswer::Skip
    }
}

/// What the answer to the edit prompt asks for, as `answer_request` states.
pub fn classify_answer(answer: &str) -> (r: PromptAnswer)
    ensures
        r == answer_request(answer@),
{
    let raw = chars_of(answer);
    let trimmed = trim_chars(&raw);
    let trimmed_text = string_of(&trimmed);
    let low = lowercase(trimmed_text.as_str());
    let w = chars_of(low.as_str());
    let y = chars_of("y");
    let yes = chars_of("yes");
    let q = chars_of("q");
    let quit = chars_of("quit");
    if same_chars(&w, &y) || same_chars(&w, &yes) {
        PromptAnswer::Edit
    } else if same_chars(&w, &q) || same_chars(&w, &quit) {
        PromptAnswer::Quit
    } else {
        PromptAnswer::Skip
    }
}

/// What the wiki's reply to a page lookup means.
#[derive(Debug, Clone, Copy, PartialEq, Eq)]
pub enum PageLookup {
    /// The reply holds the page text.
    Found,
    /// The page does not exist.
    Missing,
    /// The wiki answered with another error.
    Failed,
}

/// The meaning of a page lookup reply by its error code: none means the
/// page was found, "missingtitle" that it does not exist.
pub open spec fn lookup_meaning(error_code: Option<Seq<char>>) -> PageLookup {
    match error_code {
        None => PageLookup::Found,
        Some(code) => if code == "missingtitle"@ {
            PageLookup::Missing
        } else {
            PageLookup::Failed
        },
    }
}

/// What a page lookup reply with this error code means.
pub fn page_lookup(error_code: Option<&str>) -> (r: PageLookup)
    ensures
        r == lookup_meaning(
            match error_code {
                Some(c) => Some(c@),
                None => None,
            },
        ),
{
    match error_code {
        None => PageLookup::Found,
        Some(code) => {
            let c = chars_of(code);
            let missing = chars_of("missingtitle");
            if same_chars(&c, &missing) {
                PageLookup::Missing
            } else {
                PageLookup::Failed
            }
        },
    }
}

/// The next step after the wiki replied to an edit.
#[derive(Debug, Clone, Copy, PartialEq, Eq)]
pub enum EditStep {
    /// The edit went through.
    Done,
    /// Wait this many seconds, then send the same edit again.
    RetryAfter(u64),
    /// The edit failed.
    Failed,
}

/// The next step after an edit reply: a rate-limit error is waited out and
/// the edit sent again; any other error, or a reply whose result is not
/// "Success", is a failure.
pub open spec fn edit_reply_meaning(rate_limited: bool, other_error: bool, succeeded: bool) -> EditStep {
    if rate_limited {
        EditStep::RetryAfter(RATE_LIMIT_WAIT_SECS)
    } else if other_error || !succeeded {
        EditStep::Failed
    } else {
        EditStep::Done
    }
}

/// The next step after the wiki replied to an edit, as `edit_reply_meaning` states.
pub fn edit_reply_step(rate_limited: bool, other_error: bool, succeeded: bool) -> (r: EditStep)
    ensures
        r == edit_reply_meaning(rate_limited, other_error, succeeded),
{
    if rate_limited {
        EditStep::RetryAfter(RATE_LIMIT_WAIT_SECS)
    } else if other_error || !succeeded {
        EditStep::Failed
    } else {
        EditStep::Done
    }
}


/// The characters of an optional string slice.
pub open spec fn str_view(s: Option<&str>) -> Option<Seq<char>> {
    match s {
        Some(t) => Some(t@),
        None => None,
    }
}

/// What to do with a page once its new text is known.
#[derive(Debug, Clone, Copy, PartialEq, Eq)]
pub enum PageStep {
    /// The new text is the page's text: there is nothing to edit.
    Unchanged,
    /// Ask before editing.
    Ask,
    /// Go on to the edit without asking.
    Proceed,
}

/// The step for a page: nothing when the new text equals the existing
/// text; else ask when `should_prompt` says so, and go on otherwise.
pub open spec fn page_step_meaning(existing: Option<Seq<char>>, new_text: Seq<char>, notable: bool) -> PageStep {
    if existing == Some(new_text) {
        PageStep::Unchanged
    } else if existing is Some && notable && PROMPT_EXISTING || existing is None && PROMPT_NEW {
        PageStep::Ask
    } else {
        PageStep::Proceed
    }
}

/// The step for a page with the existing text `existing` (if the page
/// exists), the new text `new_text`, and whether the change is notable.
pub fn page_step(existing: Option<&str>, new_text: &str, notable: bool) -> (r: PageStep)
    ensures
        r == page_step_meaning(str_view(existing), new_text@, notable),
{
    let unchanged = match existing {
        Some(t) => {
            let a = chars_of(t);
            let b = chars_of(new_text);
            same_chars(&a, &b)
        },
        None => false,
    };
    if unchanged {
        PageStep::Unchanged
    } else if should_prompt(existing.is_some(), notable) {
        PageStep::Ask
    } else {
        PageStep::Proceed
    }
}

/// Whether an update of an existing page is notable: it adds a field the
/// infobox did not have, or (only when `VERSION_BUMP_IS_NOTABLE`) it
/// changes the value of one it had.
pub fn update_is_notable(adds_fields: bool, changes_values: bool) -> (r: bool)
    ensures
        r == (adds_fields || VERSION_BUMP_IS_NOTABLE && changes_values),
{
    adds_fields || VERSION_BUMP_IS_NOTABLE && changes_values
}

/// Whether an edit may be sent.
#[derive(Debug, Clone, Copy, PartialEq, Eq)]
pub enum EditGate {
    /// Edits are switched off (`EDIT_OK`).
    Disabled,
    /// No edit summary was given.
    NoSummary,
    /// Send the edit.
    Send,
}

/// Whether an edit may be sent: only when `EDIT_OK` and with a summary.
pub fn edit_gate(has_summary: bool) -> (r: EditGate)
    ensures
        r == (if !EDIT_OK {
            EditGate::Disabled
        } else if !has_summary {
            EditGate::NoSummary
        } else {
            EditGate::Send
        }),
{
    if !EDIT_OK {
        EditGate::Disabled
    } else if !has_summary {
        EditGate::NoSummary
    } else {
        EditGate::Send
    }
}


// ----------------------------------------------------------------------------
// Laws
// ----------------------------------------------------------------------------
/// An answer asks for the edit exactly when, trimmed and lowercased, it is
/// "y" or "yes", and for quitting exactly when it is "q" or "quit"; every
/// other answer skips the page.
pub proof fn lemma_answer_words(answer: Seq<char>)
    ensures
        (answer_request(answer) == PromptAnswer::Edit) <==> (str_lower(trim(answer)) == "y"@
            || str_lower(trim(answer)) == "yes"@),
        (answer_request(answer) == PromptAnswer::Quit) <==> (str_lower(trim(answer)) == "q"@
            || str_lower(trim(answer)) == "quit"@),
{
    reveal_strlit("y");
    reveal_strlit("yes");
    reveal_strlit("q");
    reveal_strlit("quit");
    assert("y"@ != "q"@ && "y"@ != "quit"@ && "yes"@ != "q"@ && "yes"@ != "quit"@) by {
        assert("y"@[0] != "q"@[0] && "yes"@[0] != "quit"@[0]);
    }
}

/// A lookup reply without an error holds the page, one with the error code
/// "missingtitle" means the page does not exist, and any other error fails.
pub proof fn lemma_lookup_codes(error_code: Option<Seq<char>>)
    ensures
        (lookup_meaning(error_code) == PageLookup::Found) <==> error_code is None,
        (lookup_meaning(error_code) == PageLookup::Missing) <==> error_code == Some("missingtitle"@),
{
}

/// An edit reply is waited out and sent again (after 70 seconds) exactly
/// when it reports the rate limit, and is done exactly when it reports no
/// error and success.
pub proof fn lemma_edit_replies(rate_limited: bool, other_error: bool, succeeded: bool)
    ensures
        (edit_reply_meaning(rate_limited, other_error, succeeded) == EditStep::RetryAfter(70))
            <==> rate_limited,
        (edit_reply_meaning(rate_limited, other_error, succeeded) == EditStep::Done) <==> (
        !rate_limited && !other_error && succeeded),
{
}

/// A page is left alone exactly when its new text is its existing text;
/// otherwise a new page is always asked about, and an existing one exactly
/// when the change is notable.
pub proof fn lemma_page_steps(existing: Option<Seq<char>>, new_text: Seq<char>, notable: bool)
    ensures
        (page_step_meaning(existing, new_text, notable) == PageStep::Unchanged) <==> existing
            == Some(new_text),
        existing != Some(new_text) ==> ((page_step_meaning(existing, new_text, notable)
            == PageStep::Ask) <==> (existing is None || notable)),
{
}

/// The version label of a data version is the version after a "v".
pub proof fn lemma_version_label(version: Seq<char>)
    ensures
        version_label(version).len() == version.len() + 1,
        version_label(version)[0] == 'v',
        version_label(version).drop_first() == version,
{
    reveal_strlit("v");
    assert(version_label(version).drop_first() =~= version);
}

} // verus!
