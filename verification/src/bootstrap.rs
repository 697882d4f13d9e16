//! The workspaces that exist when the stream starts, read from the
//! compositor's listing of them.
//!
//! The listing is free text in which each workspace shows its number in
//! parentheses.

use crate::text::{parse_i32, parse_int, text_of};
use crate::workspaces::{ascending, collected, WorkspaceSet};
use vstd::prelude::*;
use vstd::string::*;
use vstd::utf8::{decode_utf8, valid_utf8};

verus! {

/// What shows a workspace number in the listing: digits in parentheses.
pub const WORKSPACE_PATTERN: &'static str = "\\((\\d+)\\)";

/// Why a listing gives no workspaces.
#[derive(Clone, Copy, Debug, PartialEq, Eq, Structural)]
pub enum BootstrapError {
    /// The listing is not UTF-8 text.
    NotText,
    /// The pattern was not accepted.
    BadPattern,
    /// What stands in the parentheses is no workspace number.
    InvalidId,
}

/// What the first capture group of `pattern` matched in each of the
/// successive matches of `pattern` in `haystack`, as the `regex` crate
/// finds them: `None` where it does not accept the pattern, and within the
/// sequence `None` for a match in which the group took no part.
pub uninterp spec fn regex_first_groups(pattern: Seq<char>, haystack: Seq<char>) -> Option<
    Seq<Option<Seq<char>>>,
>;

/// `regex::Regex::new` on `pattern`, then `Regex::captures_iter` on
/// `haystack`, taking from each match the text of group 1 with
/// `Captures::get` and `Match::as_str`. The contract gives the outcome the
/// name `regex_first_groups`: it depends on the two texts alone.
#[verifier::external_body]
fn first_groups(pattern: &str, haystack: &str) -> (found: Option<Vec<Option<String>>>)
    ensures
        found.deep_view() == regex_first_groups(pattern@, haystack@),
{
    let re = regex::Regex::new(pattern).ok()?;
    Some(re.captures_iter(haystack).map(|c| c.get(1).map(|m| m.as_str().to_string())).collect())
}

/// The numbers that the texts in `groups` write, in their order; `None`
/// where one of them is missing or writes no number.
pub open spec fn numbers_of(groups: Seq<Option<Seq<char>>>) -> Option<Seq<i32>>
    decreases groups.len(),
{
    if groups.len() == 0 {
        Some(Seq::empty())
    } else {
        match (numbers_of(groups.drop_last()), groups.last()) {
            (Some(front), Some(text)) => match parse_int(text) {
                Some(id) => Some(front.push(id)),
                None => None,
            },
            _ => None,
        }
    }
}

/// The workspaces that the matched texts stand for: their numbers in
/// ascending order, each once.
pub open spec fn workspaces_of(groups: Seq<Option<Seq<char>>>) -> Result<
    Seq<i32>,
    BootstrapError,
> {
    match numbers_of(groups) {
        Some(ids) => Ok(collected(ids)),
        None => Err(BootstrapError::InvalidId),
    }
}

/// The workspaces whose numbers the first group of `pattern` matches in
/// `listing`.
pub open spec fn matched_workspaces(pattern: Seq<char>, listing: Seq<char>) -> Result<
    Seq<i32>,
    BootstrapError,
> {
    match regex_first_groups(pattern, listing) {
        Some(groups) => workspaces_of(groups),
        None => Err(BootstrapError::BadPattern),
    }
}

/// The workspaces that a listing shows.
pub open spec fn listed_workspaces(output: Seq<u8>) -> Result<Seq<i32>, BootstrapError> {
    if !valid_utf8(output) {
        Err(BootstrapError::NotText)
    } else {
        matched_workspaces(WORKSPACE_PATTERN@, decode_utf8(output))
    }
}

/// Whether `result` is what the contract `expected` asks for.
pub open spec fn found_as(
    result: Result<Vec<i32>, BootstrapError>,
    expected: Result<Seq<i32>, BootstrapError>,
) -> bool {
    match result {
        Ok(ids) => expected == Ok::<Seq<i32>, BootstrapError>(ids@),
        Err(error) => expected == Err::<Seq<i32>, BootstrapError>(error),
    }
}

/// Turns the texts that were found in parentheses into workspace numbers,
/// ascending and each once. One text that is no number fails them all.
pub fn collect_workspaces(groups: &Vec<Option<String>>) -> (result: Result<
    Vec<i32>,
    BootstrapError,
>)
    ensures
        found_as(result, workspaces_of(groups.deep_view())),
        result matches Ok(ids) ==> ascending(ids@),
{
    let ghost texts = groups.deep_view();
    let mut ids: Vec<i32> = Vec::new();
    let mut i: usize = 0;
    while i < groups.len()
        invariant
            i <= groups@.len(),
            texts == groups.deep_view(),
            numbers_of(texts.take(i as int)) == Some(ids@),
        decreases groups@.len() - i,
    {
        proof {
            assert(texts.take(i + 1).drop_last() =~= texts.take(i as int));
            assert(texts.take(i + 1).last() == groups@[i as int].deep_view());
            lemma_numbers_need_all(texts, i + 1);
        }
        match &groups[i] {
            Some(text) => match parse_i32(text.as_str()) {
                Some(id) => {
                    ids.push(id);
                },
                None => {
                    return Err(BootstrapError::InvalidId);
                },
            },
            None => {
                return Err(BootstrapError::InvalidId);
            },
        }
        i += 1;
    }
    assert(texts.take(i as int) =~= texts);
    Ok(WorkspaceSet::from_ids(&ids).to_vec())
}

/// Where the first `k` texts fail to give numbers, all of them fail.
pub proof fn lemma_numbers_need_all(groups: Seq<Option<Seq<char>>>, k: int)
    requires
        0 <= k <= groups.len(),
    ensures
        numbers_of(groups.take(k)) is None ==> numbers_of(groups) is None,
    decreases groups.len() - k,
{
    if k < groups.len() {
        assert(groups.take(k + 1).drop_last() =~= groups.take(k));
        lemma_numbers_need_all(groups, k + 1);
    } else {
        assert(groups.take(k) =~= groups);
    }
}

/// The workspaces whose numbers the first group of `pattern` matches in
/// `listing`, ascending and each once.
///
/// A pattern that is not accepted gives `BadPattern`, and a match whose
/// first group is no `i32` gives `InvalidId`.
pub fn find_workspaces(pattern: &str, listing: &str) -> (result: Result<Vec<i32>, BootstrapError>)
    ensures
        found_as(result, matched_workspaces(pattern@, listing@)),
        result matches Ok(ids) ==> ascending(ids@),
{
    match first_groups(pattern, listing) {
        None => Err(BootstrapError::BadPattern),
        Some(groups) => collect_workspaces(&groups),
    }
}

/// The workspaces that the compositor's listing shows: the numbers that
/// stand in parentheses, ascending and each once.
///
/// A listing that is not UTF-8 text gives `NotText`, and one with a text
/// in parentheses that is no `i32` gives `InvalidId`.
pub fn jumpstart_workspaces(output: &[u8]) -> (result: Result<Vec<i32>, BootstrapError>)
    ensures
        found_as(result, listed_workspaces(output@)),
        result matches Ok(ids) ==> ascending(ids@),
{
    match text_of(output) {
        None => Err(BootstrapError::NotText),
        Some(listing) => find_workspaces(WORKSPACE_PATTERN, listing),
    }
}

} // verus!
