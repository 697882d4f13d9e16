//! Decoding one line of the event stream.
//!
//! A line has the form `name>>arguments`. The name selects the event, the
//! arguments are a workspace number or, for a submap, free text.

use crate::text::{chars_of, parse_i32, parse_int};
use vstd::prelude::*;
use vstd::string::*;

verus! {

/// What the compositor reported.
#[derive(Debug, PartialEq, Eq)]
pub enum Event {
    /// The workspace with this number became the active one.
    Workspace(i32),
    /// A workspace with this number was created.
    CreateWorkspace(i32),
    /// The workspace with this number was destroyed.
    DestroyWorkspace(i32),
    /// The submap with this name was entered; the empty name stands for no
    /// submap.
    Submap(String),
    /// A message that is of no interest here.
    Ignored,
}

/// An [`Event`] as contracts see it: a submap's name is its characters.
pub ghost enum EventModel {
    Workspace(i32),
    CreateWorkspace(i32),
    DestroyWorkspace(i32),
    Submap(Seq<char>),
    Ignored,
}

impl View for Event {
    type V = EventModel;

    open spec fn view(&self) -> EventModel {
        match self {
            Event::Workspace(id) => EventModel::Workspace(*id),
            Event::CreateWorkspace(id) => EventModel::CreateWorkspace(*id),
            Event::DestroyWorkspace(id) => EventModel::DestroyWorkspace(*id),
            Event::Submap(name) => EventModel::Submap(name@),
            Event::Ignored => EventModel::Ignored,
        }
    }
}

impl Clone for Event {
    fn clone(&self) -> (copy: Event)
        ensures
            copy@ == self@,
    {
        match self {
            Event::Workspace(id) => Event::Workspace(*id),
            Event::CreateWorkspace(id) => Event::CreateWorkspace(*id),
            Event::DestroyWorkspace(id) => Event::DestroyWorkspace(*id),
            Event::Submap(name) => Event::Submap(name.clone()),
            Event::Ignored => Event::Ignored,
        }
    }
}

/// Why a line is no event.
#[derive(Clone, Copy, Debug, PartialEq, Eq, Structural)]
pub enum DecodeError {
    /// The line holds no `>>`.
    MalformedLine,
    /// The arguments should be a workspace number and are none.
    InvalidArgument,
}

/// Whether `>>` stands at offset `i` of `line`.
pub open spec fn delimiter_at(line: Seq<char>, i: int) -> bool {
    0 <= i && i + 1 < line.len() && line[i] == '>' && line[i + 1] == '>'
}

/// Offset of the first `>>` in `line`, or `line.len()` where there is none.
pub open spec fn first_delimiter(line: Seq<char>) -> int
    decreases line.len(),
{
    if line.len() == 0 || delimiter_at(line, 0) {
        0
    } else {
        1 + first_delimiter(line.drop_first())
    }
}

/// The event that a workspace number in `args` gives for `name`, if `args`
/// is a number.
pub open spec fn numbered(
    args: Seq<char>,
    event: spec_fn(i32) -> EventModel,
) -> Result<EventModel, DecodeError> {
    match parse_int(args) {
        Some(id) => Ok(event(id)),
        None => Err(DecodeError::InvalidArgument),
    }
}

/// The event for a message `name` with the arguments `args`.
pub open spec fn message_event(name: Seq<char>, args: Seq<char>) -> Result<
    EventModel,
    DecodeError,
> {
    if name == "workspace"@ {
        numbered(args, |id: i32| EventModel::Workspace(id))
    } else if name == "createworkspace"@ {
        numbered(args, |id: i32| EventModel::CreateWorkspace(id))
    } else if name == "destroyworkspace"@ {
        numbered(args, |id: i32| EventModel::DestroyWorkspace(id))
    } else if name == "submap"@ {
        Ok(EventModel::Submap(args))
    } else {
        Ok(EventModel::Ignored)
    }
}

/// The event that `line` stands for: the text before the first `>>` is the
/// name, the text behind it the arguments.
pub open spec fn line_event(line: Seq<char>) -> Result<EventModel, DecodeError> {
    let at = first_delimiter(line);
    if 0 <= at < line.len() {
        message_event(line.take(at), line.skip(at + 2))
    } else {
        Err(DecodeError::MalformedLine)
    }
}

/// Whether `result` is what the contract `expected` asks for.
pub open spec fn decoded_as(
    result: Result<Event, DecodeError>,
    expected: Result<EventModel, DecodeError>,
) -> bool {
    match result {
        Ok(event) => expected == Ok::<EventModel, DecodeError>(event@),
        Err(error) => expected == Err::<EventModel, DecodeError>(error),
    }
}

/// `first_delimiter` stays within `line`, points at a `>>` unless it is
/// `line.len()`, and no `>>` stands before it.
pub proof fn lemma_first_delimiter(line: Seq<char>)
    ensures
        0 <= first_delimiter(line) <= line.len(),
        first_delimiter(line) < line.len() ==> delimiter_at(line, first_delimiter(line)),
        forall|i: int| 0 <= i < first_delimiter(line) ==> !delimiter_at(line, i),
    decreases line.len(),
{
    if line.len() != 0 && !delimiter_at(line, 0) {
        let rest = line.drop_first();
        lemma_first_delimiter(rest);
        let at = first_delimiter(rest);
        if at < rest.len() {
            assert(rest[at] == line[at + 1]);
            assert(rest[at + 1] == line[at + 2]);
        }
        assert forall|i: int| 0 <= i < first_delimiter(line) implies !delimiter_at(line, i) by {
            if i > 0 && delimiter_at(line, i) {
                assert(rest[i - 1] == line[i]);
                assert(rest[i] == line[i + 1]);
                assert(delimiter_at(rest, i - 1));
            }
        }
    }
}

/// Whether the two texts are the same.
pub fn same_text(a: &str, b: &str) -> (same: bool)
    ensures
        same == (a@ == b@),
{
    let left = chars_of(a);
    let right = chars_of(b);
    if left.len() != right.len() {
        return false;
    }
    let mut i: usize = 0;
    while i < left.len()
        invariant
            i <= left@.len(),
            left@.len() == right@.len(),
            left@ == a@,
            right@ == b@,
            forall|k: int| 0 <= k < i ==> left@[k] == right@[k],
        decreases left@.len() - i,
    {
        if left[i] != right[i] {
            return false;
        }
        i += 1;
    }
    assert(left@ =~= right@);
    true
}

/// The event for a message `message` with the arguments `val`.
///
/// `workspace`, `createworkspace` and `destroyworkspace` take a workspace
/// number, `submap` takes its arguments as they are, and any other message
/// gives `Event::Ignored`.
pub fn parse_message(message: &str, val: &str) -> (result: Result<Event, DecodeError>)
    ensures
        decoded_as(result, message_event(message@, val@)),
{
    if same_text(message, "workspace") {
        match parse_i32(val) {
            Some(id) => Ok(Event::Workspace(id)),
            None => Err(DecodeError::InvalidArgument),
        }
    } else if same_text(message, "createworkspace") {
        match parse_i32(val) {
            Some(id) => Ok(Event::CreateWorkspace(id)),
            None => Err(DecodeError::InvalidArgument),
        }
    } else if same_text(message, "destroyworkspace") {
        match parse_i32(val) {
            Some(id) => Ok(Event::DestroyWorkspace(id)),
            None => Err(DecodeError::InvalidArgument),
        }
    } else if same_text(message, "submap") {
        Ok(Event::Submap(String::from_str(val)))
    } else {
        Ok(Event::Ignored)
    }
}

/// The event that `line` stands for.
///
/// The line is cut at its first `>>`. A line without one is malformed.
pub fn decode(line: &str) -> (result: Result<Event, DecodeError>)
    ensures
        decoded_as(result, line_event(line@)),
{
    let cs = chars_of(line);
    let n = cs.len();
    let mut i: usize = 0;
    while i < n
        invariant
            i <= n,
            n == cs@.len(),
            cs@ == line@,
            forall|k: int| 0 <= k < i ==> !delimiter_at(cs@, k),
        decreases n - i,
    {
        if cs[i] == '>' && i + 1 < n && cs[i + 1] == '>' {
            proof {
                lemma_first_delimiter(cs@);
                let at = first_delimiter(cs@);
                assert(delimiter_at(cs@, i as int));
                if at < i {
                    assert(delimiter_at(cs@, at));
                }
                assert(at == i);
            }
            let name = line.substring_char(0, i);
            let args = line.substring_char(i + 2, n);
            assert(name@ =~= line@.take(i as int));
            assert(args@ =~= line@.skip(i + 2));
            return parse_message(name, args);
        }
        i += 1;
    }
    proof {
        lemma_first_delimiter(cs@);
        let at = first_delimiter(cs@);
        if at < n {
            assert(delimiter_at(cs@, at));
        }
    }
    Err(DecodeError::MalformedLine)
}

} // verus!
