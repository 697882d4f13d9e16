//! One reader and one state, driven by the chunks of the stream.
//!
//! Whoever owns the connection reads a chunk, hands it to
//! [`Session::step`], logs what the batch reports and shows the state
//! again where the batch says so.

use crate::event::{decode, line_event, DecodeError, EventModel};
use crate::frame::{complete_lines, remainder, FrameError, FrameReader, LINE_FEED};
use crate::render::{markup, render_workspaces};
use crate::state::{anomaly, initial, transition, Anomaly, StateModel, WorkspaceState};
use crate::text::text_of;
use crate::workspaces::{ascending, WorkspaceSet};
use vstd::prelude::*;
use vstd::string::*;
use vstd::utf8::{decode_utf8, valid_utf8};

verus! {

/// Why a batch stopped. Each of these ends the session.
#[derive(Clone, Copy, Debug, PartialEq, Eq, Structural)]
pub enum StepError {
    /// The reader took no bytes.
    Frame(FrameError),
    /// A line is not UTF-8 text.
    NotText,
    /// A line is no event.
    Decode(DecodeError),
}

/// What became of one chunk.
#[derive(Debug)]
pub struct Batch {
    /// How many lines were applied to the state.
    pub applied: usize,
    /// What was odd about the events that were applied, in their order.
    pub notes: Vec<Anomaly>,
    /// Why the batch stopped before its end, if it did.
    pub failure: Option<StepError>,
}

/// A [`Batch`] as contracts see it.
pub ghost struct BatchModel {
    pub applied: nat,
    pub notes: Seq<Anomaly>,
    pub failure: Option<StepError>,
}

impl View for Batch {
    type V = BatchModel;

    open spec fn view(&self) -> BatchModel {
        BatchModel { applied: self.applied as nat, notes: self.notes@, failure: self.failure }
    }
}

impl Batch {
    /// Whether the state is to be shown again: the batch ran to its end and
    /// applied at least one line, whatever the events were.
    pub fn should_render(&self) -> (show: bool)
        ensures
            show == (self@.failure is None && self@.applied > 0),
    {
        self.failure.is_none() && self.applied > 0
    }
}

/// The event that the bytes of a line stand for.
pub open spec fn bytes_event(line: Seq<u8>) -> Result<EventModel, StepError> {
    if !valid_utf8(line) {
        Err(StepError::NotText)
    } else {
        match line_event(decode_utf8(line)) {
            Ok(event) => Ok(event),
            Err(error) => Err(StepError::Decode(error)),
        }
    }
}

/// The state after the lines were applied in their order, up to the first
/// that fails, and the report on them.
pub open spec fn run_lines(state: StateModel, lines: Seq<Seq<u8>>) -> (StateModel, BatchModel)
    decreases lines.len(),
{
    if lines.len() == 0 {
        (state, BatchModel { applied: 0, notes: Seq::empty(), failure: None })
    } else {
        let (at, so_far) = run_lines(state, lines.drop_last());
        if so_far.failure is Some {
            (at, so_far)
        } else {
            match bytes_event(lines.last()) {
                Err(error) => (at, BatchModel { failure: Some(error), ..so_far }),
                Ok(event) => (
                    transition(at, event),
                    BatchModel {
                        applied: so_far.applied + 1,
                        notes: match anomaly(at, event) {
                            Some(note) => so_far.notes.push(note),
                            None => so_far.notes,
                        },
                        failure: None,
                    },
                ),
            }
        }
    }
}

/// A session as contracts see it.
pub ghost struct SessionModel {
    /// The bytes of the line that is still open.
    pub pending: Seq<u8>,
    /// The size of the reader's buffer.
    pub limit: nat,
    /// The state.
    pub state: StateModel,
}

/// The session after `chunk`, and the report on it.
pub open spec fn step_model(session: SessionModel, chunk: Seq<u8>) -> (SessionModel, BatchModel) {
    if session.pending.len() >= session.limit {
        (session, refusal(FrameError::LineTooLong))
    } else if session.pending.len() + chunk.len() > session.limit {
        (session, refusal(FrameError::ChunkTooLarge))
    } else {
        let data = session.pending + chunk;
        let (state, batch) = run_lines(session.state, complete_lines(data));
        (SessionModel { pending: remainder(data), state, ..session }, batch)
    }
}

/// The report on a chunk that the reader did not take.
pub open spec fn refusal(error: FrameError) -> BatchModel {
    BatchModel { applied: 0, notes: Seq::empty(), failure: Some(StepError::Frame(error)) }
}

/// Once a batch has failed, more lines change nothing.
pub proof fn lemma_failure_stops(state: StateModel, lines: Seq<Seq<u8>>, k: int)
    requires
        0 <= k <= lines.len(),
        run_lines(state, lines.take(k)).1.failure is Some,
    ensures
        run_lines(state, lines) == run_lines(state, lines.take(k)),
    decreases lines.len() - k,
{
    if k < lines.len() {
        assert(lines.take(k + 1).drop_last() =~= lines.take(k));
        lemma_failure_stops(state, lines, k + 1);
    } else {
        assert(lines.take(k) =~= lines);
    }
}

/// The report on two batches that ran one after the other, the first of
/// them to its end.
pub open spec fn joined(first: BatchModel, second: BatchModel) -> BatchModel {
    BatchModel {
        applied: first.applied + second.applied,
        notes: first.notes + second.notes,
        failure: second.failure,
    }
}

/// Lines may be applied in one batch or in two: where the first part runs
/// to its end, the state is the same and the reports add up.
pub proof fn lemma_batches_join(state: StateModel, first: Seq<Seq<u8>>, second: Seq<Seq<u8>>)
    requires
        run_lines(state, first).1.failure is None,
    ensures
        run_lines(state, first + second).0 == run_lines(run_lines(state, first).0, second).0,
        run_lines(state, first + second).1 == joined(
            run_lines(state, first).1,
            run_lines(run_lines(state, first).0, second).1,
        ),
    decreases second.len(),
{
    let (middle, report) = run_lines(state, first);
    if second.len() == 0 {
        assert(first + second =~= first);
        assert(report.notes + Seq::<Anomaly>::empty() =~= report.notes);
    } else {
        let front = second.drop_last();
        lemma_batches_join(state, first, front);
        assert((first + second).drop_last() =~= first + front);
        assert((first + second).last() == second.last());
        let (at, so_far) = run_lines(middle, front);
        if so_far.failure is None {
            if let Ok(event) = bytes_event(second.last()) {
                if let Some(note) = anomaly(at, event) {
                    assert((report.notes + so_far.notes).push(note) =~= report.notes
                        + so_far.notes.push(note));
                }
            }
        }
    }
}

/// A chunk may come in one read or cut in two: where the reader has room
/// for it and the first part brings no failure, the session ends in the
/// same state with the same bytes pending, and the reports add up.
pub proof fn lemma_steps_join(session: SessionModel, first: Seq<u8>, second: Seq<u8>)
    requires
        session.pending.len() + first.len() + second.len() <= session.limit,
        session.pending.len() < session.limit,
        remainder(session.pending + first).len() < session.limit,
        step_model(session, first).1.failure is None,
    ensures
        step_model(step_model(session, first).0, second).0 == step_model(
            session,
            first + second,
        ).0,
        joined(step_model(session, first).1, step_model(step_model(session, first).0, second).1)
            == step_model(session, first + second).1,
{
    let data = session.pending + first;
    let whole = session.pending + (first + second);
    assert(whole =~= data + second);
    crate::frame::lemma_split_stream(data, second);
    crate::frame::lemma_remainder_is_short(data);
    lemma_batches_join(
        session.state,
        complete_lines(data),
        complete_lines(remainder(data) + second),
    );
}

/// No batch breaks the order of the workspaces.
pub proof fn lemma_batch_keeps_order(state: StateModel, lines: Seq<Seq<u8>>)
    requires
        ascending(state.workspaces),
    ensures
        ascending(run_lines(state, lines).0.workspaces),
    decreases lines.len(),
{
    if lines.len() > 0 {
        lemma_batch_keeps_order(state, lines.drop_last());
        let (at, so_far) = run_lines(state, lines.drop_last());
        if so_far.failure is None {
            if let Ok(event) = bytes_event(lines.last()) {
                crate::state::lemma_transition_keeps_order(at, event);
            }
        }
    }
}

/// Applies the lines to `state`, in their order, up to the first that
/// fails.
pub fn apply_lines(state: &mut WorkspaceState, lines: &Vec<Vec<u8>>) -> (batch: Batch)
    ensures
        (final(state)@, batch@) == run_lines(old(state)@, lines.deep_view()),
{
    let ghost all = lines.deep_view();
    let ghost start = state@;
    let mut notes: Vec<Anomaly> = Vec::new();
    let mut i: usize = 0;
    while i < lines.len()
        invariant
            i <= lines@.len(),
            all == lines.deep_view(),
            start == old(state)@,
            run_lines(start, all.take(i as int)) == (
                state@,
                BatchModel { applied: i as nat, notes: notes@, failure: None },
            ),
        decreases lines@.len() - i,
    {
        proof {
            assert(all.take(i + 1).drop_last() =~= all.take(i as int));
            assert(all.take(i + 1).last() == lines@[i as int]@);
            assert(lines@[i as int].deep_view() =~= lines@[i as int]@);
        }
        let failure = match text_of(lines[i].as_slice()) {
            None => Some(StepError::NotText),
            Some(text) => match decode(text) {
                Err(error) => Some(StepError::Decode(error)),
                Ok(event) => {
                    match state.apply(event) {
                        Some(note) => {
                            notes.push(note);
                        },
                        None => {},
                    }
                    None
                },
            },
        };
        match failure {
            Some(error) => {
                proof {
                    lemma_failure_stops(start, all, i + 1);
                }
                return Batch { applied: i, notes, failure };
            },
            None => {},
        }
        i += 1;
    }
    assert(all.take(i as int) =~= all);
    Batch { applied: i, notes, failure: None }
}

/// A reader and the state that its lines act on.
pub struct Session {
    reader: FrameReader,
    state: WorkspaceState,
}

impl View for Session {
    type V = SessionModel;

    closed spec fn view(&self) -> SessionModel {
        SessionModel {
            pending: self.reader.pending(),
            limit: self.reader.limit(),
            state: self.state@,
        }
    }
}

impl Session {
    /// A session at its start: nothing read, the given workspaces known.
    pub fn new(capacity: usize, workspaces: WorkspaceSet) -> (session: Session)
        ensures
            session@.pending == Seq::<u8>::empty(),
            session@.limit == capacity,
            session@.state == initial(workspaces@),
    {
        Session { reader: FrameReader::new(capacity), state: WorkspaceState::new(workspaces) }
    }

    /// How many bytes the next chunk may have. Where this is 0 the open
    /// line does not fit the buffer, and the next step fails.
    pub fn free_len(&self) -> (n: usize)
        ensures
            n == self@.limit - self@.pending.len(),
    {
        self.reader.free_len()
    }

    /// The state.
    pub fn state(&self) -> (state: &WorkspaceState)
        ensures
            state@ == self@.state,
    {
        &self.state
    }

    /// The markup that shows the state.
    pub fn render(&self) -> (out: String)
        ensures
            out@ == markup(self@.state.workspaces, self@.state.active, self@.state.submap),
    {
        render_workspaces(
            self.state.workspaces(),
            self.state.active(),
            String::from_str(self.state.submap()),
        )
    }

    /// Takes the next chunk of the stream: completes lines with it, decodes
    /// them and applies the events, in the order of the lines.
    ///
    /// A chunk that the reader refuses changes nothing. A line that is no
    /// text or no event stops the batch: the lines before it have been
    /// applied, the others are dropped.
    pub fn step(&mut self, chunk: &[u8]) -> (batch: Batch)
        ensures
            (final(self)@, batch@) == step_model(old(self)@, chunk@),
            !final(self)@.pending.contains(LINE_FEED),
    {
        match self.reader.feed(chunk) {
            Err(error) => Batch {
                applied: 0,
                notes: Vec::new(),
                failure: Some(StepError::Frame(error)),
            },
            Ok(lines) => apply_lines(&mut self.state, &lines),
        }
    }
}

} // verus!
