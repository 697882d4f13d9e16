//! The state that the events act on: the known workspaces, the active one
//! and the submap.

use crate::event::{Event, EventModel};
use crate::workspaces::{
    ascending, lemma_with_id, lemma_without_id, with_id, without_id, WorkspaceSet,
};
use vstd::prelude::*;
use vstd::string::*;

verus! {

/// The workspace that counts as active until the compositor names one.
pub const DEFAULT_ACTIVE: i32 = 1;

/// An event that contradicts what is known. It changes nothing and is worth
/// a line in the log.
#[derive(Clone, Copy, Debug, PartialEq, Eq, Structural)]
pub enum Anomaly {
    /// A workspace was created that is known already.
    CreatedExisting(i32),
    /// A workspace was destroyed that is not known.
    DestroyedMissing(i32),
}

/// The state as contracts see it.
pub ghost struct StateModel {
    /// The numbers of the known workspaces, ascending.
    pub workspaces: Seq<i32>,
    /// The number of the active workspace.
    pub active: i32,
    /// The name of the submap; empty for none.
    pub submap: Seq<char>,
}

/// The state at the start: the given workspaces, the default workspace
/// active, no submap.
pub open spec fn initial(workspaces: Seq<i32>) -> StateModel {
    StateModel { workspaces, active: DEFAULT_ACTIVE, submap: Seq::empty() }
}

/// The state after `event`.
pub open spec fn transition(state: StateModel, event: EventModel) -> StateModel {
    match event {
        EventModel::Workspace(id) => StateModel { active: id, ..state },
        EventModel::CreateWorkspace(id) => StateModel {
            workspaces: with_id(state.workspaces, id),
            ..state
        },
        EventModel::DestroyWorkspace(id) => StateModel {
            workspaces: without_id(state.workspaces, id),
            ..state
        },
        EventModel::Submap(name) => StateModel { submap: name, ..state },
        EventModel::Ignored => state,
    }
}

/// What is odd about `event` in `state`, if anything.
pub open spec fn anomaly(state: StateModel, event: EventModel) -> Option<Anomaly> {
    match event {
        EventModel::CreateWorkspace(id) if state.workspaces.contains(id) => Some(
            Anomaly::CreatedExisting(id),
        ),
        EventModel::DestroyWorkspace(id) if !state.workspaces.contains(id) => Some(
            Anomaly::DestroyedMissing(id),
        ),
        _ => None,
    }
}

/// The state after all of `events`, in their order.
pub open spec fn transition_all(state: StateModel, events: Seq<EventModel>) -> StateModel
    decreases events.len(),
{
    if events.len() == 0 {
        state
    } else {
        transition(transition_all(state, events.drop_last()), events.last())
    }
}

/// No event breaks the order of the workspaces: after it they are still
/// ascending, each number once.
pub proof fn lemma_transition_keeps_order(state: StateModel, event: EventModel)
    requires
        ascending(state.workspaces),
    ensures
        ascending(transition(state, event).workspaces),
{
    match event {
        EventModel::CreateWorkspace(id) => lemma_with_id(state.workspaces, id),
        EventModel::DestroyWorkspace(id) => lemma_without_id(state.workspaces, id),
        _ => {},
    }
}

/// No sequence of events breaks the order of the workspaces, however
/// creations and destructions alternate and however many of them are
/// redundant.
pub proof fn lemma_order_is_invariant(state: StateModel, events: Seq<EventModel>)
    requires
        ascending(state.workspaces),
    ensures
        ascending(transition_all(state, events).workspaces),
    decreases events.len(),
{
    if events.len() > 0 {
        lemma_order_is_invariant(state, events.drop_last());
        lemma_transition_keeps_order(transition_all(state, events.drop_last()), events.last());
    }
}

/// Creating a workspace that is known changes nothing and is an anomaly.
pub proof fn lemma_redundant_create(state: StateModel, id: i32)
    requires
        ascending(state.workspaces),
        state.workspaces.contains(id),
    ensures
        transition(state, EventModel::CreateWorkspace(id)) == state,
        anomaly(state, EventModel::CreateWorkspace(id)) == Some(Anomaly::CreatedExisting(id)),
{
    lemma_with_id(state.workspaces, id);
}

/// Destroying a workspace that is not known changes nothing and is an
/// anomaly.
pub proof fn lemma_redundant_destroy(state: StateModel, id: i32)
    requires
        ascending(state.workspaces),
        !state.workspaces.contains(id),
    ensures
        transition(state, EventModel::DestroyWorkspace(id)) == state,
        anomaly(state, EventModel::DestroyWorkspace(id)) == Some(Anomaly::DestroyedMissing(id)),
{
    lemma_without_id(state.workspaces, id);
}

/// Creating the same workspace twice is the same as creating it once.
pub proof fn lemma_create_twice(state: StateModel, id: i32)
    requires
        ascending(state.workspaces),
    ensures
        ({
            let once = transition(state, EventModel::CreateWorkspace(id));
            transition(once, EventModel::CreateWorkspace(id)) == once
        }),
{
    lemma_with_id(state.workspaces, id);
    let once = with_id(state.workspaces, id);
    assert(once.contains(id));
    lemma_with_id(once, id);
}

/// The known workspaces, the active one and the submap.
pub struct WorkspaceState {
    workspaces: WorkspaceSet,
    active: i32,
    submap: String,
}

impl View for WorkspaceState {
    type V = StateModel;

    closed spec fn view(&self) -> StateModel {
        StateModel { workspaces: self.workspaces@, active: self.active, submap: self.submap@ }
    }
}

impl WorkspaceState {
    /// The state at the start: the workspaces that were found, the default
    /// workspace active, no submap.
    pub fn new(workspaces: WorkspaceSet) -> (state: WorkspaceState)
        ensures
            state@ == initial(workspaces@),
    {
        WorkspaceState { workspaces, active: DEFAULT_ACTIVE, submap: String::new() }
    }

    /// The numbers of the known workspaces, ascending.
    pub fn workspaces(&self) -> (ids: Vec<i32>)
        ensures
            ids@ == self@.workspaces,
            ascending(ids@),
    {
        self.workspaces.to_vec()
    }

    /// The number of the active workspace.
    pub fn active(&self) -> (id: i32)
        ensures
            id == self@.active,
    {
        self.active
    }

    /// The name of the submap; empty for none.
    pub fn submap(&self) -> (name: &str)
        ensures
            name@ == self@.submap,
    {
        self.submap.as_str()
    }

    /// Applies one event and says what was odd about it.
    ///
    /// The active workspace is taken as reported, whether it is known or
    /// not. A workspace that is created twice, or destroyed without being
    /// known, leaves the set as it is.
    pub fn apply(&mut self, event: Event) -> (note: Option<Anomaly>)
        ensures
            final(self)@ == transition(old(self)@, event@),
            note == anomaly(old(self)@, event@),
            ascending(final(self)@.workspaces),
    {
        let note = match event {
            Event::Workspace(id) => {
                self.active = id;
                None
            },
            Event::CreateWorkspace(id) => {
                if self.workspaces.insert(id) {
                    None
                } else {
                    Some(Anomaly::CreatedExisting(id))
                }
            },
            Event::DestroyWorkspace(id) => {
                if self.workspaces.remove(id) {
                    None
                } else {
                    Some(Anomaly::DestroyedMissing(id))
                }
            },
            Event::Submap(name) => {
                self.submap = name;
                None
            },
            Event::Ignored => None,
        };
        proof {
            use_type_invariant(&self.workspaces);
        }
        note
    }
}

} // verus!
