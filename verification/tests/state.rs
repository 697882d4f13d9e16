use hypr_workspaces::event::Event;
use hypr_workspaces::state::{Anomaly, WorkspaceState, DEFAULT_ACTIVE};
use hypr_workspaces::workspaces::WorkspaceSet;

fn start(ids: &[i32]) -> WorkspaceState {
    WorkspaceState::new(WorkspaceSet::from_ids(&ids.to_vec()))
}

#[test]
fn state_at_the_start() {
    let state = start(&[1, 2, 3]);
    assert_eq!(state.workspaces(), vec![1, 2, 3]);
    assert_eq!(state.active(), 1);
    assert_eq!(DEFAULT_ACTIVE, 1);
    assert_eq!(state.submap(), "");
}

#[test]
fn workspace_sets_the_active_one() {
    let mut state = start(&[1, 2, 3]);
    assert_eq!(state.apply(Event::Workspace(2)), None);
    assert_eq!(state.active(), 2);
    assert_eq!(state.workspaces(), vec![1, 2, 3]);
    assert_eq!(state.submap(), "");
}

#[test]
fn active_workspace_need_not_be_known() {
    let mut state = start(&[1, 2, 3]);
    assert_eq!(state.apply(Event::Workspace(99)), None);
    assert_eq!(state.active(), 99);
    assert_eq!(state.workspaces(), vec![1, 2, 3]);
}

#[test]
fn create_inserts_in_order() {
    let mut state = start(&[1, 3]);
    assert_eq!(state.apply(Event::CreateWorkspace(2)), None);
    assert_eq!(state.workspaces(), vec![1, 2, 3]);
    assert_eq!(state.apply(Event::CreateWorkspace(4)), None);
    assert_eq!(state.workspaces(), vec![1, 2, 3, 4]);
    assert_eq!(state.apply(Event::CreateWorkspace(-1)), None);
    assert_eq!(state.workspaces(), vec![-1, 1, 2, 3, 4]);
    assert_eq!(state.active(), 1);
}

#[test]
fn create_of_known_workspace_is_an_anomaly() {
    let mut state = start(&[1, 2, 3]);
    assert_eq!(state.apply(Event::CreateWorkspace(1)), Some(Anomaly::CreatedExisting(1)));
    assert_eq!(state.workspaces(), vec![1, 2, 3]);
    assert_eq!(state.apply(Event::CreateWorkspace(1)), Some(Anomaly::CreatedExisting(1)));
    assert_eq!(state.workspaces(), vec![1, 2, 3]);
}

#[test]
fn destroy_removes() {
    let mut state = start(&[1, 2, 3, 4]);
    assert_eq!(state.apply(Event::DestroyWorkspace(2)), None);
    assert_eq!(state.workspaces(), vec![1, 3, 4]);
}

#[test]
fn destroy_of_unknown_workspace_is_an_anomaly() {
    let mut state = start(&[1, 3]);
    assert_eq!(state.apply(Event::DestroyWorkspace(2)), Some(Anomaly::DestroyedMissing(2)));
    assert_eq!(state.workspaces(), vec![1, 3]);
}

#[test]
fn destroy_of_the_active_workspace_keeps_it_active() {
    let mut state = start(&[1, 2]);
    assert_eq!(state.apply(Event::Workspace(2)), None);
    assert_eq!(state.apply(Event::DestroyWorkspace(2)), None);
    assert_eq!(state.active(), 2);
    assert_eq!(state.workspaces(), vec![1]);
}

#[test]
fn submap_is_replaced() {
    let mut state = start(&[1]);
    assert_eq!(state.apply(Event::Submap(String::from("resize"))), None);
    assert_eq!(state.submap(), "resize");
    assert_eq!(state.apply(Event::Submap(String::new())), None);
    assert_eq!(state.submap(), "");
    assert_eq!(state.workspaces(), vec![1]);
    assert_eq!(state.active(), 1);
}

#[test]
fn ignored_event_changes_nothing() {
    let mut state = start(&[1, 2]);
    state.apply(Event::Workspace(2));
    state.apply(Event::Submap(String::from("move")));
    assert_eq!(state.apply(Event::Ignored), None);
    assert_eq!(state.workspaces(), vec![1, 2]);
    assert_eq!(state.active(), 2);
    assert_eq!(state.submap(), "move");
}

#[test]
fn create_twice_is_create_once() {
    let mut once = start(&[1, 5]);
    once.apply(Event::CreateWorkspace(3));
    let mut twice = start(&[1, 5]);
    twice.apply(Event::CreateWorkspace(3));
    twice.apply(Event::CreateWorkspace(3));
    assert_eq!(once.workspaces(), twice.workspaces());
    assert_eq!(twice.workspaces(), vec![1, 3, 5]);
}
