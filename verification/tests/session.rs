use hypr_workspaces::event::DecodeError;
use hypr_workspaces::frame::FrameError;
use hypr_workspaces::session::{apply_lines, Session, StepError};
use hypr_workspaces::state::{Anomaly, WorkspaceState};
use hypr_workspaces::workspaces::WorkspaceSet;

fn session(ids: &[i32]) -> Session {
    Session::new(1024, WorkspaceSet::from_ids(&ids.to_vec()))
}

#[test]
fn session_at_the_start() {
    let s = session(&[1, 2, 3]);
    assert_eq!(s.free_len(), 1024);
    assert_eq!(s.state().workspaces(), vec![1, 2, 3]);
    assert_eq!(s.state().active(), 1);
    assert_eq!(s.state().submap(), "");
}

#[test]
fn scenario_workspace_becomes_active() {
    let mut s = session(&[1, 2, 3]);
    let batch = s.step(b"workspace>>2\n");
    assert_eq!(batch.failure, None);
    assert_eq!(batch.applied, 1);
    assert_eq!(batch.notes, vec![]);
    assert!(batch.should_render());
    assert_eq!(s.state().active(), 2);
    assert_eq!(s.state().workspaces(), vec![1, 2, 3]);
}

#[test]
fn scenario_create_and_destroy_in_one_read() {
    let mut s = session(&[1, 2, 3]);
    let batch = s.step(b"createworkspace>>4\ndestroyworkspace>>2\n");
    assert_eq!(batch.failure, None);
    assert_eq!(batch.applied, 2);
    assert_eq!(batch.notes, vec![]);
    assert!(batch.should_render());
    assert_eq!(s.state().workspaces(), vec![1, 3, 4]);
}

#[test]
fn scenario_set_after_each_of_the_two_events() {
    let mut s = session(&[1, 2, 3]);
    s.step(b"createworkspace>>4\n");
    assert_eq!(s.state().workspaces(), vec![1, 2, 3, 4]);
    s.step(b"destroyworkspace>>2\n");
    assert_eq!(s.state().workspaces(), vec![1, 3, 4]);
}

#[test]
fn scenario_create_of_known_workspace() {
    let mut s = session(&[1, 2, 3]);
    let batch = s.step(b"createworkspace>>1\n");
    assert_eq!(batch.failure, None);
    assert_eq!(batch.applied, 1);
    assert_eq!(batch.notes, vec![Anomaly::CreatedExisting(1)]);
    assert!(batch.should_render());
    assert_eq!(s.state().workspaces(), vec![1, 2, 3]);
}

#[test]
fn scenario_submap_entered_and_left() {
    let mut s = session(&[1, 2, 3]);
    let first = s.step(b"submap>>resize\n");
    assert_eq!(first.failure, None);
    assert_eq!(s.state().submap(), "resize");
    let second = s.step(b"submap>>\n");
    assert_eq!(second.failure, None);
    assert_eq!(s.state().submap(), "");
}

#[test]
fn scenario_submap_in_one_read() {
    let mut s = session(&[1, 2, 3]);
    let batch = s.step(b"submap>>resize\nsubmap>>\n");
    assert_eq!(batch.applied, 2);
    assert_eq!(s.state().submap(), "");
}

#[test]
fn destroy_of_unknown_workspace_is_noted() {
    let mut s = session(&[1, 2, 3]);
    let batch = s.step(b"destroyworkspace>>9\ncreateworkspace>>2\nworkspace>>3\n");
    assert_eq!(batch.failure, None);
    assert_eq!(batch.applied, 3);
    assert_eq!(batch.notes, vec![Anomaly::DestroyedMissing(9), Anomaly::CreatedExisting(2)]);
    assert_eq!(s.state().workspaces(), vec![1, 2, 3]);
    assert_eq!(s.state().active(), 3);
}

#[test]
fn chunk_without_line_feed_shows_nothing() {
    let mut s = session(&[1, 2, 3]);
    let batch = s.step(b"workspace>>2");
    assert_eq!(batch.failure, None);
    assert_eq!(batch.applied, 0);
    assert!(!batch.should_render());
    assert_eq!(s.state().active(), 1);
    assert_eq!(s.free_len(), 1024 - 12);
    let rest = s.step(b"\n");
    assert_eq!(rest.applied, 1);
    assert!(rest.should_render());
    assert_eq!(s.state().active(), 2);
    assert_eq!(s.free_len(), 1024);
}

#[test]
fn batch_of_ignored_lines_is_shown_again() {
    let mut s = session(&[1, 2, 3]);
    let batch = s.step(b"activewindow>>kitty,zsh\nfocusedmon>>eDP-1,1\n");
    assert_eq!(batch.failure, None);
    assert_eq!(batch.applied, 2);
    assert!(batch.should_render());
    assert_eq!(s.state().workspaces(), vec![1, 2, 3]);
    assert_eq!(s.state().active(), 1);
}

#[test]
fn fragments_give_the_same_state() {
    let stream = b"createworkspace>>4\nworkspace>>4\nsubmap>>resize\ndestroyworkspace>>2\nsubm";
    let mut whole = session(&[1, 2, 3]);
    let batch = whole.step(stream);
    assert_eq!(batch.applied, 4);

    let mut single = session(&[1, 2, 3]);
    let mut applied = 0;
    for byte in stream.iter() {
        let b = single.step(&[*byte]);
        assert_eq!(b.failure, None);
        applied += b.applied;
    }
    assert_eq!(applied, 4);
    assert_eq!(single.state().workspaces(), whole.state().workspaces());
    assert_eq!(single.state().workspaces(), vec![1, 3, 4]);
    assert_eq!(single.state().active(), 4);
    assert_eq!(single.state().submap(), "resize");
    assert_eq!(single.free_len(), whole.free_len());
    assert_eq!(single.render(), whole.render());
}

#[test]
fn line_without_delimiter_stops_the_batch() {
    let mut s = session(&[1, 2, 3]);
    let batch = s.step(b"createworkspace>>4\nnonsense\ndestroyworkspace>>1\n");
    assert_eq!(batch.failure, Some(StepError::Decode(DecodeError::MalformedLine)));
    assert_eq!(batch.applied, 1);
    assert!(!batch.should_render());
    assert_eq!(s.state().workspaces(), vec![1, 2, 3, 4]);
}

#[test]
fn bad_number_stops_the_batch() {
    let mut s = session(&[1, 2, 3]);
    let batch = s.step(b"workspace>>two\n");
    assert_eq!(batch.failure, Some(StepError::Decode(DecodeError::InvalidArgument)));
    assert_eq!(batch.applied, 0);
    assert_eq!(s.state().active(), 1);
}

#[test]
fn line_that_is_no_text_stops_the_batch() {
    let mut s = session(&[1, 2, 3]);
    let batch = s.step(&[b's', b'u', b'b', b'm', b'a', b'p', b'>', b'>', 0xff, b'\n']);
    assert_eq!(batch.failure, Some(StepError::NotText));
    assert_eq!(batch.applied, 0);
    assert_eq!(s.state().submap(), "");
}

#[test]
fn notes_before_a_failure_are_kept() {
    let mut s = session(&[1]);
    let batch = s.step(b"createworkspace>>1\nbroken\n");
    assert_eq!(batch.notes, vec![Anomaly::CreatedExisting(1)]);
    assert_eq!(batch.applied, 1);
    assert_eq!(batch.failure, Some(StepError::Decode(DecodeError::MalformedLine)));
}

#[test]
fn character_cut_in_two_reads_is_whole_again() {
    let mut s = session(&[1]);
    let text = "submap>>gr\u{f6}\u{df}e\n".as_bytes();
    let cut = 11;
    let first = s.step(&text[..cut]);
    assert_eq!(first.failure, None);
    let second = s.step(&text[cut..]);
    assert_eq!(second.failure, None);
    assert_eq!(s.state().submap(), "gr\u{f6}\u{df}e");
}

#[test]
fn line_longer_than_the_buffer_is_fatal() {
    let mut s = Session::new(8, WorkspaceSet::from_ids(&vec![1]));
    let first = s.step(b"workspac");
    assert_eq!(first.failure, None);
    assert_eq!(s.free_len(), 0);
    let second = s.step(b"e>>2\n");
    assert_eq!(second.failure, Some(StepError::Frame(FrameError::LineTooLong)));
    assert_eq!(second.applied, 0);
    assert!(!second.should_render());
    assert_eq!(s.state().active(), 1);
}

#[test]
fn chunk_longer_than_the_free_part_is_refused() {
    let mut s = Session::new(8, WorkspaceSet::from_ids(&vec![1]));
    let batch = s.step(b"workspace>>2\n");
    assert_eq!(batch.failure, Some(StepError::Frame(FrameError::ChunkTooLarge)));
    assert_eq!(s.free_len(), 8);
    assert_eq!(s.state().active(), 1);
}

#[test]
fn render_shows_the_state() {
    let mut s = session(&[1, 2]);
    s.step(b"workspace>>2\nsubmap>>resize\n");
    let expected = String::from(
        "(box :class \"workspaces\" :orientation \"h\" :spacing 5 :space-evenly \"false\" ",
    ) + "(button :width 10 :onclick \"hyprctl dispatch workspace 1\" :class \"workspace \" \"\u{391}\") "
        + "(button :width 10 :onclick \"hyprctl dispatch workspace 2\" :class \"workspace active-workspace\" \"\u{392}\") "
        + " \"resize\" )";
    assert_eq!(s.render(), expected);
}

#[test]
fn apply_lines_in_their_order() {
    let mut state = WorkspaceState::new(WorkspaceSet::from_ids(&vec![1, 2, 3]));
    let lines = vec![
        b"workspace>>3".to_vec(),
        b"workspace>>2".to_vec(),
        b"destroyworkspace>>3".to_vec(),
        b"createworkspace>>3".to_vec(),
    ];
    let batch = apply_lines(&mut state, &lines);
    assert_eq!(batch.failure, None);
    assert_eq!(batch.applied, 4);
    assert_eq!(batch.notes, vec![]);
    assert_eq!(state.active(), 2);
    assert_eq!(state.workspaces(), vec![1, 2, 3]);
}
