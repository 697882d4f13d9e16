use hypr_workspaces::event::{decode, parse_message, same_text, DecodeError, Event};

#[test]
fn workspace_message() {
    assert_eq!(parse_message("workspace", "2"), Ok(Event::Workspace(2)));
    assert_eq!(parse_message("workspace", "-3"), Ok(Event::Workspace(-3)));
}

#[test]
fn create_message() {
    assert_eq!(parse_message("createworkspace", "4"), Ok(Event::CreateWorkspace(4)));
}

#[test]
fn destroy_message() {
    assert_eq!(parse_message("destroyworkspace", "2"), Ok(Event::DestroyWorkspace(2)));
}

#[test]
fn submap_message_keeps_its_text() {
    assert_eq!(parse_message("submap", "resize"), Ok(Event::Submap(String::from("resize"))));
    assert_eq!(parse_message("submap", ""), Ok(Event::Submap(String::new())));
    assert_eq!(parse_message("submap", " 12 "), Ok(Event::Submap(String::from(" 12 "))));
    assert_eq!(
        parse_message("submap", "\u{3b1}\u{3b2}"),
        Ok(Event::Submap(String::from("\u{3b1}\u{3b2}")))
    );
}

#[test]
fn other_messages_are_ignored() {
    assert_eq!(parse_message("activewindow", "kitty,zsh"), Ok(Event::Ignored));
    assert_eq!(parse_message("", ""), Ok(Event::Ignored));
    assert_eq!(parse_message("focusedmon", "not a number"), Ok(Event::Ignored));
}

#[test]
fn names_are_case_sensitive_and_exact() {
    assert_eq!(parse_message("Workspace", "2"), Ok(Event::Ignored));
    assert_eq!(parse_message("workspace ", "2"), Ok(Event::Ignored));
    assert_eq!(parse_message("workspaces", "2"), Ok(Event::Ignored));
    assert_eq!(parse_message("SUBMAP", "x"), Ok(Event::Ignored));
}

#[test]
fn number_that_is_none_is_invalid() {
    assert_eq!(parse_message("workspace", "two"), Err(DecodeError::InvalidArgument));
    assert_eq!(parse_message("workspace", ""), Err(DecodeError::InvalidArgument));
    assert_eq!(parse_message("createworkspace", "4 "), Err(DecodeError::InvalidArgument));
    assert_eq!(parse_message("destroyworkspace", "2147483648"), Err(DecodeError::InvalidArgument));
}

#[test]
fn decode_lines() {
    assert_eq!(decode("workspace>>2"), Ok(Event::Workspace(2)));
    assert_eq!(decode("createworkspace>>4"), Ok(Event::CreateWorkspace(4)));
    assert_eq!(decode("destroyworkspace>>2"), Ok(Event::DestroyWorkspace(2)));
    assert_eq!(decode("submap>>resize"), Ok(Event::Submap(String::from("resize"))));
    assert_eq!(decode("submap>>"), Ok(Event::Submap(String::new())));
    assert_eq!(decode("openwindow>>a,b,c"), Ok(Event::Ignored));
}

#[test]
fn decode_cuts_at_the_first_delimiter() {
    assert_eq!(decode("submap>>a>>b"), Ok(Event::Submap(String::from("a>>b"))));
    assert_eq!(decode("submap>>>"), Ok(Event::Submap(String::from(">"))));
    assert_eq!(decode(">>workspace>>1"), Ok(Event::Ignored));
    assert_eq!(decode("workspace>>>2"), Err(DecodeError::InvalidArgument));
    assert_eq!(decode("submap>>>>"), Ok(Event::Submap(String::from(">>"))));
}

#[test]
fn decode_with_text_beyond_ascii() {
    assert_eq!(
        decode("submap>>gr\u{f6}\u{df}e \u{1f600}"),
        Ok(Event::Submap(String::from("gr\u{f6}\u{df}e \u{1f600}")))
    );
    assert_eq!(decode("\u{3b1}\u{3b2}>>1"), Ok(Event::Ignored));
    assert_eq!(decode("\u{3b1}workspace>>1"), Ok(Event::Ignored));
}

#[test]
fn line_without_delimiter_is_malformed() {
    assert_eq!(decode("workspace"), Err(DecodeError::MalformedLine));
    assert_eq!(decode(""), Err(DecodeError::MalformedLine));
    assert_eq!(decode(">"), Err(DecodeError::MalformedLine));
    assert_eq!(decode("workspace>2"), Err(DecodeError::MalformedLine));
    assert_eq!(decode("workspace> >2"), Err(DecodeError::MalformedLine));
}

#[test]
fn line_with_bad_number_is_invalid() {
    assert_eq!(decode("workspace>>x"), Err(DecodeError::InvalidArgument));
    assert_eq!(decode("createworkspace>>"), Err(DecodeError::InvalidArgument));
    assert_eq!(decode("destroyworkspace>>1 2"), Err(DecodeError::InvalidArgument));
}

#[test]
fn same_text_compares_characters() {
    assert!(same_text("", ""));
    assert!(same_text("submap", "submap"));
    assert!(!same_text("submap", "submaP"));
    assert!(!same_text("submap", "submaps"));
    assert!(!same_text("a", ""));
    assert!(same_text("\u{3b1}", "\u{3b1}"));
    assert!(!same_text("\u{3b1}", "\u{3b2}"));
}

#[test]
fn event_clone_is_equal() {
    for event in [
        Event::Workspace(1),
        Event::CreateWorkspace(2),
        Event::DestroyWorkspace(3),
        Event::Submap(String::from("resize")),
        Event::Ignored,
    ] {
        assert_eq!(event.clone(), event);
    }
}
