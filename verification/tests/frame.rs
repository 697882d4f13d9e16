use hypr_workspaces::frame::{FrameError, FrameReader, LINE_FEED, UDSOCKET_BUFFER_SIZE};

fn lines(items: &[&str]) -> Vec<Vec<u8>> {
    items.iter().map(|s| s.as_bytes().to_vec()).collect()
}

#[test]
fn line_feed_is_newline() {
    assert_eq!(LINE_FEED, b'\n');
    assert_eq!(UDSOCKET_BUFFER_SIZE, 1024);
}

#[test]
fn new_reader_is_empty() {
    let reader = FrameReader::new(16);
    assert_eq!(reader.capacity(), 16);
    assert_eq!(reader.pending_len(), 0);
    assert_eq!(reader.free_len(), 16);
    assert_eq!(reader.pending_bytes(), Vec::<u8>::new());
}

#[test]
fn one_complete_line() {
    let mut reader = FrameReader::new(64);
    assert_eq!(reader.feed(b"workspace>>2\n"), Ok(lines(&["workspace>>2"])));
    assert_eq!(reader.pending_len(), 0);
    assert_eq!(reader.free_len(), 64);
}

#[test]
fn two_lines_in_one_read() {
    let mut reader = FrameReader::new(64);
    assert_eq!(
        reader.feed(b"createworkspace>>4\ndestroyworkspace>>2\n"),
        Ok(lines(&["createworkspace>>4", "destroyworkspace>>2"]))
    );
    assert_eq!(reader.pending_len(), 0);
}

#[test]
fn open_line_is_kept() {
    let mut reader = FrameReader::new(64);
    assert_eq!(reader.feed(b"a\nbc"), Ok(lines(&["a"])));
    assert_eq!(reader.pending_bytes(), b"bc".to_vec());
    assert_eq!(reader.pending_len(), 2);
    assert_eq!(reader.free_len(), 62);
}

#[test]
fn carry_over_rebuilds_the_line() {
    let mut reader = FrameReader::new(64);
    assert_eq!(reader.feed(b"works"), Ok(lines(&[])));
    assert_eq!(reader.pending_bytes(), b"works".to_vec());
    assert_eq!(reader.feed(b"pace>>7\n"), Ok(lines(&["workspace>>7"])));
    assert_eq!(reader.pending_bytes(), Vec::<u8>::new());
}

#[test]
fn carry_over_across_three_reads() {
    let mut reader = FrameReader::new(64);
    assert_eq!(reader.feed(b"sub"), Ok(lines(&[])));
    assert_eq!(reader.feed(b"map>>"), Ok(lines(&[])));
    assert_eq!(reader.feed(b"resize\nsubmap>>\nwork"), Ok(lines(&["submap>>resize", "submap>>"])));
    assert_eq!(reader.pending_bytes(), b"work".to_vec());
}

#[test]
fn empty_lines_are_lines() {
    let mut reader = FrameReader::new(8);
    assert_eq!(reader.feed(b"\n\nx\n"), Ok(lines(&["", "", "x"])));
    assert_eq!(reader.pending_len(), 0);
}

#[test]
fn empty_chunk_changes_nothing() {
    let mut reader = FrameReader::new(8);
    assert_eq!(reader.feed(b"ab"), Ok(lines(&[])));
    assert_eq!(reader.feed(b""), Ok(lines(&[])));
    assert_eq!(reader.pending_bytes(), b"ab".to_vec());
}

#[test]
fn byte_by_byte_gives_the_same_lines() {
    let stream = b"workspace>>2\ncreateworkspace>>4\n\nsubmap>>resize\ndestroy";
    let mut whole = FrameReader::new(128);
    let at_once = whole.feed(stream).unwrap();

    let mut single = FrameReader::new(128);
    let mut collected: Vec<Vec<u8>> = Vec::new();
    for byte in stream.iter() {
        collected.extend(single.feed(&[*byte]).unwrap());
    }
    assert_eq!(collected, at_once);
    assert_eq!(at_once, lines(&["workspace>>2", "createworkspace>>4", "", "submap>>resize"]));
    assert_eq!(single.pending_bytes(), whole.pending_bytes());
    assert_eq!(whole.pending_bytes(), b"destroy".to_vec());
}

#[test]
fn every_cut_in_two_gives_the_same_lines() {
    let stream = b"a>>1\nbb>>22\n\nccc";
    let mut whole = FrameReader::new(32);
    let expected = whole.feed(stream).unwrap();
    for cut in 0..=stream.len() {
        let mut reader = FrameReader::new(32);
        let mut got = reader.feed(&stream[..cut]).unwrap();
        got.extend(reader.feed(&stream[cut..]).unwrap());
        assert_eq!(got, expected);
        assert_eq!(reader.pending_bytes(), b"ccc".to_vec());
    }
}

#[test]
fn chunk_that_fills_the_buffer_is_taken() {
    let mut reader = FrameReader::new(4);
    assert_eq!(reader.feed(b"abc\n"), Ok(lines(&["abc"])));
    assert_eq!(reader.free_len(), 4);
    assert_eq!(reader.feed(b"abcd"), Ok(lines(&[])));
    assert_eq!(reader.free_len(), 0);
}

#[test]
fn full_buffer_without_line_feed_is_fatal() {
    let mut reader = FrameReader::new(4);
    assert_eq!(reader.feed(b"abcd"), Ok(lines(&[])));
    assert_eq!(reader.feed(b"\n"), Err(FrameError::LineTooLong));
    assert_eq!(reader.feed(b""), Err(FrameError::LineTooLong));
    assert_eq!(reader.pending_bytes(), b"abcd".to_vec());
}

#[test]
fn chunk_beyond_the_free_part_is_refused() {
    let mut reader = FrameReader::new(4);
    assert_eq!(reader.feed(b"ab"), Ok(lines(&[])));
    assert_eq!(reader.feed(b"c\nd"), Err(FrameError::ChunkTooLarge));
    assert_eq!(reader.pending_bytes(), b"ab".to_vec());
    assert_eq!(reader.feed(b"c\n"), Ok(lines(&["abc"])));
}

#[test]
fn reader_without_room_takes_nothing() {
    let mut reader = FrameReader::new(0);
    assert_eq!(reader.feed(b""), Err(FrameError::LineTooLong));
    assert_eq!(reader.feed(b"a"), Err(FrameError::LineTooLong));
}

#[test]
fn buffer_is_reused_after_lines() {
    let mut reader = FrameReader::new(8);
    for round in 0..10u8 {
        let text = [b'a' + round, b'>', b'>', b'1', b'\n', b'x'];
        let got = reader.feed(&text).unwrap();
        if round == 0 {
            assert_eq!(got, vec![text[..4].to_vec()]);
        } else {
            let mut line = vec![b'x'];
            line.extend_from_slice(&text[..4]);
            assert_eq!(got, vec![line]);
        }
        assert_eq!(reader.pending_bytes(), b"x".to_vec());
    }
}

#[test]
fn no_line_holds_a_line_feed() {
    let mut reader = FrameReader::new(64);
    let got = reader.feed(b"a\n\nb\nc\n\n\nrest").unwrap();
    assert_eq!(got.len(), 6);
    for line in got.iter() {
        assert!(!line.contains(&LINE_FEED));
    }
    assert!(!reader.pending_bytes().contains(&LINE_FEED));
}
