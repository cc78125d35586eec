use tap_stream::stream::{Handshake, Parser, Pulled, ResultStream, StreamError};
use tap_stream::{TestDirective, TestPoint};

fn drain(rs: &mut ResultStream) -> (Vec<TestPoint>, Option<StreamError>) {
    let mut records = Vec::new();
    loop {
        match rs.poll_next() {
            Pulled::Record(p) => records.push(p),
            Pulled::Pending => panic!("the source is closed; a pull must decide"),
            Pulled::Finished => return (records, None),
            Pulled::Failed(e) => return (records, Some(e)),
        }
    }
}

fn run_in_chunks(chunks: &[&[u8]]) -> (Vec<TestPoint>, Option<StreamError>) {
    let mut parser = Parser::new();
    let mut fed = 0;
    loop {
        match parser.handshake() {
            Handshake::Accepted => break,
            Handshake::Pending => {
                if fed == chunks.len() {
                    parser.close();
                } else {
                    assert!(parser.feed_bytes(chunks[fed]));
                    fed += 1;
                }
            }
            Handshake::Rejected => panic!("the header should have been accepted"),
        }
    }
    let mut rs = parser.test_results();
    let mut records = Vec::new();
    loop {
        match rs.poll_next() {
            Pulled::Record(p) => records.push(p),
            Pulled::Pending => {
                if fed == chunks.len() {
                    rs.close();
                } else {
                    assert!(rs.feed_bytes(chunks[fed]));
                    fed += 1;
                }
            }
            Pulled::Finished => return (records, None),
            Pulled::Failed(e) => return (records, Some(e)),
        }
    }
}

#[test]
fn single_bare_ok_line_yields_one_record() {
    let mut parser = Parser::new();
    parser.feed("TAP Version 14\nok\n");
    parser.close();
    assert_eq!(parser.handshake(), Handshake::Accepted);
    let mut rs = parser.test_results();
    let (records, err) = drain(&mut rs);
    assert_eq!(err, None);
    assert_eq!(
        records,
        vec![TestPoint {
            status: true,
            test_number: None,
            description: None,
            directive: None,
            yaml: None,
        }]
    );
}

#[test]
fn wrong_version_header_fails_setup() {
    let mut parser = Parser::new();
    parser.feed("TAP Version 13\nok\n");
    assert_eq!(parser.handshake(), Handshake::Rejected);
}

#[test]
fn short_header_is_pending_until_decidable() {
    let mut parser = Parser::new();
    parser.feed("TAP Vers");
    assert_eq!(parser.handshake(), Handshake::Pending);
    parser.feed("ion 14\n");
    assert_eq!(parser.handshake(), Handshake::Accepted);
}

#[test]
fn truncated_test_point_is_a_terminal_error() {
    let mut parser = Parser::new();
    parser.feed("TAP Version 14\nok 3 - desc");
    assert_eq!(parser.handshake(), Handshake::Accepted);
    let mut rs = parser.test_results();
    assert_eq!(rs.poll_next(), Pulled::Pending);
    rs.close();
    assert_eq!(rs.poll_next(), Pulled::Failed(StreamError::TruncatedStream));
    assert_eq!(rs.poll_next(), Pulled::Finished);
}

#[test]
fn malformed_line_is_a_syntax_error() {
    let mut parser = Parser::new();
    parser.feed("TAP Version 14\nwat\n");
    assert_eq!(parser.handshake(), Handshake::Accepted);
    let mut rs = parser.test_results();
    assert_eq!(rs.poll_next(), Pulled::Failed(StreamError::SyntaxError));
    assert_eq!(rs.poll_next(), Pulled::Finished);
}

#[test]
fn two_buffered_lines_are_both_recognised_without_more_input() {
    // The fragment of a third line after them settles both: no YAML block
    // can follow either record any more.
    let mut parser = Parser::new();
    parser.feed("TAP Version 14\nok 1\nok 2\nnot");
    assert_eq!(parser.handshake(), Handshake::Accepted);
    let mut rs = parser.test_results();
    match rs.poll_next() {
        Pulled::Record(p) => assert_eq!(p.test_number, Some(1)),
        _ => panic!("expected the first record"),
    }
    match rs.poll_next() {
        Pulled::Record(p) => assert_eq!(p.test_number, Some(2)),
        _ => panic!("expected the second record from the same buffer"),
    }
    assert_eq!(rs.poll_next(), Pulled::Pending);
    rs.feed(" ok 3\n");
    rs.close();
    match rs.poll_next() {
        Pulled::Record(p) => assert_eq!(p.status, false),
        _ => panic!("expected the third record"),
    }
    assert_eq!(rs.poll_next(), Pulled::Finished);
}

#[test]
fn unterminated_directive_marker_stays_pending() {
    let mut parser = Parser::new();
    parser.feed("TAP Version 14\nok - this is a description #");
    assert_eq!(parser.handshake(), Handshake::Accepted);
    let mut rs = parser.test_results();
    assert_eq!(rs.poll_next(), Pulled::Pending);
    rs.feed(" todo later\n");
    rs.close();
    match rs.poll_next() {
        Pulled::Record(p) => {
            assert_eq!(p.description, Some("this is a description".to_string()));
            assert_eq!(p.directive, Some(TestDirective::Todo(Some("later".to_string()))));
        }
        _ => panic!("expected a record once the terminator arrived"),
    }
}

#[test]
fn chunk_boundaries_do_not_change_the_records() {
    let whole: &[u8] = b"TAP Version 14\nok 1 - alpha\nnot ok 2 # skip flaky\nok 3\n";
    let (expected, err) = run_in_chunks(&[whole]);
    assert_eq!(err, None);
    assert_eq!(expected.len(), 3);
    for cut in 0..=whole.len() {
        let (a, b) = whole.split_at(cut);
        let (records, err) = run_in_chunks(&[a, b]);
        assert_eq!(err, None, "split at {cut}");
        assert_eq!(records, expected, "split at {cut}");
    }
}

#[test]
fn chunk_boundary_inside_a_yaml_block_keeps_it_whole() {
    let whole: &[u8] = b"TAP Version 14\nok 1\n  ---\n  cause: none\n  ...\nok 2\n";
    let (expected, err) = run_in_chunks(&[whole]);
    assert_eq!(err, None);
    assert_eq!(expected.len(), 2);
    assert_eq!(expected[0].yaml, Some("  cause: none\n".to_string()));
    for cut in 0..=whole.len() {
        let (a, b) = whole.split_at(cut);
        let (records, err) = run_in_chunks(&[a, b]);
        assert_eq!(err, None, "split at {cut}");
        assert_eq!(records, expected, "split at {cut}");
    }
}

#[test]
fn chunk_boundary_inside_a_multi_byte_character_is_reassembled() {
    let whole = "TAP Version 14\nok 1 - caf\u{e9} r\u{e9}ussi\n".as_bytes();
    let (expected, err) = run_in_chunks(&[whole]);
    assert_eq!(err, None);
    assert_eq!(expected[0].description, Some("caf\u{e9} r\u{e9}ussi".to_string()));
    for cut in 0..=whole.len() {
        let (a, b) = whole.split_at(cut);
        let (records, err) = run_in_chunks(&[a, b]);
        assert_eq!(err, None, "split at {cut}");
        assert_eq!(records, expected, "split at {cut}");
    }
}

#[test]
fn bytes_that_can_never_be_text_are_refused() {
    let mut parser = Parser::new();
    assert!(parser.feed_bytes(b"TAP Version 14\n"));
    assert!(!parser.feed_bytes(&[0xff, 0xfe]));
}

#[test]
fn records_after_a_yaml_block_keep_their_order() {
    let mut parser = Parser::new();
    parser.feed("TAP Version 14\nok 1\n  ---\nk: v\n  ...\nnot ok 2\n");
    assert_eq!(parser.handshake(), Handshake::Accepted);
    let mut rs = parser.test_results();
    rs.close();
    let (records, err) = drain(&mut rs);
    assert_eq!(err, None);
    assert_eq!(records.len(), 2);
    assert_eq!(records[0].yaml, Some("k: v\n".to_string()));
    assert_eq!(records[1].status, false);
}

#[test]
fn source_closing_inside_a_character_is_truncation() {
    let mut parser = Parser::new();
    parser.feed("TAP Version 14\nok\n");
    assert_eq!(parser.handshake(), Handshake::Accepted);
    let mut rs = parser.test_results();
    // The first byte of a two-byte character, with the rest never arriving.
    assert!(rs.feed_bytes(&[0xc3]));
    rs.close();
    match rs.poll_next() {
        Pulled::Record(p) => assert!(p.status),
        _ => panic!("expected the complete record first"),
    }
    assert_eq!(rs.poll_next(), Pulled::Failed(StreamError::TruncatedStream));
}

#[test]
fn a_chunk_ending_inside_a_character_is_accepted() {
    let mut parser = Parser::new();
    assert!(parser.feed_bytes(b"TAP Version 14\n"));
    // The first two bytes of a three-byte character must not be refused.
    assert!(parser.feed_bytes(&[0xe2, 0x82]));
    assert!(parser.feed_bytes(&[0xac]));
    assert_eq!(parser.handshake(), Handshake::Accepted);
}
