use yumchat::decode::decode_chunks;
use yumchat::decode::ChunkDecoder;
use yumchat::decode::DecodeOutcome;
use yumchat::decode::DecodeStep;

fn record_line(json: &str) -> Vec<u8> {
    let mut v = json.as_bytes().to_vec();
    v.push(b'\n');
    v
}

#[test]
fn test_record_decodes_to_unit() {
    // {"response":"Hello","done":true} decodes to visible "Hello", empty
    // reasoning, final record
    let mut dec = ChunkDecoder::new();
    dec.feed(&record_line(r#"{"response":"Hello","done":true}"#));
    match dec.poll() {
        DecodeStep::Out(DecodeOutcome::Record(u)) => {
            assert_eq!(u.response, "Hello");
            assert_eq!(u.thinking, "");
            assert!(u.done);
        }
        other => panic!("expected a record, got {:?}", other),
    }
}

#[test]
fn test_generate_response_deserialization() {
    let json = r#"{"response":"Hello","done":true,"context":[]}"#;
    let mut dec = ChunkDecoder::new();
    dec.feed(&record_line(json));
    let step = dec.poll();
    match step {
        DecodeStep::Out(DecodeOutcome::Record(response)) => {
            assert_eq!(response.response, "Hello");
            assert!(response.done);
        }
        other => panic!("expected a record, got {:?}", other),
    }
}

#[test]
fn test_chunking_invariance() {
    // a fixed set of well-formed newline-delimited records, delivered under
    // several byte-boundary splits, decodes identically to the unsplit input
    let r1 = r#"{"thinking":"Let me think","done":false}"#;
    let r2 = r#"{"response":"Sure","done":false}"#;
    let r3 = r#"{"response":"!","done":true}"#;
    let mut full = Vec::new();
    full.extend_from_slice(r1.as_bytes());
    full.push(b'\n');
    full.extend_from_slice(r2.as_bytes());
    full.push(b'\n');
    full.extend_from_slice(r3.as_bytes());
    full.push(b'\n');

    let unsplit = decode_chunks(&vec![full.clone()]);
    assert_eq!(unsplit.len(), 3);

    // split inside a record
    let mid = 17;
    let chunked_mid = decode_chunks(&vec![full[..mid].to_vec(), full[mid..].to_vec()]);
    assert_eq!(chunked_mid, unsplit);

    // split exactly at a newline boundary
    let at_nl = r1.len() + 1;
    let chunked_nl = decode_chunks(&vec![full[..at_nl].to_vec(), full[at_nl..].to_vec()]);
    assert_eq!(chunked_nl, unsplit);

    // one byte per chunk
    let bytewise: Vec<Vec<u8>> = full.iter().map(|b| vec![*b]).collect();
    assert_eq!(decode_chunks(&bytewise), unsplit);

    // an empty chunk in the middle changes nothing
    let with_empty = decode_chunks(&vec![full[..5].to_vec(), Vec::new(), full[5..].to_vec()]);
    assert_eq!(with_empty, unsplit);
}

#[test]
fn test_multiple_records_in_one_chunk() {
    let mut dec = ChunkDecoder::new();
    let mut chunk = record_line(r#"{"response":"a","done":false}"#);
    chunk.extend_from_slice(&record_line(r#"{"response":"b","done":false}"#));
    dec.feed(&chunk);
    match dec.poll() {
        DecodeStep::Out(DecodeOutcome::Record(u)) => assert_eq!(u.response, "a"),
        other => panic!("expected a record, got {:?}", other),
    }
    match dec.poll() {
        DecodeStep::Out(DecodeOutcome::Record(u)) => assert_eq!(u.response, "b"),
        other => panic!("expected a record, got {:?}", other),
    }
    assert!(matches!(dec.poll(), DecodeStep::NeedInput));
}

#[test]
fn test_blank_records_are_skipped() {
    let mut dec = ChunkDecoder::new();
    dec.feed(&b"\n   \n".to_vec());
    assert!(matches!(dec.poll(), DecodeStep::NeedInput));
    dec.feed(&record_line(r#"{"response":"x","done":false}"#));
    match dec.poll() {
        DecodeStep::Out(DecodeOutcome::Record(u)) => assert_eq!(u.response, "x"),
        other => panic!("expected a record, got {:?}", other),
    }
}

#[test]
fn test_malformed_record_surfaces_offending_text() {
    let mut dec = ChunkDecoder::new();
    dec.feed(&b"not json at all\n".to_vec());
    match dec.poll() {
        DecodeStep::Out(DecodeOutcome::Malformed(text)) => {
            assert_eq!(text, b"not json at all".to_vec());
        }
        other => panic!("expected a malformed-record error, got {:?}", other),
    }
    // the sequence may continue after one bad record
    dec.feed(&record_line(r#"{"response":"ok","done":false}"#));
    match dec.poll() {
        DecodeStep::Out(DecodeOutcome::Record(u)) => assert_eq!(u.response, "ok"),
        other => panic!("expected a record, got {:?}", other),
    }
}

#[test]
fn test_missing_or_wrong_done_field_is_malformed() {
    let mut dec = ChunkDecoder::new();
    dec.feed(&record_line(r#"{"response":"x"}"#));
    assert!(matches!(
        dec.poll(),
        DecodeStep::Out(DecodeOutcome::Malformed(_))
    ));
    dec.feed(&record_line(r#"{"response":"x","done":"yes"}"#));
    assert!(matches!(
        dec.poll(),
        DecodeStep::Out(DecodeOutcome::Malformed(_))
    ));
}

#[test]
fn test_final_record_without_terminator() {
    // a final chunk that omits the trailing newline still parses once the
    // buffered bytes form a complete record on their own
    let mut dec = ChunkDecoder::new();
    dec.feed(&br#"{"done":tr"#.to_vec());
    assert!(matches!(dec.poll(), DecodeStep::NeedInput));
    dec.feed(&br#"ue}"#.to_vec());
    match dec.poll() {
        DecodeStep::Out(DecodeOutcome::Record(u)) => assert!(u.done),
        other => panic!("expected a record, got {:?}", other),
    }
    assert!(matches!(dec.poll(), DecodeStep::Finished));
}

#[test]
fn test_finish_on_leftover_and_empty() {
    // an unparseable leftover surfaces on finish; a blank one is discarded
    let mut dec = ChunkDecoder::new();
    dec.feed(&b"garbage tail".to_vec());
    assert!(matches!(dec.poll(), DecodeStep::NeedInput));
    match dec.finish() {
        Some(DecodeOutcome::Malformed(text)) => assert_eq!(text, b"garbage tail".to_vec()),
        other => panic!("expected a malformed-record error, got {:?}", other),
    }

    let mut empty = ChunkDecoder::new();
    empty.feed(&b"  \n".to_vec());
    assert!(matches!(empty.poll(), DecodeStep::NeedInput));
    assert!(empty.finish().is_none());
}

#[test]
fn test_final_unit_terminates_the_stream() {
    // nothing is produced after a record with done:true
    let mut chunk = record_line(r#"{"response":"end","done":true}"#);
    chunk.extend_from_slice(&record_line(r#"{"response":"late","done":false}"#));
    let mut dec = ChunkDecoder::new();
    dec.feed(&chunk);
    match dec.poll() {
        DecodeStep::Out(DecodeOutcome::Record(u)) => assert!(u.done),
        other => panic!("expected a record, got {:?}", other),
    }
    assert!(matches!(dec.poll(), DecodeStep::Finished));
    assert!(dec.finish().is_none());
}

#[test]
fn test_record_straddling_two_chunks() {
    let mut dec = ChunkDecoder::new();
    dec.feed(&br#"{"response":"spl"#.to_vec());
    assert!(matches!(dec.poll(), DecodeStep::NeedInput));
    dec.feed(&b"it\",\"done\":false}\n".to_vec());
    match dec.poll() {
        DecodeStep::Out(DecodeOutcome::Record(u)) => assert_eq!(u.response, "split"),
        other => panic!("expected a record, got {:?}", other),
    }
}
