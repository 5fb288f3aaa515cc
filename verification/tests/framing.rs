use serial_plotter::framing::{FrameSplitter, DELIMITER};

fn records_of(splitter: &mut FrameSplitter, chunk: &[u8]) -> Vec<String> {
    splitter
        .feed(chunk)
        .into_iter()
        .map(|record| String::from_utf8(record).unwrap())
        .collect()
}

/// What a splitter hands on for the whole stream given in one chunk.
fn in_one_go(limit: usize, stream: &[u8]) -> (Vec<Vec<u8>>, Vec<u8>, bool, bool) {
    let mut splitter = FrameSplitter::new(limit);
    let records = splitter.feed(stream);
    (
        records,
        splitter.pending().to_vec(),
        splitter.is_awaiting_first(),
        splitter.is_discarding(),
    )
}

/// The records of a stream by a plain split, with the two rules applied.
fn by_split(limit: usize, stream: &[u8]) -> (Vec<Vec<u8>>, Vec<u8>) {
    let parts: Vec<&[u8]> = stream.split(|byte| *byte == b'\n').collect();
    let last = parts.len() - 1;
    let mut records = Vec::new();
    for (i, part) in parts.iter().enumerate() {
        if i != 0 && i != last && part.len() <= limit {
            records.push(part.to_vec());
        }
    }
    let held = if parts[last].len() <= limit {
        parts[last].to_vec()
    } else {
        Vec::new()
    };
    (records, held)
}

#[test]
fn delimiter_is_line_feed() {
    assert_eq!(DELIMITER, b'\n');
}

#[test]
fn new_splitter_is_fresh() {
    let splitter = FrameSplitter::new(64);
    assert_eq!(splitter.limit(), 64);
    assert!(splitter.pending().is_empty());
    assert!(splitter.is_awaiting_first());
    assert!(!splitter.is_discarding());
}

#[test]
fn header_is_dropped_and_remainder_is_held() {
    let mut splitter = FrameSplitter::new(64);
    let records = records_of(&mut splitter, b"pos,val\n1.0,2.0\n3.0,4.0\n5.0");
    assert_eq!(records, vec!["1.0,2.0".to_string(), "3.0,4.0".to_string()]);
    assert_eq!(splitter.pending(), b"5.0");
    assert!(!splitter.is_awaiting_first());
    assert!(!splitter.is_discarding());
}

#[test]
fn remainder_is_completed_by_the_next_chunk() {
    let mut splitter = FrameSplitter::new(64);
    assert_eq!(records_of(&mut splitter, b"head\n1.0,"), Vec::<String>::new());
    assert_eq!(splitter.pending(), b"1.0,");
    assert_eq!(records_of(&mut splitter, b"2.0\n3."), vec!["1.0,2.0".to_string()]);
    assert_eq!(splitter.pending(), b"3.");
    assert_eq!(records_of(&mut splitter, b"0,4.0\n"), vec!["3.0,4.0".to_string()]);
    assert_eq!(splitter.pending(), b"");
}

#[test]
fn header_is_dropped_once_per_session_not_once_per_chunk() {
    let mut splitter = FrameSplitter::new(64);
    assert_eq!(records_of(&mut splitter, b"head\na\n"), vec!["a".to_string()]);
    assert_eq!(records_of(&mut splitter, b"b\nc\n"), vec!["b".to_string(), "c".to_string()]);
}

#[test]
fn header_split_over_chunks_is_dropped_whole() {
    let mut splitter = FrameSplitter::new(64);
    assert_eq!(records_of(&mut splitter, b"he"), Vec::<String>::new());
    assert!(splitter.is_awaiting_first());
    assert_eq!(records_of(&mut splitter, b"ad"), Vec::<String>::new());
    assert_eq!(records_of(&mut splitter, b"\nx\n"), vec!["x".to_string()]);
    assert!(!splitter.is_awaiting_first());
}

#[test]
fn empty_chunk_changes_nothing() {
    let mut splitter = FrameSplitter::new(8);
    splitter.feed(b"h\nab");
    assert_eq!(splitter.feed(b""), Vec::<Vec<u8>>::new());
    assert_eq!(splitter.pending(), b"ab");
    assert!(!splitter.is_awaiting_first());
    assert!(!splitter.is_discarding());
}

#[test]
fn empty_records_are_handed_on() {
    let mut splitter = FrameSplitter::new(8);
    assert_eq!(
        records_of(&mut splitter, b"\n\n\na\n\n"),
        vec!["".to_string(), "".to_string(), "a".to_string(), "".to_string()]
    );
}

#[test]
fn record_of_exactly_the_limit_is_kept() {
    let mut splitter = FrameSplitter::new(4);
    assert_eq!(records_of(&mut splitter, b"h\nabcd\n"), vec!["abcd".to_string()]);
}

#[test]
fn record_over_the_limit_is_dropped() {
    let mut splitter = FrameSplitter::new(4);
    assert_eq!(records_of(&mut splitter, b"h\nabcde\nxy\n"), vec!["xy".to_string()]);
    assert!(!splitter.is_discarding());
}

#[test]
fn overlong_record_without_delimiter_is_discarded_and_ingestion_resumes() {
    let mut splitter = FrameSplitter::new(8);
    assert_eq!(records_of(&mut splitter, b"head\n1,2\n"), vec!["1,2".to_string()]);
    for _ in 0..1000 {
        assert_eq!(splitter.feed(b"0123456789"), Vec::<Vec<u8>>::new());
        assert!(splitter.pending().len() <= 8);
    }
    assert!(splitter.is_discarding());
    assert!(splitter.pending().is_empty());
    assert_eq!(
        records_of(&mut splitter, b"tail\n3,4\n5,6\n7"),
        vec!["3,4".to_string(), "5,6".to_string()]
    );
    assert!(!splitter.is_discarding());
    assert_eq!(splitter.pending(), b"7");
}

#[test]
fn pending_never_exceeds_the_limit() {
    let mut splitter = FrameSplitter::new(3);
    splitter.feed(b"h\n");
    splitter.feed(b"ab");
    assert_eq!(splitter.pending(), b"ab");
    splitter.feed(b"c");
    assert_eq!(splitter.pending(), b"abc");
    assert!(!splitter.is_discarding());
    splitter.feed(b"d");
    assert_eq!(splitter.pending(), b"");
    assert!(splitter.is_discarding());
    assert_eq!(splitter.feed(b"e\n"), Vec::<Vec<u8>>::new());
    assert!(!splitter.is_discarding());
}

#[test]
fn overlong_header_is_dropped_like_any_header() {
    let mut splitter = FrameSplitter::new(2);
    assert_eq!(records_of(&mut splitter, b"a long header\nab\n"), vec!["ab".to_string()]);
}

#[test]
fn limit_of_zero_keeps_only_empty_records() {
    let mut splitter = FrameSplitter::new(0);
    assert_eq!(
        records_of(&mut splitter, b"h\n\na\n\n"),
        vec!["".to_string(), "".to_string()]
    );
}

#[test]
fn bytes_that_are_no_text_are_handed_on() {
    let mut splitter = FrameSplitter::new(16);
    let records = splitter.feed(&[b'h', b'\n', 0xFF, 0xFE, 0x00, b'\n']);
    assert_eq!(records, vec![vec![0xFF, 0xFE, 0x00]]);
}

#[test]
fn reset_starts_a_new_session() {
    let mut splitter = FrameSplitter::new(16);
    splitter.feed(b"h\na\nrest");
    splitter.reset();
    assert_eq!(splitter.limit(), 16);
    assert!(splitter.pending().is_empty());
    assert!(splitter.is_awaiting_first());
    assert!(!splitter.is_discarding());
    assert_eq!(records_of(&mut splitter, b"h2\nb\n"), vec!["b".to_string()]);
}

#[test]
fn reset_ends_a_discard() {
    let mut splitter = FrameSplitter::new(2);
    splitter.feed(b"h\nabcdef");
    assert!(splitter.is_discarding());
    splitter.reset();
    assert!(!splitter.is_discarding());
    assert_eq!(records_of(&mut splitter, b"h\nab\n"), vec!["ab".to_string()]);
}

#[test]
fn one_chunk_gives_the_records_of_a_plain_split() {
    let streams: Vec<&[u8]> = vec![
        b"",
        b"\n",
        b"abc",
        b"abc\n",
        b"h\na,b\nc,d\n",
        b"h\na,b\nc,d\ne",
        b"\n\n\n",
        b"h\n0123456789\nab\n012345\n",
        b"h\nab\n0123456789",
    ];
    for stream in streams {
        for limit in [0usize, 1, 2, 5, 6, 100] {
            let (records, held, awaiting, discarding) = in_one_go(limit, stream);
            let (expected, expected_held) = by_split(limit, stream);
            assert_eq!(records, expected);
            assert_eq!(held, expected_held);
            assert_eq!(awaiting, !stream.contains(&b'\n'));
            let last = stream.split(|byte| *byte == b'\n').last().unwrap().len();
            assert_eq!(discarding, last > limit);
        }
    }
}

#[test]
fn any_cut_of_the_stream_gives_the_same_records() {
    let stream: &[u8] = b"pos,val\n1.0,2.0\n\n3.0,4.0\nthis one is too long\n5,6\n7.";
    for limit in [0usize, 3, 7, 8, 64] {
        let (whole, held, awaiting, discarding) = in_one_go(limit, stream);
        for first in 0..=stream.len() {
            for second in first..=stream.len() {
                let mut splitter = FrameSplitter::new(limit);
                let mut records = splitter.feed(&stream[..first]);
                records.extend(splitter.feed(&stream[first..second]));
                records.extend(splitter.feed(&stream[second..]));
                assert_eq!(records, whole);
                assert_eq!(splitter.pending(), &held[..]);
                assert_eq!(splitter.is_awaiting_first(), awaiting);
                assert_eq!(splitter.is_discarding(), discarding);
            }
        }
    }
}

#[test]
fn byte_by_byte_gives_the_same_records() {
    let stream: &[u8] = b"head\n1,2\n3,4\n0123456789012345\n5,6\n7";
    let (whole, held, _, _) = in_one_go(8, stream);
    let mut splitter = FrameSplitter::new(8);
    let mut records = Vec::new();
    for byte in stream {
        records.extend(splitter.feed(&[*byte]));
    }
    assert_eq!(records, whole);
    assert_eq!(splitter.pending(), &held[..]);
}

#[test]
fn no_byte_is_lost_or_doubled() {
    let stream: &[u8] = b"head\n1,2\n3,4\n5,6\n7,";
    let mut splitter = FrameSplitter::new(64);
    let mut records = Vec::new();
    for chunk in stream.chunks(3) {
        records.extend(splitter.feed(chunk));
    }
    let mut rebuilt: Vec<u8> = b"head".to_vec();
    for record in &records {
        rebuilt.extend_from_slice(record);
    }
    rebuilt.extend_from_slice(splitter.pending());
    let without_delimiters: Vec<u8> =
        stream.iter().copied().filter(|byte| *byte != b'\n').collect();
    assert_eq!(rebuilt, without_delimiters);
    assert_eq!(records.len(), 3);
}
