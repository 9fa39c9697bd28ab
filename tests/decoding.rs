use uhttp_chunked_bytes::{ByteStream, ChunkError, ChunkedBytes, Phase, Pull, TransportError};

#[test]
fn scenario_single_chunk_leaves_final_crlf() {
    let mut c = ChunkedBytes::new(ByteStream::from_bytes(b"4\r\nabcd\r\n0\r\n\r\n"));
    let mut out = Vec::new();
    while let Some(r) = c.next() {
        out.push(r.unwrap());
    }
    assert_eq!(out, b"abcd".to_vec());
    assert_eq!(c.phase(), Phase::Finished);
    let mut s = c.into_inner();
    assert_eq!(s.next(), Some(Ok(b'\r')));
    assert_eq!(s.next(), Some(Ok(b'\n')));
    assert_eq!(s.next(), None);
}

#[test]
fn scenario_hex_size_ten() {
    let mut c = ChunkedBytes::new(ByteStream::from_bytes(b"A\r\n0123456789\r\n0\r\n\r\n"));
    let mut out = Vec::new();
    while let Some(r) = c.next() {
        out.push(r.unwrap());
    }
    assert_eq!(out, b"0123456789".to_vec());
}

#[test]
fn scenario_payload_taken_verbatim() {
    let mut c = ChunkedBytes::new(ByteStream::from_bytes(b"4\r\nab\r\ncd\r\n0\r\n\r\n"));
    assert_eq!(c.next(), Some(Ok(b'a')));
    assert_eq!(c.next(), Some(Ok(b'b')));
    assert_eq!(c.next(), Some(Ok(b'\r')));
    // The chunk must end with CR LF, but "cd" follows its four bytes.
    assert_eq!(c.next(), Some(Err(ChunkError::InvalidLineTerminator)));
}

#[test]
fn scenario_empty_input_ends() {
    let mut c = ChunkedBytes::new(ByteStream::from_bytes(b""));
    assert_eq!(c.next(), None);
    assert_eq!(c.next(), None);
}

#[test]
fn scenario_non_hex_size() {
    let mut c = ChunkedBytes::new(ByteStream::from_bytes(b"h\r\n"));
    assert_eq!(c.next(), Some(Err(ChunkError::InvalidChunkSize)));
}

#[test]
fn scenario_missing_chunk_terminator() {
    let mut c = ChunkedBytes::new(ByteStream::from_bytes(b"4\r\nabcdefg"));
    assert_eq!(c.next(), Some(Ok(b'a')));
    assert_eq!(c.next(), Some(Ok(b'b')));
    assert_eq!(c.next(), Some(Ok(b'c')));
    assert_eq!(c.next(), Some(Err(ChunkError::InvalidLineTerminator)));
}

#[test]
fn concatenates_payloads_of_all_chunks() {
    let mut c = ChunkedBytes::new(ByteStream::from_bytes(b"3\r\nabc\r\n1\r\nd\r\n02\r\nef\r\n0\r\n\r\n"));
    let mut out = Vec::new();
    while let Some(r) = c.next() {
        out.push(r.unwrap());
    }
    assert_eq!(out, b"abcdef".to_vec());
}

#[test]
fn extensions_are_discarded() {
    let body = b"4;name=value\r\nabcd\r\n2;;\x01\n;x\r\nef\r\n0;last=\"z\"\r\nT: v\r\n\r\n";
    let mut c = ChunkedBytes::new(ByteStream::from_bytes(body));
    let mut out = Vec::new();
    while let Some(r) = c.next() {
        out.push(r.unwrap());
    }
    assert_eq!(out, b"abcdef".to_vec());
    let mut s = c.into_inner();
    assert_eq!(s.next(), Some(Ok(b'T')));
}

#[test]
fn terminal_chunk_with_extension_ends() {
    let mut c = ChunkedBytes::new(ByteStream::from_bytes(b"000;a=b\r\nrest"));
    assert_eq!(c.next(), None);
    assert_eq!(c.next(), None);
    assert_eq!(c.phase(), Phase::Finished);
    let mut s = c.into_inner();
    assert_eq!(s.next(), Some(Ok(b'r')));
}

#[test]
fn end_is_permanent_and_reads_nothing() {
    let mut c = ChunkedBytes::new(ByteStream::from_bytes(b"0\r\n1\r\nx\r\n"));
    assert_eq!(c.next(), None);
    assert_eq!(c.next(), None);
    assert_eq!(c.next(), None);
    let mut s = c.into_inner();
    assert_eq!(s.next(), Some(Ok(b'1')));
}

#[test]
fn lower_and_upper_case_digits() {
    let mut c = ChunkedBytes::new(ByteStream::from_bytes(b"1a\r\n"));
    assert_eq!(c.next(), Some(Err(ChunkError::UnexpectedEndOfInput)));
    let mut c = ChunkedBytes::new(ByteStream::from_bytes(b"1A\r\nx"));
    assert_eq!(c.next(), Some(Ok(b'x')));
    assert_eq!(c.remain(), 25);
    let mut c = ChunkedBytes::new(ByteStream::from_bytes(b"fF\r\nx"));
    assert_eq!(c.next(), Some(Ok(b'x')));
    assert_eq!(c.remain(), 254);
}

#[test]
fn largest_size_is_accepted() {
    let digits = (usize::BITS / 4) as usize;
    let mut body = vec![b'F'; digits];
    body.extend_from_slice(b"\r\na");
    let mut c = ChunkedBytes::new(ByteStream::from_bytes(&body));
    assert_eq!(c.next(), Some(Ok(b'a')));
    assert_eq!(c.remain(), usize::MAX - 1);
}

#[test]
fn one_digit_too_many_is_refused_even_with_leading_zeros() {
    let digits = (usize::BITS / 4) as usize;
    let mut body = vec![b'0'; digits];
    body.extend_from_slice(b"1\r\na\r\n");
    let mut c = ChunkedBytes::new(ByteStream::from_bytes(&body));
    assert_eq!(c.next(), Some(Err(ChunkError::InvalidChunkSize)));
    // The refusal comes at the first digit too many: the rest is unread.
    let mut s = c.into_inner();
    assert_eq!(s.next(), Some(Ok(b'\r')));

    let mut body = vec![b'0'; digits];
    body.extend_from_slice(b"\r\n");
    let mut c = ChunkedBytes::new(ByteStream::from_bytes(&body));
    assert_eq!(c.next(), None);
}

#[test]
fn size_line_without_digits() {
    let mut c = ChunkedBytes::new(ByteStream::from_bytes(b"\r\na"));
    assert_eq!(c.next(), Some(Err(ChunkError::InvalidChunkSize)));
    // The line is read whole before it is refused.
    let mut s = c.into_inner();
    assert_eq!(s.next(), Some(Ok(b'a')));

    let mut c = ChunkedBytes::new(ByteStream::from_bytes(b";ext\r\na"));
    assert_eq!(c.next(), Some(Err(ChunkError::InvalidChunkSize)));
    let mut s = c.into_inner();
    assert_eq!(s.next(), Some(Ok(b'a')));

    let mut c = ChunkedBytes::new(ByteStream::from_bytes(b"\rX"));
    assert_eq!(c.next(), Some(Err(ChunkError::InvalidLineTerminator)));
    let mut c = ChunkedBytes::new(ByteStream::from_bytes(b"\r"));
    assert_eq!(c.next(), Some(Err(ChunkError::UnexpectedEndOfInput)));
    let failure = TransportError { code: 3 };
    let mut c = ChunkedBytes::new(ByteStream::new(vec![Ok(b'\r'), Err(failure)]));
    assert_eq!(c.next(), Some(Err(ChunkError::Transport(failure))));
}

#[test]
fn bad_line_terminators() {
    let mut c = ChunkedBytes::new(ByteStream::from_bytes(b"4\rXabcd"));
    assert_eq!(c.next(), Some(Err(ChunkError::InvalidLineTerminator)));
    let mut c = ChunkedBytes::new(ByteStream::from_bytes(b"1;e\rX"));
    assert_eq!(c.next(), Some(Err(ChunkError::InvalidLineTerminator)));
    let mut c = ChunkedBytes::new(ByteStream::from_bytes(b"1\r\na\rX"));
    assert_eq!(c.next(), Some(Err(ChunkError::InvalidLineTerminator)));
}

#[test]
fn input_ending_early() {
    let mut c = ChunkedBytes::new(ByteStream::from_bytes(b"4"));
    assert_eq!(c.next(), Some(Err(ChunkError::UnexpectedEndOfInput)));
    let mut c = ChunkedBytes::new(ByteStream::from_bytes(b"4\r"));
    assert_eq!(c.next(), Some(Err(ChunkError::UnexpectedEndOfInput)));
    let mut c = ChunkedBytes::new(ByteStream::from_bytes(b"4;abc"));
    assert_eq!(c.next(), Some(Err(ChunkError::UnexpectedEndOfInput)));
    let mut c = ChunkedBytes::new(ByteStream::from_bytes(b"4\r\nab"));
    assert_eq!(c.next(), Some(Ok(b'a')));
    assert_eq!(c.next(), Some(Ok(b'b')));
    assert_eq!(c.next(), Some(Err(ChunkError::UnexpectedEndOfInput)));
    let mut c = ChunkedBytes::new(ByteStream::from_bytes(b"1\r\na"));
    assert_eq!(c.next(), Some(Err(ChunkError::UnexpectedEndOfInput)));
}

#[test]
fn transport_failure_passes_through() {
    let failure = TransportError { code: 7 };
    let items = vec![Ok(b'2'), Ok(b'\r'), Ok(b'\n'), Ok(b'x'), Err(failure), Ok(b'y')];
    let mut c = ChunkedBytes::new(ByteStream::new(items));
    assert_eq!(c.next(), Some(Ok(b'x')));
    assert_eq!(c.next(), Some(Err(ChunkError::Transport(failure))));

    let items = vec![Ok(b'1'), Err(failure)];
    let mut c = ChunkedBytes::new(ByteStream::new(items));
    assert_eq!(c.next(), Some(Err(ChunkError::Transport(failure))));
}

#[test]
fn failure_is_repeated() {
    let mut c = ChunkedBytes::new(ByteStream::from_bytes(b"z\r\n1\r\na\r\n"));
    assert_eq!(c.next(), Some(Err(ChunkError::InvalidChunkSize)));
    assert_eq!(c.next(), Some(Err(ChunkError::InvalidChunkSize)));
    assert_eq!(c.phase(), Phase::Failed(ChunkError::InvalidChunkSize));
    assert_eq!(c.remain(), 0);
}

fn feed_all(body: &[u8]) -> (Vec<Option<Result<u8, ChunkError>>>, usize, ByteStream) {
    // Feeds `body` one element at a time, only when the decoder asks for more.
    let mut c = ChunkedBytes::new(ByteStream::open());
    let mut fed: usize = 0;
    let mut out = Vec::new();
    loop {
        match c.poll_next() {
            Pull::NeedMore => {
                if fed < body.len() {
                    c.push(Ok(body[fed]));
                    fed += 1;
                } else {
                    c.close();
                }
            }
            Pull::Ready(r) => {
                let done = !matches!(r, Some(Ok(_)));
                out.push(r);
                if done {
                    return (out, fed, c.into_inner());
                }
            }
        }
    }
}

#[test]
fn incremental_feeding_reads_no_further_than_needed() {
    let body = b"4;x=y\r\nabcd\r\n3\r\nefg\r\n0\r\nA: B\r\n\r\n";
    let (out, fed, _) = feed_all(body);
    let expected: Vec<Option<Result<u8, ChunkError>>> = b"abcdefg".iter().map(|&b| Some(Ok(b))).chain(std::iter::once(None)).collect();
    assert_eq!(out, expected);
    // Only the body up to the terminating size line was taken from the source.
    assert_eq!(&body[fed..], b"A: B\r\n\r\n");
}

#[test]
fn incremental_feeding_matches_whole_input() {
    let bodies: [&[u8]; 6] = [b"A\r\nabcdefghij\r\n2\r\n42\r\n", b"4\r\nabcdefg", b"h\r\n", b"\r\na", b"", b"1\r\na"];
    for body in bodies {
        let (out, _, _) = feed_all(body);
        let mut c = ChunkedBytes::new(ByteStream::from_bytes(body));
        let mut whole = Vec::new();
        loop {
            let r = c.next();
            let done = !matches!(r, Some(Ok(_)));
            whole.push(r);
            if done {
                break;
            }
        }
        assert_eq!(out, whole);
    }
}

#[test]
fn need_more_changes_nothing() {
    let mut c = ChunkedBytes::new(ByteStream::open());
    c.push(Ok(b'2'));
    assert!(matches!(c.poll_next(), Pull::NeedMore));
    assert!(matches!(c.poll_next(), Pull::NeedMore));
    c.push(Ok(b'\r'));
    c.push(Ok(b'\n'));
    c.push(Ok(b'x'));
    assert!(matches!(c.poll_next(), Pull::Ready(Some(Ok(b'x')))));
    assert_eq!(c.remain(), 1);
    c.push(Ok(b'y'));
    c.push(Ok(b'\r'));
    assert!(matches!(c.poll_next(), Pull::NeedMore));
    assert_eq!(c.remain(), 1);
    c.close();
    assert!(matches!(c.poll_next(), Pull::Ready(Some(Err(ChunkError::UnexpectedEndOfInput)))));
}
