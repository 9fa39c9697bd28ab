use uhttp_chunked_bytes::{ByteStream, ChunkedBytes};

#[test]
fn test_chunked_bytes() {
    let stream = b"A\r\nabcdefghij\r\n2\r\n42\r\n";
    let mut c = ChunkedBytes::new(ByteStream::from_bytes(stream));
    assert_eq!(c.next().unwrap().unwrap(), b'a');
    assert_eq!(c.next().unwrap().unwrap(), b'b');
    assert_eq!(c.next().unwrap().unwrap(), b'c');
    assert_eq!(c.next().unwrap().unwrap(), b'd');
    assert_eq!(c.next().unwrap().unwrap(), b'e');
    assert_eq!(c.next().unwrap().unwrap(), b'f');
    assert_eq!(c.next().unwrap().unwrap(), b'g');
    assert_eq!(c.next().unwrap().unwrap(), b'h');
    assert_eq!(c.next().unwrap().unwrap(), b'i');
    assert_eq!(c.next().unwrap().unwrap(), b'j');
    assert_eq!(c.next().unwrap().unwrap(), b'4');
    assert_eq!(c.next().unwrap().unwrap(), b'2');
    assert!(c.next().is_none());

    let stream = b"a\r\nabc\r\nfghij\r\n2\r\n42\r\n";
    let mut c = ChunkedBytes::new(ByteStream::from_bytes(stream));
    assert_eq!(c.next().unwrap().unwrap(), b'a');
    assert_eq!(c.next().unwrap().unwrap(), b'b');
    assert_eq!(c.next().unwrap().unwrap(), b'c');
    assert_eq!(c.next().unwrap().unwrap(), b'\r');
    assert_eq!(c.next().unwrap().unwrap(), b'\n');
    assert_eq!(c.next().unwrap().unwrap(), b'f');
    assert_eq!(c.next().unwrap().unwrap(), b'g');
    assert_eq!(c.next().unwrap().unwrap(), b'h');
    assert_eq!(c.next().unwrap().unwrap(), b'i');
    assert_eq!(c.next().unwrap().unwrap(), b'j');
    assert_eq!(c.next().unwrap().unwrap(), b'4');
    assert_eq!(c.next().unwrap().unwrap(), b'2');
    assert!(c.next().is_none());

    let stream = b"4\r\nabcd\r\n0\r\n\r\n";
    let mut c = ChunkedBytes::new(ByteStream::from_bytes(stream));
    assert_eq!(c.next().unwrap().unwrap(), b'a');
    assert_eq!(c.next().unwrap().unwrap(), b'b');
    assert_eq!(c.next().unwrap().unwrap(), b'c');
    assert_eq!(c.next().unwrap().unwrap(), b'd');
    assert!(c.next().is_none());
    let mut iter = c.into_inner();
    assert_eq!(iter.next().unwrap().unwrap(), b'\r');
    assert_eq!(iter.next().unwrap().unwrap(), b'\n');
    assert!(iter.next().is_none());

    let stream = b"4\r\nabcd\r\n0\r\nA: B\r\n\r\n";
    let mut c = ChunkedBytes::new(ByteStream::from_bytes(stream));
    assert_eq!(c.next().unwrap().unwrap(), b'a');
    assert_eq!(c.next().unwrap().unwrap(), b'b');
    assert_eq!(c.next().unwrap().unwrap(), b'c');
    assert_eq!(c.next().unwrap().unwrap(), b'd');
    assert!(c.next().is_none());
    let mut iter = c.into_inner();
    assert_eq!(iter.next().unwrap().unwrap(), b'A');
    assert_eq!(iter.next().unwrap().unwrap(), b':');
    assert_eq!(iter.next().unwrap().unwrap(), b' ');
    assert_eq!(iter.next().unwrap().unwrap(), b'B');
    assert_eq!(iter.next().unwrap().unwrap(), b'\r');
    assert_eq!(iter.next().unwrap().unwrap(), b'\n');
    assert_eq!(iter.next().unwrap().unwrap(), b'\r');
    assert_eq!(iter.next().unwrap().unwrap(), b'\n');
    assert!(iter.next().is_none());

    let stream = b"";
    let mut c = ChunkedBytes::new(ByteStream::from_bytes(stream));
    assert!(c.next().is_none());

    let stream = b"0\r\n\r\n";
    let mut c = ChunkedBytes::new(ByteStream::from_bytes(stream));
    assert!(c.next().is_none());

    let stream = b"h\r\n";
    let mut c = ChunkedBytes::new(ByteStream::from_bytes(stream));
    assert!(c.next().unwrap().is_err());

    let stream = b"\r\na";
    let mut c = ChunkedBytes::new(ByteStream::from_bytes(stream));
    assert!(c.next().unwrap().is_err());

    let stream = b"4\r\nabcdefg";
    let mut c = ChunkedBytes::new(ByteStream::from_bytes(stream));
    assert_eq!(c.next().unwrap().unwrap(), b'a');
    assert_eq!(c.next().unwrap().unwrap(), b'b');
    assert_eq!(c.next().unwrap().unwrap(), b'c');
    assert!(c.next().unwrap().is_err());
}

#[test]
fn test_max_size() {
    // Sizes on a 64-bit platform.
    if usize::BITS != 64 {
        return;
    }
    let stream = b"FFFFFFFFFFFFFFFF\r\na";
    let mut c = ChunkedBytes::new(ByteStream::from_bytes(stream));
    assert_eq!(c.next().unwrap().unwrap(), b'a');
    assert_eq!(c.remain(), std::usize::MAX - 1);

    let stream = b"FFFFFFFFFFFFFFFFF\r\na";
    let mut c = ChunkedBytes::new(ByteStream::from_bytes(stream));
    assert!(c.next().unwrap().is_err());
}

#[test]
fn lib_test_max_size() {
    // Sizes on a 32-bit platform.
    if usize::BITS != 32 {
        return;
    }
    let stream = b"FFFFFFFF\r\na";
    let mut c = ChunkedBytes::new(ByteStream::from_bytes(stream));
    assert_eq!(c.next().unwrap().unwrap(), b'a');
    assert_eq!(c.remain(), std::usize::MAX - 1);

    let stream = b"FFFFFFFFF\r\na";
    let mut c = ChunkedBytes::new(ByteStream::from_bytes(stream));
    assert!(c.next().unwrap().is_err());
}
