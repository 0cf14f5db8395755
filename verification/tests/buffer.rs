use bounded_json::buffer::BoundedBuffer;
use bounded_json::ser::Error;

#[test]
fn new_buffer_is_empty() {
    let buf = BoundedBuffer::new(8);
    assert_eq!(buf.len(), 0);
    assert_eq!(buf.capacity(), 8);
    assert_eq!(buf.as_slice(), b"");
}

#[test]
fn push_until_full() {
    let mut buf = BoundedBuffer::new(2);
    assert_eq!(buf.push(b'a'), Ok(()));
    assert_eq!(buf.push(b'b'), Ok(()));
    assert_eq!(buf.push(b'c'), Err(Error::BufferFull));
    assert_eq!(buf.as_slice(), b"ab");
    assert_eq!(buf.len(), 2);
}

#[test]
fn push_into_no_room() {
    let mut buf = BoundedBuffer::new(0);
    assert_eq!(buf.push(b'a'), Err(Error::BufferFull));
    assert_eq!(buf.len(), 0);
}

#[test]
fn extend_is_all_or_nothing() {
    let mut buf = BoundedBuffer::new(5);
    assert_eq!(buf.extend_from_slice(b"abc"), Ok(()));
    assert_eq!(buf.extend_from_slice(b"def"), Err(Error::BufferFull));
    assert_eq!(buf.as_slice(), b"abc");
    assert_eq!(buf.extend_from_slice(b"de"), Ok(()));
    assert_eq!(buf.as_slice(), b"abcde");
    assert_eq!(buf.extend_from_slice(b""), Ok(()));
    assert_eq!(buf.extend_from_slice(b"f"), Err(Error::BufferFull));
    assert_eq!(buf.into_vec(), b"abcde".to_vec());
}

#[test]
fn extend_with_the_largest_capacity() {
    let mut buf = BoundedBuffer::new(usize::MAX);
    assert_eq!(buf.extend_from_slice(b"abc"), Ok(()));
    assert_eq!(buf.capacity(), usize::MAX);
    assert_eq!(buf.as_slice(), b"abc");
}
