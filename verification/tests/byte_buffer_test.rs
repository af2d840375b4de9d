use lsm_core::obj::byte_buffer::ByteBuffer;
use lsm_core::obj::slice::Slice;

#[test]
fn test_byte_buffer_new() {
    let capacity = 16;
    let mut buffer = ByteBuffer::new(capacity);
    assert_eq!(buffer.cap(), capacity);
    buffer.resize(capacity);
    assert_eq!(buffer.len(), capacity);
    assert!(!buffer.is_empty());
    buffer.init(0, buffer.len());
    assert_eq!(buffer.as_slice(), &[0; 16]);
}

#[test]
fn test_byte_buffer_from_slice() {
    let data = b"Hello, Rust!";
    let buffer = ByteBuffer::from_slice(data);
    assert_eq!(buffer.as_slice(), data);
    assert_eq!(buffer.len(), data.len());
}

#[test]
fn test_byte_buffer_from_vec() {
    let data: Vec<u8> = vec![1, 2, 3, 4, 5];
    let buffer = ByteBuffer::from_vec(&data);
    let buffer_slice: &[u8] = buffer.as_slice();
    let data_slice: &[u8] = data.as_slice();
    assert_eq!(buffer_slice, data_slice);
    assert_eq!(buffer.len(), data.len());
}

#[test]
fn test_empty_buffer() {
    let buffer = ByteBuffer::new(0);
    assert_eq!(buffer.as_slice(), &[0; 0]);
    assert_eq!(buffer.len(), 0);
    assert!(buffer.is_empty());
}

#[test]
fn test_index() {
    let mut buffer = ByteBuffer::new(4);
    buffer.resize(4);
    buffer.set(0, 42);
    buffer.set(1, 255);
    assert_eq!(buffer.get(0), 42);
    assert_eq!(buffer.get(1), 255);
}

#[test]
#[should_panic]
fn test_index_out_of_bounds() {
    let buffer = ByteBuffer::new(4);
    let _ = buffer.get(4);
}

#[test]
fn test_mutable_slice() {
    let mut buffer = ByteBuffer::new(4);
    buffer.resize(4);
    let slice = buffer.as_mut_slice();
    slice[0] = 42;
    assert_eq!(buffer.as_slice()[0], 42);
    buffer.set(1, 7);
    assert_eq!(buffer.as_slice(), &[42, 7, 0, 0]);
    buffer.advance(1);
    buffer.as_mut_slice()[0] = 9;
    assert_eq!(buffer.as_slice(), &[9, 0, 0]);
}

#[test]
fn test_byte_buffer_window() {
    let mut buffer = ByteBuffer::from_ptr(b"abcdef");
    assert!(!buffer.is_owner());
    buffer.advance(2);
    assert_eq!(buffer.as_slice(), b"cdef");
    assert_eq!(buffer.cap(), 4);
    buffer.resize(3);
    assert_eq!(buffer.as_slice(), b"cde");
    buffer.init(1, 9);
    assert_eq!(buffer.as_slice(), &[b'c', 0, 0]);
    let copy = buffer.clone();
    assert_eq!(copy.as_slice(), buffer.as_slice());
    assert!(!copy.is_owner());
    assert!(ByteBuffer::new(1).is_owner());
    buffer.clear();
    assert!(buffer.is_empty());
    assert_eq!(buffer.cap(), 0);
    assert_eq!(ByteBuffer::from_string(&"hi".to_string()).as_slice(), b"hi");
}

#[test]
fn test_slice_windows() {
    let mut s = Slice::new_from_str("hello world");
    assert_eq!(s.len(), 11);
    assert_eq!(s.size(), 11);
    assert_eq!(s.get(4), b'o');
    assert!(s.starts_with(&Slice::new_from_str("hello")));
    assert!(!s.starts_with(&Slice::new_from_str("world")));
    assert!(s.starts_with(&Slice::new_empty()));
    assert_eq!(s.slice(5).data(), b"hello");
    assert_eq!(s.slice(50).data(), b"hello world");
    s.advance(6);
    assert_eq!(s.data(), b"world");
    s.remove_prefix(1);
    assert_eq!(s.to_string(), "orld");
    s.resize(2);
    assert_eq!(s.data(), b"or");
    assert_eq!(s.clone().data(), b"or");
    assert_eq!(Slice::new_from_str("a").three_way(&Slice::new_from_str("b")), -1);
    assert_eq!(Slice::new_from_str("b").three_way(&Slice::new_from_str("a")), 1);
    assert_eq!(Slice::new_from_str("a").three_way(&Slice::new_from_str("a")), 0);
    assert_eq!(Slice::new_from_str("a").three_way(&Slice::new_from_str("ab")), -1);
    s.clear();
    assert!(s.is_empty());
    assert_eq!(Slice::new_from_array(&[0xff, b'a']).to_string(), "\u{fffd}a");
    assert_eq!(Slice::new_from_ptr(b"xy").data(), b"xy");
}

#[test]
fn test_slice_constructors() {
    let whole = Slice::new_from_static("hello world");
    assert_eq!(Slice::new_from_slice(&whole, 6, 11).data(), b"world");
    assert_eq!(Slice::new_from_slice(&whole, 3, 3).data(), b"");
    let mut buffer = ByteBuffer::from_slice(b"abcdef");
    buffer.advance(2);
    assert_eq!(Slice::new_from_buff(buffer).data(), b"cdef");
    assert_eq!(Slice::new_from_string_buffer(&"k\u{e9}y".to_string()).data(), "k\u{e9}y".as_bytes());
    assert_eq!(Slice::new_from_string("v1".to_string()).data(), b"v1");
    assert_eq!(Slice::new_from_vec(vec![1, 2, 3]).data(), &[1u8, 2, 3]);
}
