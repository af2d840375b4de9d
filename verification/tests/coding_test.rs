use lsm_core::obj::slice::Slice;
use lsm_core::util::coding::{
    decode_fixed32, decode_fixed64, encode_fixed32, encode_fixed64, encode_varint32,
    encode_varint64, get_length_prefixed_slice, get_varint32, get_varint32ptr,
    get_varint32ptr_fallback, get_varint64, get_varint64ptr, put_fixed32, put_fixed64,
    put_length_prefixed_slice, put_varint32, put_varint64, varint_length,
};

#[test]
fn test_fixed32() {
    let mut bytes: Vec<u8> = Vec::new();
    for i in 0..100000 {
        put_fixed32(&mut bytes, i);
    }
    let mut pos = 0;
    for i in 0..100000 {
        let actual = decode_fixed32(&bytes[pos..]);
        assert_eq!(actual, i);
        pos += 4;
    }
}

#[test]
fn test_fixed64() {
    let mut bytes: Vec<u8> = Vec::new();
    for power in 0..=63 {
        let value = 1u64 << power;
        put_fixed64(&mut bytes, value.wrapping_sub(1));
        put_fixed64(&mut bytes, value);
        put_fixed64(&mut bytes, value.wrapping_add(1));
    }
    let mut pos = 0;
    for power in 0..=63 {
        let value = 1u64 << power;
        let actual = decode_fixed64(&bytes[pos..]);
        assert_eq!(actual, value.wrapping_sub(1));
        pos += 8;
        let actual = decode_fixed64(&bytes[pos..]);
        assert_eq!(actual, value);
        pos += 8;
        let actual = decode_fixed64(&bytes[pos..]);
        assert_eq!(actual, value.wrapping_add(1));
        pos += 8;
    }
}

#[test]
fn test_encoding_output() {
    let mut bytes: Vec<u8> = Vec::new();
    put_fixed32(&mut bytes, 0x04030201);
    assert_eq!(4, bytes.len());
    assert_eq!(0x01, bytes[0]);
    assert_eq!(0x02, bytes[1]);
    assert_eq!(0x03, bytes[2]);
    assert_eq!(0x04, bytes[3]);

    bytes.clear();

    put_fixed64(&mut bytes, 0x0807060504030201);
    assert_eq!(8, bytes.len());
    assert_eq!(0x01, bytes[0]);
    assert_eq!(0x02, bytes[1]);
    assert_eq!(0x03, bytes[2]);
    assert_eq!(0x04, bytes[3]);
    assert_eq!(0x05, bytes[4]);
    assert_eq!(0x06, bytes[5]);
    assert_eq!(0x07, bytes[6]);
    assert_eq!(0x08, bytes[7]);
}

#[test]
fn test_varint32() {
    let mut bytes: Vec<u8> = Vec::new();
    for i in 0..32 * 32u32 {
        let v = (i / 32) << (i % 32);
        put_varint32(&mut bytes, v);
    }

    let mut p = &bytes[..];
    for i in 0..32 * 32u32 {
        let expect = (i / 32) << (i % 32);
        let mut actual = 0;
        let start = p;
        p = get_varint32ptr(p, &mut actual).unwrap();
        assert_eq!(expect, actual);
        if i != 32 * 32u32 - 1 {
            assert!(!p.is_empty());
        }
        let length = start.len() - p.len();
        assert_eq!(varint_length(actual as u64), length as u32);
    }
    assert!(p.is_empty())
}

#[test]
fn test_varint64() {
    let mut values = Vec::new();
    values.push(0);
    values.push(100);
    values.push(!0u64);
    values.push(!0u64 - 1);

    for k in 0..64 {
        let power = 1u64 << k;
        values.push(power);
        values.push(power - 1);
        values.push(power.wrapping_add(1));
    }

    let mut bytes: Vec<u8> = Vec::new();

    for value in values.iter() {
        put_varint64(&mut bytes, *value);
    }
    let mut p = &bytes[..];
    for value in values.iter() {
        let mut actual = 0u64;
        let start = p;
        p = get_varint64ptr(p, &mut actual).unwrap();
        assert_eq!(*value, actual);
        let length = start.len() - p.len();
        assert_eq!(varint_length(actual), length as u32);
    }
    assert!(p.is_empty())
}

#[test]
fn test_varint32overflow() {
    let mut result = 0u32;
    let input: Vec<u8> = vec![0x81, 0x82, 0x83, 0x84, 0x85, 0x11];
    let p = get_varint32ptr(&input[..], &mut result);
    assert_eq!(p, None)
}

#[test]
fn test_varint32truncation() {
    let large_value = (1u32 << 31) + 100;
    let mut s: Vec<u8> = Vec::new();
    put_varint32(&mut s, large_value);
    let mut result = 0u32;
    for len in 0..s.len() - 1 {
        let p = get_varint32ptr(&s[..len], &mut result);
        assert_eq!(p, None);
    }
    let p = get_varint32ptr(&s[..], &mut result);
    assert_ne!(p, None);
    assert_eq!(result, large_value);
}

#[test]
fn test_varint64overflow() {
    let mut result = 0u64;
    let input: Vec<u8> = vec![
        0x81, 0x82, 0x83, 0x84, 0x85, 0x81, 0x82, 0x83, 0x84, 0x85, 0x11,
    ];
    let p = get_varint64ptr(&input[..], &mut result);
    assert_eq!(p, None)
}

#[test]
fn test_varint64truncation() {
    let large_value = (1u64 << 63) + 100;
    let mut s: Vec<u8> = Vec::new();
    put_varint64(&mut s, large_value);
    let mut result = 0u64;
    for len in 0..s.len() - 1 {
        let p = get_varint64ptr(&s[..len], &mut result);
        assert_eq!(p, None);
    }
    let p = get_varint64ptr(&s[..], &mut result);
    assert_ne!(p, None);
    assert_eq!(result, large_value);
}

#[test]
fn test_strings() {
    let mut s: Vec<u8> = Vec::new();
    put_length_prefixed_slice(&mut s, &Slice::new_from_str(""));
    put_length_prefixed_slice(&mut s, &Slice::new_from_str("foo"));
    put_length_prefixed_slice(&mut s, &Slice::new_from_str("bar"));
    let str = "x".repeat(200);
    put_length_prefixed_slice(&mut s, &Slice::new_from_string(str));

    let mut input = Slice::new_from_array(&s[..]);
    let mut v = Slice::new_empty();
    assert!(get_length_prefixed_slice(&mut input, &mut v));
    assert_eq!(v.to_string().as_str(), "");
    assert!(get_length_prefixed_slice(&mut input, &mut v));
    assert_eq!(v.to_string().as_str(), "foo");
    assert!(get_length_prefixed_slice(&mut input, &mut v));
    assert_eq!(v.to_string().as_str(), "bar");
    assert!(get_length_prefixed_slice(&mut input, &mut v));
    assert_eq!(v.to_string(), "x".repeat(200));
    assert_eq!("", input.to_string());
}

#[test]
fn test_fixed_in_place() {
    let mut buf = [0xeeu8; 10];
    encode_fixed32(&mut buf, 0xdeadbeef);
    assert_eq!(buf, [0xef, 0xbe, 0xad, 0xde, 0xee, 0xee, 0xee, 0xee, 0xee, 0xee]);
    assert_eq!(decode_fixed32(&buf), 0xdeadbeef);
    encode_fixed64(&mut buf, 0x0102030405060708);
    assert_eq!(buf, [8, 7, 6, 5, 4, 3, 2, 1, 0xee, 0xee]);
    assert_eq!(decode_fixed64(&buf), 0x0102030405060708);
    let mut out: Vec<u8> = Vec::new();
    put_fixed32(&mut out, u32::MAX);
    put_fixed64(&mut out, u64::MAX);
    assert_eq!(out, vec![0xff; 12]);
    assert_eq!(decode_fixed32(&out), u32::MAX);
    assert_eq!(decode_fixed64(&out[4..]), u64::MAX);
}

#[test]
fn test_varint_exact_bytes() {
    let mut out: Vec<u8> = Vec::new();
    put_varint32(&mut out, 300);
    assert_eq!(out, vec![0xac, 0x02]);
    out.clear();
    put_varint64(&mut out, u64::MAX);
    assert_eq!(out, vec![0xff, 0xff, 0xff, 0xff, 0xff, 0xff, 0xff, 0xff, 0xff, 0x01]);
    let mut buf = [0u8; 12];
    assert_eq!(encode_varint32(&mut buf, 0), 1);
    assert_eq!(buf[0], 0);
    assert_eq!(encode_varint32(&mut buf, 127), 1);
    assert_eq!(encode_varint32(&mut buf, 128), 2);
    assert_eq!(&buf[..2], &[0x80, 0x01]);
    assert_eq!(encode_varint32(&mut buf, (1 << 14) - 1), 2);
    assert_eq!(encode_varint32(&mut buf, 1 << 14), 3);
    assert_eq!(encode_varint32(&mut buf, 1 << 21), 4);
    assert_eq!(encode_varint32(&mut buf, 1 << 28), 5);
    assert_eq!(encode_varint32(&mut buf, u32::MAX), 5);
    assert_eq!(&buf[..5], &[0xff, 0xff, 0xff, 0xff, 0x0f]);
    assert_eq!(encode_varint64(&mut buf, 1 << 63), 10);
    assert_eq!(varint_length(0), 1);
    assert_eq!(varint_length(127), 1);
    assert_eq!(varint_length(128), 2);
    assert_eq!(varint_length(u64::MAX), 10);
}

#[test]
fn test_varint_round_trip_law() {
    let values: [u64; 9] = [0, 1, 127, 128, 16383, 16384, 1 << 32, (1 << 56) - 1, u64::MAX];
    for v in values.iter() {
        let mut out: Vec<u8> = Vec::new();
        put_varint64(&mut out, *v);
        assert!(out.len() <= 10);
        out.push(0x55);
        let mut got = 0u64;
        let rest = get_varint64ptr(&out, &mut got).unwrap();
        assert_eq!(got, *v);
        assert_eq!(rest, &[0x55]);
    }
}

#[test]
fn test_varint32_keeps_value_on_failure() {
    let mut value = 77u32;
    assert_eq!(get_varint32ptr(&[], &mut value), None);
    assert_eq!(value, 77);
    assert_eq!(get_varint32ptr_fallback(&[0x80, 0x80], &mut value), None);
    assert_eq!(value, 77);
    // Five bytes whose last holds more than four bits: the upper bits are dropped.
    let rest = get_varint32ptr(&[0xff, 0xff, 0xff, 0xff, 0x7f, 9], &mut value).unwrap();
    assert_eq!(value, u32::MAX);
    assert_eq!(rest, &[9]);
}

#[test]
fn test_varint_slices() {
    let mut bytes: Vec<u8> = Vec::new();
    put_varint32(&mut bytes, 300);
    put_varint64(&mut bytes, 1 << 40);
    bytes.push(7);
    let mut input = Slice::new_from_vec(bytes);
    let mut a = 0u32;
    let mut b = 0u64;
    assert!(get_varint32(&mut input, &mut a));
    assert_eq!(a, 300);
    assert!(get_varint64(&mut input, &mut b));
    assert_eq!(b, 1 << 40);
    assert_eq!(input.data(), &[7]);
    let mut short = Slice::new_from_array(&[0x80]);
    assert!(!get_varint32(&mut short, &mut a));
    assert_eq!(short.data(), &[0x80]);
    // A length that promises more bytes than follow.
    let mut input = Slice::new_from_array(&[5, 1, 2]);
    let mut v = Slice::new_from_str("keep");
    assert!(!get_length_prefixed_slice(&mut input, &mut v));
    assert_eq!(v.data(), b"keep");
    assert_eq!(input.data(), &[1, 2]);
}
