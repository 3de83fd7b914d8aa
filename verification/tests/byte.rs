use lsm_core::byte::{compare_bytes, common_prefix, read_u16, read_u32, read_u64, ByteUtil, Bytes};
use std::cmp::Ordering;
use std::collections::hash_map::DefaultHasher;
use std::hash::{Hash, Hasher};

const EMPTY: &[u8] = &[];

fn hash_of(b: &Bytes) -> u64 {
    let mut hasher = DefaultHasher::new();
    b.hash(&mut hasher);
    hasher.finish()
}

#[test]
fn test_bytes_drop() {
    let mut v = Vec::with_capacity(1000);
    v.push(1);
    v.push(2);
    v.push(3);

    let _: Bytes = v.into();

    let _ = Bytes::from_static(b"hello");
}

#[test]
fn test_bytes_double_free() {
    let b1 = Bytes::new();
    let b2 = Bytes::new();

    drop(b1);
    drop(b2);
}

#[test]
fn test_bytes_read() {
    let mut v = Vec::with_capacity(1000);
    v.push(1);
    v.push(2);
    v.push(3);

    let b: Bytes = v.into();
    assert_eq!([1, 2, 3], *b.as_ref());

    let b1 = Bytes::new();
    assert_eq!(EMPTY, b1.as_ref());
}

#[test]
fn test_bytes_align() {
    let v: Vec<u8> = Vec::with_capacity(1000);
    let alignment = std::mem::align_of_val(v.as_slice());
    assert_eq!(alignment, 1);
}

#[test]
fn test_bytes_ord() {
    let b1 = Bytes::from(vec![1, 2, 3]);
    let b2 = Bytes::from(vec![1, 2, 3, 4]);
    let b3 = Bytes::from(vec![1, 2, 4]);
    assert!(b1 < b2);
    assert!(b1 < b3);
    assert!(b2 < b3);
}

#[test]
fn test_bytes_clone() {
    let b1 = Bytes::from(vec![1, 2, 3]);
    let b2 = b1.clone();
    assert_eq!(*b1.as_ref(), *b2.as_ref());
    drop(b2);
    assert_eq!(b1.as_ref(), [1, 2, 3]);
}

#[test]
fn test_byteutil() {
    let mut v: Vec<u8> = vec![];
    let val = 12345;
    let val1 = 32145;
    ByteUtil::put_u32(&mut v, val);
    ByteUtil::put_u32(&mut v, val1);
    let res1 = ByteUtil::get_u32(&mut v).unwrap();
    let res = ByteUtil::get_u32(&mut v).unwrap();

    assert_eq!(res1, val1);
    assert_eq!(res, val);
}

#[test]
fn test_byteutil_u64() {
    let mut v: Vec<u8> = vec![];
    let val = 1234567899;
    let val1 = 1;
    ByteUtil::put_u64(&mut v, val);
    ByteUtil::put_u64(&mut v, val1);
    let res1 = ByteUtil::get_u64(&mut v).unwrap();
    let res = ByteUtil::get_u64(&mut v).unwrap();

    assert_eq!(res1, val1);
    assert_eq!(res, val);
}

#[test]
fn bytes_round_trip_from_vec_and_slice() {
    let all: Vec<u8> = (0..=255u8).collect();
    let owned = Bytes::from(all.clone());
    assert_eq!(owned.as_ref(), all.as_slice());
    assert_eq!(owned.len(), 256);

    let copied = Bytes::from(all.as_slice());
    assert_eq!(copied.as_ref(), all.as_slice());

    let fixed = Bytes::from_static(b"hello");
    assert_eq!(fixed.as_ref(), b"hello");
    assert_eq!(fixed.len(), 5);
}

#[test]
fn bytes_empty_forms_agree() {
    let a = Bytes::new();
    let b = Bytes::default();
    let c = Bytes::from(Vec::new());
    let d = Bytes::from(EMPTY);
    assert_eq!(a.len(), 0);
    assert!(a == b);
    assert!(b == c);
    assert!(c == d);
    assert_eq!(hash_of(&a), hash_of(&c));
}

#[test]
fn bytes_equality_is_by_content() {
    let fixed = Bytes::from_static(b"abc");
    let owned = Bytes::from(vec![b'a', b'b', b'c']);
    let other = Bytes::from(vec![b'a', b'b', b'd']);
    let shorter = Bytes::from(vec![b'a', b'b']);
    assert!(fixed == owned);
    assert!(fixed != other);
    assert!(fixed != shorter);
    assert_eq!(hash_of(&fixed), hash_of(&owned));
}

#[test]
fn bytes_clone_survives_its_source() {
    let source = Bytes::from(vec![9, 8, 7]);
    let copy = source.clone();
    drop(source);
    assert_eq!(copy.as_ref(), [9, 8, 7]);
    let again = copy.clone();
    assert!(again == copy);
}

#[test]
fn bytes_can_be_printed() {
    let text = format!("{:?}", Bytes::from(vec![1, 2, 3]));
    assert!(text.contains("Bytes"));
    assert!(text.contains("1, 2, 3"));
}

#[test]
fn bytes_can_cross_threads() {
    fn assert_send_sync<T: Send + Sync>(_: &T) {}
    let b = Bytes::from(vec![1, 2, 3]);
    assert_send_sync(&b);
}

#[test]
fn bytes_partial_order_matches_slices() {
    let samples: Vec<Vec<u8>> = vec![
        vec![],
        vec![0],
        vec![0, 0],
        vec![0, 1],
        vec![1],
        vec![1, 0],
        vec![255],
        vec![255, 255],
    ];
    for a in &samples {
        for b in &samples {
            let x = Bytes::from(a.clone());
            let y = Bytes::from(b.clone());
            assert_eq!(x.partial_cmp(&y), Some(a.cmp(b)));
            assert_eq!(compare_bytes(a, b), a.cmp(b));
            assert_eq!(x == y, a == b);
        }
    }
}

#[test]
fn compare_bytes_examples() {
    assert_eq!(compare_bytes(b"", b""), Ordering::Equal);
    assert_eq!(compare_bytes(b"", b"a"), Ordering::Less);
    assert_eq!(compare_bytes(b"a", b""), Ordering::Greater);
    assert_eq!(compare_bytes(b"ab", b"abc"), Ordering::Less);
    assert_eq!(compare_bytes(b"abd", b"abc"), Ordering::Greater);
    assert_eq!(compare_bytes(b"abc", b"abc"), Ordering::Equal);
}

#[test]
fn common_prefix_examples() {
    assert_eq!(common_prefix(b"", b""), 0);
    assert_eq!(common_prefix(b"abc", b"abd"), 2);
    assert_eq!(common_prefix(b"abc", b"abc"), 3);
    assert_eq!(common_prefix(b"abc", b"ab"), 2);
    assert_eq!(common_prefix(b"xbc", b"abc"), 0);
}

#[test]
fn put_writes_big_endian() {
    let mut v: Vec<u8> = vec![0xAA];
    v.put_u16(0x0102);
    assert_eq!(v, vec![0xAA, 0x01, 0x02]);
    v.put_u32(0x0A0B0C0D);
    assert_eq!(v, vec![0xAA, 0x01, 0x02, 0x0A, 0x0B, 0x0C, 0x0D]);
    let mut w: Vec<u8> = vec![];
    w.put_u64(0x0102030405060708);
    assert_eq!(w, vec![1, 2, 3, 4, 5, 6, 7, 8]);
}

#[test]
fn put_matches_std_encoding() {
    for val in [0u64, 1, 255, 256, 65535, 65536, 0xDEADBEEF, u64::MAX - 1, u64::MAX] {
        let mut v: Vec<u8> = vec![];
        v.put_u64(val);
        assert_eq!(v, val.to_be_bytes().to_vec());
        let mut v32: Vec<u8> = vec![];
        v32.put_u32(val as u32);
        assert_eq!(v32, (val as u32).to_be_bytes().to_vec());
        let mut v16: Vec<u8> = vec![];
        v16.put_u16(val as u16);
        assert_eq!(v16, (val as u16).to_be_bytes().to_vec());
    }
}

#[test]
fn get_takes_from_the_end() {
    let mut v: Vec<u8> = vec![0xEE, 0x12, 0x34];
    assert_eq!(v.get_u16(), Some(0x1234));
    assert_eq!(v, vec![0xEE]);

    let mut v: Vec<u8> = vec![7, 0x12, 0x34, 0x56, 0x78];
    assert_eq!(v.get_u32(), Some(0x12345678));
    assert_eq!(v, vec![7]);

    let mut v: Vec<u8> = vec![7, 1, 2, 3, 4, 5, 6, 7, 8];
    assert_eq!(v.get_u64(), Some(0x0102030405060708));
    assert_eq!(v, vec![7]);
}

#[test]
fn get_on_short_input_changes_nothing() {
    let mut v: Vec<u8> = vec![1];
    assert_eq!(v.get_u16(), None);
    assert_eq!(v, vec![1]);

    let mut v: Vec<u8> = vec![1, 2, 3];
    assert_eq!(v.get_u32(), None);
    assert_eq!(v, vec![1, 2, 3]);

    let mut v: Vec<u8> = vec![1, 2, 3, 4, 5, 6, 7];
    assert_eq!(v.get_u64(), None);
    assert_eq!(v, vec![1, 2, 3, 4, 5, 6, 7]);

    let mut v: Vec<u8> = vec![];
    assert_eq!(v.get_u16(), None);
    assert_eq!(v.get_u32(), None);
    assert_eq!(v.get_u64(), None);
}

#[test]
fn put_then_get_extremes() {
    let mut v: Vec<u8> = vec![];
    v.put_u16(u16::MAX);
    v.put_u32(u32::MAX);
    v.put_u64(u64::MAX);
    v.put_u16(0);
    assert_eq!(v.get_u16(), Some(0));
    assert_eq!(v.get_u64(), Some(u64::MAX));
    assert_eq!(v.get_u32(), Some(u32::MAX));
    assert_eq!(v.get_u16(), Some(u16::MAX));
    assert!(v.is_empty());
}

#[test]
fn read_at_offset() {
    let buf: Vec<u8> = vec![0xFF, 0x01, 0x02, 0x03, 0x04, 0x05, 0x06, 0x07, 0x08, 0x09];
    assert_eq!(read_u16(&buf, 1), 0x0102);
    assert_eq!(read_u16(&buf, 8), 0x0809);
    assert_eq!(read_u32(&buf, 1), 0x01020304);
    assert_eq!(read_u32(&buf, 6), 0x06070809);
    assert_eq!(read_u64(&buf, 1), 0x0102030405060708);
    assert_eq!(read_u64(&buf, 2), 0x0203040506070809);
}
