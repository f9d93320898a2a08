use compact_codec::varint::{decode, encode, DecodeError};

fn check(n: u64, size: u8) {
    let (ret, consumed) = decode(&encode(n)).unwrap();
    assert_eq!(n, ret);
    assert_eq!(size, consumed);
}

const BASE_1: u64 = 0x80;
const BASE_7: u64 = 0x2_0408_1020_4080;

#[test]
fn varint_consistency() {
    check(0, 1);
    check(1, 1);
    check(2, 1);
    check(0x7F, 1);
    check(0x80, 2);
    check(0xFF, 2);
    check(0x3F_FF, 2);
    check(0x3F_FF + BASE_1, 2);
    check(0x3F_FF + BASE_1 + 1, 3);
    check(0x1F_FF_FF, 3);
    check(0x0F_FF_FF_FF, 4);
    check(0x07_FF_FF_FF_FF, 5);
    check(0x03_FF_FF_FF_FF_FF, 6);
    check(0x01_FF_FF_FF_FF_FF_FF, 7);
    check(0x00_FF_FF_FF_FF_FF_FF_FF, 8);
    check(0x00_FF_FF_FF_FF_FF_FF_FF + BASE_7, 8);
    check(0x00_FF_FF_FF_FF_FF_FF_FF + BASE_7 + 1, 9);
    check(0x00_7F_FF_FF_FF_FF_FF_FF_FF, 9);
    check(0x00_FF_FF_FF_FF_FF_FF_FF_FF, 10);
}

#[test]
fn varint_exact_bytes() {
    assert_eq!(encode(0), vec![0x00]);
    assert_eq!(encode(1), vec![0x01]);
    assert_eq!(encode(0x7F), vec![0x7F]);
    assert_eq!(encode(0x80), vec![0x80, 0x00]);
    assert_eq!(encode(0x81), vec![0x81, 0x00]);
    assert_eq!(encode(0x80 + 0x3FFF), vec![0xFF, 0x7F]);
    assert_eq!(encode(0x4080), vec![0x80, 0x80, 0x00]);
    assert_eq!(encode(300), vec![0xAC, 0x01]);
}

#[test]
fn varint_width_grows_at_each_base() {
    let bases: [u64; 9] = [
        0x80,
        0x4080,
        0x20_4080,
        0x1020_4080,
        0x8_1020_4080,
        0x408_1020_4080,
        0x2_0408_1020_4080,
        0x102_0408_1020_4080,
        0x8102_0408_1020_4080,
    ];
    for (k, base) in bases.iter().enumerate() {
        assert_eq!(encode(*base - 1).len(), k + 1);
        assert_eq!(encode(*base).len(), k + 2);
        check(*base - 1, k as u8 + 1);
        check(*base, k as u8 + 2);
    }
    assert_eq!(encode(u64::MAX).len(), 10);
}

#[test]
fn varint_encodings_differ() {
    let samples: [u64; 8] = [0, 1, 0x7F, 0x80, 0xFF, 0x4080, 0x4081, u64::MAX];
    for a in samples.iter() {
        for b in samples.iter() {
            if a != b {
                assert_ne!(encode(*a), encode(*b));
            }
        }
    }
}

#[test]
fn varint_ignores_what_follows() {
    assert_eq!(decode(&[0x05, 0xFF, 0xFF]).unwrap(), (5, 1));
    assert_eq!(decode(&[0x80, 0x00, 0x80]).unwrap(), (0x80, 2));
}

#[test]
fn varint_missing_bytes() {
    assert_eq!(decode(&[]).unwrap_err(), DecodeError::MissingBytes);
    assert_eq!(decode(&[0x80]).unwrap_err(), DecodeError::MissingBytes);
    assert_eq!(decode(&[0xFF; 9]).unwrap_err(), DecodeError::MissingBytes);
}

#[test]
fn varint_value_too_big() {
    assert_eq!(decode(&[0xFF; 10]).unwrap_err(), DecodeError::ValueTooBig);
    assert_eq!(decode(&[0x80; 11]).unwrap_err(), DecodeError::ValueTooBig);
    let mut over = vec![0xFF; 9];
    over.push(0x7F);
    assert_eq!(decode(&over).unwrap_err(), DecodeError::ValueTooBig);
    let mut just_over = encode(u64::MAX);
    assert_eq!(just_over[1], 0xFE);
    just_over[1] = 0xFF;
    assert_eq!(decode(&just_over).unwrap_err(), DecodeError::ValueTooBig);
}
