use crc32c_slice::checksum::{crc32c_slice8, crc32c_update_bytes, read_u32};
use crc32c_slice::model::POLY;
use crc32c_slice::table::{make_table, make_table8, Tables};

/// Bit-at-a-time checksum, written independently of the library.
fn bitwise(buf: &[u8]) -> u32 {
    let mut crc: u32 = 0xFFFF_FFFF;
    for &b in buf {
        crc ^= b as u32;
        for _ in 0..8 {
            let mask = (crc & 1).wrapping_neg();
            crc = (crc >> 1) ^ (0xEDB8_8320 & mask);
        }
    }
    !crc
}

struct XorShift(u64);

impl XorShift {
    fn next(&mut self) -> u64 {
        let mut x = self.0;
        x ^= x << 13;
        x ^= x >> 7;
        x ^= x << 17;
        self.0 = x;
        x
    }

    fn bytes(&mut self, n: usize) -> Vec<u8> {
        (0..n).map(|_| (self.next() >> 24) as u8).collect()
    }
}

#[test]
fn empty_buffer_checksum_is_zero() {
    let t = Tables::new();
    assert_eq!(crc32c_slice8(&t, &[]), 0x0000_0000);
}

#[test]
fn check_value_of_digits() {
    let t = Tables::new();
    assert_eq!(crc32c_slice8(&t, b"123456789"), 0xCBF4_3926);
    assert_eq!(bitwise(b"123456789"), 0xCBF4_3926);
}

#[test]
fn check_value_of_sentence() {
    let t = Tables::new();
    let s = b"The quick brown fox jumps over the lazy dog";
    assert_eq!(crc32c_slice8(&t, s), 0x414F_A339);
}

#[test]
fn single_bytes() {
    let t = Tables::new();
    assert_eq!(crc32c_slice8(&t, &[0x00]), 0xD202_EF8D);
    assert_eq!(crc32c_slice8(&t, b"a"), 0xE8B7_BE43);
}

#[test]
fn repeated_calls_agree() {
    let t1 = Tables::new();
    let t2 = Tables::new();
    let mut rng = XorShift(0x1234_5678_9abc_def0);
    for n in [0usize, 1, 7, 8, 9, 100, 4096] {
        let buf = rng.bytes(n);
        let a = crc32c_slice8(&t1, &buf);
        let b = crc32c_slice8(&t1, &buf);
        let c = crc32c_slice8(&t2, &buf.clone());
        assert_eq!(a, b);
        assert_eq!(a, c);
    }
}

#[test]
fn slice8_and_bytewise_agree_on_short_lengths() {
    let t = Tables::new();
    let mut rng = XorShift(0xdead_beef_cafe_f00d);
    for n in 0..=40usize {
        for _ in 0..20 {
            let buf = rng.bytes(n);
            let wide = crc32c_slice8(&t, &buf);
            let narrow = !crc32c_update_bytes(&t, 0xFFFF_FFFF, &buf);
            assert_eq!(wide, narrow, "length {}", n);
            assert_eq!(wide, bitwise(&buf), "length {}", n);
        }
    }
}

#[test]
fn random_corpus_matches_bitwise_reference() {
    let t = Tables::new();
    let mut rng = XorShift(0x0123_4567_89ab_cdef);
    for k in 0..10_000u32 {
        let n = if k % 10 == 0 {
            (rng.next() % 10_001) as usize
        } else {
            (rng.next() % 1_001) as usize
        };
        let buf = rng.bytes(n);
        assert_eq!(crc32c_slice8(&t, &buf), bitwise(&buf), "buffer {} of length {}", k, n);
    }
}

#[test]
fn checksum_is_not_combined_from_parts() {
    let t = Tables::new();
    let a = b"hello, ";
    let b = b"world";
    let whole = crc32c_slice8(&t, b"hello, world");
    assert_ne!(whole, crc32c_slice8(&t, a) ^ crc32c_slice8(&t, b));
    let reg = crc32c_update_bytes(&t, 0xFFFF_FFFF, a);
    assert_eq!(!crc32c_update_bytes(&t, reg, b), whole);
}

#[test]
fn update_bytes_from_other_register() {
    let t = Tables::new();
    assert_eq!(crc32c_update_bytes(&t, 0x1234_5678, &[]), 0x1234_5678);
    assert_eq!(crc32c_update_bytes(&t, 0, &[0]), 0);
    assert_eq!(crc32c_update_bytes(&t, 0, &[1]), 0x7707_3096);
}

#[test]
fn read_u32_is_little_endian() {
    assert_eq!(read_u32(&[0x01, 0x02, 0x03, 0x04]), 0x0403_0201);
    assert_eq!(read_u32(&[0xff, 0x00, 0x00, 0x80, 0x55]), 0x8000_00ff);
}

#[test]
fn base_table_known_entries() {
    let tab = make_table(POLY);
    assert_eq!(POLY, 0xEDB8_8320);
    assert_eq!(tab[0], 0x0000_0000);
    assert_eq!(tab[1], 0x7707_3096);
    assert_eq!(tab[128], 0xEDB8_8320);
    assert_eq!(tab[255], 0x2D02_EF8D);
}

#[test]
fn table_construction_is_repeatable() {
    let a = make_table(POLY);
    let b = make_table(POLY);
    assert_eq!(a, b);
    let a8 = make_table8(&a);
    let b8 = make_table8(&b);
    assert_eq!(a8, b8);
}

#[test]
fn slice_table_rows_follow_base() {
    let tab = make_table(POLY);
    let tab8 = make_table8(&tab);
    assert_eq!(tab8[0], tab);
    for j in 1..8 {
        for i in 0..256 {
            let p = tab8[j - 1][i];
            assert_eq!(tab8[j][i], tab[(p & 0xff) as usize] ^ (p >> 8));
        }
    }
    assert_eq!(tab8[1][1], tab[(tab[1] & 0xff) as usize] ^ (tab[1] >> 8));
}
