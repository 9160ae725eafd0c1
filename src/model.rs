use vstd::prelude::*;

verus! {

/// The generator polynomial, in bit-reflected form.
pub const POLY: u32 = 0xEDB8_8320;

/// One bit of reduction: shift the register right by one bit and, where the
/// bit shifted out was set, fold the polynomial back in.
pub open spec fn reduce_bit(poly: u32, c: u32) -> u32 {
    if c & 1 == 1 {
        (c >> 1) ^ poly
    } else {
        c >> 1
    }
}

/// `n` bits of reduction in a row.
pub open spec fn reduce_bits(poly: u32, c: u32, n: nat) -> u32
    decreases n,
{
    if n == 0 {
        c
    } else {
        reduce_bits(poly, reduce_bit(poly, c), (n - 1) as nat)
    }
}

/// Entry `i` of the single-byte table: byte value `i` after eight bits of
/// reduction.
pub open spec fn table_entry(poly: u32, i: u32) -> u32 {
    reduce_bits(poly, i, 8)
}

/// The bit-at-a-time register update for one input byte.
pub open spec fn crc_update(c: u32, b: u8) -> u32 {
    reduce_bits(POLY, c ^ (b as u32), 8)
}

/// The register after feeding the bytes of `s`, in order, starting from `c`.
pub open spec fn crc_feed(c: u32, s: Seq<u8>) -> u32
    decreases s.len(),
{
    if s.len() == 0 {
        c
    } else {
        crc_update(crc_feed(c, s.drop_last()), s.last())
    }
}

/// The register's initial value: all ones.
pub const CRC_INIT: u32 = 0xFFFF_FFFF;

/// The checksum of `s`: the complement of the register after feeding all of
/// `s` to a register that starts at all ones.
pub open spec fn crc32c(s: Seq<u8>) -> u32 {
    !crc_feed(CRC_INIT, s)
}

/// The 32-bit word whose little-endian bytes are the first four of `s`.
pub open spec fn le_u32(s: Seq<u8>) -> u32
    recommends
        s.len() >= 4,
{
    (s[0] as u32) | ((s[1] as u32) << 8) | ((s[2] as u32) << 16) | ((s[3] as u32) << 24)
}

/// Entry `i` of sub-table `j` of the slice table: byte value `i` after
/// `8 * (j + 1)` bits of reduction.
pub open spec fn slice_entry(j: nat, i: u32) -> u32 {
    reduce_bits(POLY, i, 8 * (j + 1))
}

/// The register after one slice-by-8 step over the eight bytes of `s`,
/// starting from `c`: the first four bytes are folded into the register as a
/// little-endian word, then the eight lanes are reduced through the slice
/// table and combined.
pub open spec fn slice8_step(c: u32, s: Seq<u8>) -> u32
    recommends
        s.len() == 8,
{
    let x = c ^ le_u32(s);
    slice_entry(0, s[7] as u32) ^ slice_entry(1, s[6] as u32) ^ slice_entry(2, s[5] as u32)
        ^ slice_entry(3, s[4] as u32) ^ slice_entry(4, x >> 24) ^ slice_entry(5, (x >> 16) & 0xff)
        ^ slice_entry(6, (x >> 8) & 0xff) ^ slice_entry(7, x & 0xff)
}

proof fn lemma_reduce_bit_xor(poly: u32, a: u32, b: u32)
    ensures
        reduce_bit(poly, a ^ b) == reduce_bit(poly, a) ^ reduce_bit(poly, b),
{
    assert(reduce_bit(poly, a ^ b) == reduce_bit(poly, a) ^ reduce_bit(poly, b)) by (bit_vector);
}

proof fn lemma_reduce_bits_xor(poly: u32, a: u32, b: u32, n: nat)
    ensures
        reduce_bits(poly, a ^ b, n) == reduce_bits(poly, a, n) ^ reduce_bits(poly, b, n),
    decreases n,
{
    if n > 0 {
        lemma_reduce_bit_xor(poly, a, b);
        lemma_reduce_bits_xor(poly, reduce_bit(poly, a), reduce_bit(poly, b), (n - 1) as nat);
    }
}

pub(crate) proof fn lemma_reduce_bits_add(poly: u32, c: u32, m: nat, n: nat)
    ensures
        reduce_bits(poly, reduce_bits(poly, c, m), n) == reduce_bits(poly, c, m + n),
    decreases m,
{
    if m > 0 {
        lemma_reduce_bits_add(poly, reduce_bit(poly, c), (m - 1) as nat, n);
    }
}

proof fn lemma_shift_out_zero_byte(
    poly: u32,
    x: u32,
    x1: u32,
    x2: u32,
    x3: u32,
    x4: u32,
    x5: u32,
    x6: u32,
    x7: u32,
    x8: u32,
)
    by (bit_vector)
    requires
        x & 0xff == 0,
        x1 == reduce_bit(poly, x),
        x2 == reduce_bit(poly, x1),
        x3 == reduce_bit(poly, x2),
        x4 == reduce_bit(poly, x3),
        x5 == reduce_bit(poly, x4),
        x6 == reduce_bit(poly, x5),
        x7 == reduce_bit(poly, x6),
        x8 == reduce_bit(poly, x7),
    ensures
        x8 == x >> 8,
{
}

/// A register whose low byte is zero loses that byte, and nothing else
/// happens, in eight bits of reduction.
proof fn lemma_reduce_zero_byte(poly: u32, x: u32)
    requires
        x & 0xff == 0,
    ensures
        reduce_bits(poly, x, 8) == x >> 8,
{
    let x1 = reduce_bit(poly, x);
    let x2 = reduce_bit(poly, x1);
    let x3 = reduce_bit(poly, x2);
    let x4 = reduce_bit(poly, x3);
    let x5 = reduce_bit(poly, x4);
    let x6 = reduce_bit(poly, x5);
    let x7 = reduce_bit(poly, x6);
    let x8 = reduce_bit(poly, x7);
    lemma_shift_out_zero_byte(poly, x, x1, x2, x3, x4, x5, x6, x7, x8);
    reveal_with_fuel(reduce_bits, 9);
}

/// Eight bits of reduction depend on the low byte through the single-byte
/// table, and pass the upper three bytes on shifted down by one byte.
pub proof fn lemma_reduce_byte_split(poly: u32, x: u32)
    ensures
        reduce_bits(poly, x, 8) == table_entry(poly, x & 0xff) ^ (x >> 8),
{
    let lo = x & 0xff;
    let hi = x & 0xffff_ff00;
    assert(x == lo ^ hi && hi & 0xff == 0 && hi >> 8 == x >> 8) by (bit_vector)
        requires
            lo == x & 0xff,
            hi == x & 0xffff_ff00,
    ;
    lemma_reduce_bits_xor(poly, lo, hi, 8);
    lemma_reduce_zero_byte(poly, hi);
}

/// Feeding `s` and then `t` is feeding their concatenation.
pub proof fn lemma_crc_feed_append(c: u32, s: Seq<u8>, t: Seq<u8>)
    ensures
        crc_feed(crc_feed(c, s), t) == crc_feed(c, s + t),
    decreases t.len(),
{
    if t.len() > 0 {
        lemma_crc_feed_append(c, s, t.drop_last());
        assert((s + t).drop_last() =~= s + t.drop_last());
        assert((s + t).last() == t.last());
    }
}

/// Feeding one byte `b` in the register update form `table[(c ^ b) & 0xff] ^ (c >> 8)`.
pub proof fn lemma_crc_update_table(c: u32, b: u8)
    ensures
        crc_update(c, b) == table_entry(POLY, (c ^ (b as u32)) & 0xff) ^ (c >> 8),
{
    lemma_reduce_byte_split(POLY, c ^ (b as u32));
    assert((c ^ (b as u32)) >> 8 == c >> 8) by (bit_vector);
}

/// Eight bits of reduction on `c ^ w` feed the low byte of `w` to `c` and
/// leave the other three bytes of `w`, shifted down, in the register.
proof fn lemma_update_word(c: u32, w: u32, b: u8)
    requires
        b as u32 == w & 0xff,
    ensures
        reduce_bits(POLY, c ^ w, 8) == crc_update(c, b) ^ (w >> 8),
{
    lemma_reduce_byte_split(POLY, c ^ w);
    lemma_reduce_byte_split(POLY, c ^ (b as u32));
    assert((c ^ w) & 0xff == (c ^ (b as u32)) & 0xff && (c ^ w) >> 8 == ((c ^ (b as u32)) >> 8)
        ^ (w >> 8)) by (bit_vector)
        requires
            b as u32 == w & 0xff,
    ;
    let t = table_entry(POLY, (c ^ w) & 0xff);
    let p = (c ^ (b as u32)) >> 8;
    let q = w >> 8;
    assert(t ^ (p ^ q) == (t ^ p) ^ q) by (bit_vector);
}

/// Feeding four bytes is 32 bits of reduction on the register with their
/// little-endian word folded in.
proof fn lemma_crc_feed_word(c: u32, s: Seq<u8>)
    requires
        s.len() == 4,
    ensures
        crc_feed(c, s) == reduce_bits(POLY, c ^ le_u32(s), 32),
{
    let (b0, b1, b2, b3) = (s[0], s[1], s[2], s[3]);
    let w = le_u32(s);
    let c1 = crc_update(c, b0);
    let c2 = crc_update(c1, b1);
    let c3 = crc_update(c2, b2);
    let c4 = crc_update(c3, b3);
    assert(b0 as u32 == w & 0xff && b1 as u32 == (w >> 8) & 0xff && b2 as u32 == (w >> 16) & 0xff
        && b3 as u32 == (w >> 24) & 0xff && (w >> 8) >> 8 == w >> 16 && (w >> 16) >> 8 == w >> 24 && (w
        >> 24) >> 8 == 0) by (bit_vector)
        requires
            w == (b0 as u32) | ((b1 as u32) << 8) | ((b2 as u32) << 16) | ((b3 as u32) << 24),
    ;
    lemma_update_word(c, w, b0);
    lemma_reduce_bits_add(POLY, c ^ w, 8, 24);
    lemma_update_word(c1, w >> 8, b1);
    lemma_reduce_bits_add(POLY, c1 ^ (w >> 8), 8, 16);
    lemma_update_word(c2, w >> 16, b2);
    lemma_reduce_bits_add(POLY, c2 ^ (w >> 16), 8, 8);
    lemma_update_word(c3, w >> 24, b3);
    assert(c4 ^ 0 == c4) by (bit_vector);
    assert(s.drop_last() =~= seq![b0, b1, b2]);
    assert(s.drop_last().drop_last() =~= seq![b0, b1]);
    assert(s.drop_last().drop_last().drop_last() =~= seq![b0]);
    assert(s.drop_last().drop_last().drop_last().drop_last() =~= Seq::<u8>::empty());
    reveal_with_fuel(crc_feed, 5);
}

/// 32 bits of reduction on a word, taken byte by byte: each byte is reduced
/// by 8 bits more than the byte above it.
proof fn lemma_reduce_word_split(x: u32)
    ensures
        reduce_bits(POLY, x, 32) == reduce_bits(POLY, x & 0xff, 32) ^ reduce_bits(
            POLY,
            (x >> 8) & 0xff,
            24,
        ) ^ reduce_bits(POLY, (x >> 16) & 0xff, 16) ^ reduce_bits(POLY, x >> 24, 8),
{
    let y = x >> 8;
    let z = x >> 16;
    assert(y >> 8 == z && z >> 8 == x >> 24) by (bit_vector)
        requires
            y == x >> 8,
            z == x >> 16,
    ;
    lemma_reduce_byte_split(POLY, x);
    lemma_reduce_bits_add(POLY, x, 8, 24);
    lemma_reduce_bits_xor(POLY, table_entry(POLY, x & 0xff), y, 24);
    lemma_reduce_bits_add(POLY, x & 0xff, 8, 24);

    lemma_reduce_byte_split(POLY, y);
    lemma_reduce_bits_add(POLY, y, 8, 16);
    lemma_reduce_bits_xor(POLY, table_entry(POLY, y & 0xff), z, 16);
    lemma_reduce_bits_add(POLY, y & 0xff, 8, 16);

    lemma_reduce_byte_split(POLY, z);
    lemma_reduce_bits_add(POLY, z, 8, 8);
    lemma_reduce_bits_xor(POLY, table_entry(POLY, z & 0xff), x >> 24, 8);
    lemma_reduce_bits_add(POLY, z & 0xff, 8, 8);

    let a = reduce_bits(POLY, x & 0xff, 32);
    let b = reduce_bits(POLY, y & 0xff, 24);
    let c = reduce_bits(POLY, z & 0xff, 16);
    let d = reduce_bits(POLY, x >> 24, 8);
    assert(a ^ (b ^ (c ^ d)) == a ^ b ^ c ^ d) by (bit_vector);
}

/// 32 more bits of reduction on the four terms of a reduced word.
proof fn lemma_reduce_four_terms(a: u32, b: u32, c: u32, d: u32, n: nat)
    ensures
        reduce_bits(POLY, a ^ b ^ c ^ d, n) == reduce_bits(POLY, a, n) ^ reduce_bits(POLY, b, n)
            ^ reduce_bits(POLY, c, n) ^ reduce_bits(POLY, d, n),
{
    lemma_reduce_bits_xor(POLY, a ^ b ^ c, d, n);
    lemma_reduce_bits_xor(POLY, a ^ b, c, n);
    lemma_reduce_bits_xor(POLY, a, b, n);
}

/// One slice-by-8 step over eight bytes gives the register that feeding those
/// eight bytes one at a time gives.
pub proof fn lemma_slice8_step(c: u32, s: Seq<u8>)
    requires
        s.len() == 8,
    ensures
        slice8_step(c, s) == crc_feed(c, s),
{
    let s1 = s.subrange(0, 4);
    let s2 = s.subrange(4, 8);
    assert(s =~= s1 + s2);
    lemma_crc_feed_append(c, s1, s2);
    let x = c ^ le_u32(s);
    assert(le_u32(s1) == le_u32(s));
    lemma_crc_feed_word(c, s1);
    let m = reduce_bits(POLY, x, 32);
    lemma_crc_feed_word(m, s2);
    let w2 = le_u32(s2);
    lemma_reduce_bits_xor(POLY, m, w2, 32);
    lemma_reduce_bits_add(POLY, x, 32, 32);

    let x0 = x & 0xff;
    let x1 = (x >> 8) & 0xff;
    let x2 = (x >> 16) & 0xff;
    let x3 = x >> 24;
    lemma_reduce_word_split(x);
    let r0 = reduce_bits(POLY, x0, 32);
    let r1 = reduce_bits(POLY, x1, 24);
    let r2 = reduce_bits(POLY, x2, 16);
    let r3 = reduce_bits(POLY, x3, 8);
    lemma_reduce_four_terms(r0, r1, r2, r3, 32);
    lemma_reduce_bits_add(POLY, x0, 32, 32);
    lemma_reduce_bits_add(POLY, x1, 24, 32);
    lemma_reduce_bits_add(POLY, x2, 16, 32);
    lemma_reduce_bits_add(POLY, x3, 8, 32);

    let (b4, b5, b6, b7) = (s[4], s[5], s[6], s[7]);
    assert(w2 & 0xff == b4 as u32 && (w2 >> 8) & 0xff == b5 as u32 && (w2 >> 16) & 0xff
        == b6 as u32 && w2 >> 24 == b7 as u32) by (bit_vector)
        requires
            w2 == (b4 as u32) | ((b5 as u32) << 8) | ((b6 as u32) << 16) | ((b7 as u32) << 24),
    ;
    lemma_reduce_word_split(w2);

    let e0 = slice_entry(0, b7 as u32);
    let e1 = slice_entry(1, b6 as u32);
    let e2 = slice_entry(2, b5 as u32);
    let e3 = slice_entry(3, b4 as u32);
    let e4 = slice_entry(4, x3);
    let e5 = slice_entry(5, x2);
    let e6 = slice_entry(6, x1);
    let e7 = slice_entry(7, x0);
    assert((e7 ^ e6 ^ e5 ^ e4) ^ (e3 ^ e2 ^ e1 ^ e0) == e0 ^ e1 ^ e2 ^ e3 ^ e4 ^ e5 ^ e6 ^ e7)
        by (bit_vector);
}

} // verus!
