use vstd::prelude::*;
use vstd::slice::slice_subrange;
use crate::model::{
    crc32c, crc_feed, le_u32, lemma_crc_feed_append, lemma_crc_update_table, lemma_slice8_step,
    slice8_step, CRC_INIT,
};
use crate::table::Tables;

verus! {

/// Reads the first four bytes of `buf` as a little-endian word.
pub fn read_u32(buf: &[u8]) -> (r: u32)
    requires
        buf@.len() >= 4,
    ensures
        r == le_u32(buf@),
        r as int == buf@[0] + 0x100 * buf@[1] + 0x1_0000 * buf@[2] + 0x100_0000 * buf@[3],
{
    let (b0, b1, b2, b3) = (buf[0], buf[1], buf[2], buf[3]);
    let r = (b0 as u32) | ((b1 as u32) << 8) | ((b2 as u32) << 16) | ((b3 as u32) << 24);
    assert(r as int == b0 + 0x100 * b1 + 0x1_0000 * b2 + 0x100_0000 * b3) by (bit_vector)
        requires
            r == (b0 as u32) | ((b1 as u32) << 8) | ((b2 as u32) << 16) | ((b3 as u32) << 24),
    ;
    r
}

/// Feeds the bytes of `buf` one at a time to the register `crc`, through the
/// single-byte table, and returns the register.
pub fn crc32c_update_bytes(tables: &Tables, crc: u32, buf: &[u8]) -> (r: u32)
    ensures
        r == crc_feed(crc, buf@),
{
    let mut c = crc;
    let mut k: usize = 0;
    while k < buf.len()
        invariant
            k <= buf@.len(),
            c == crc_feed(crc, buf@.subrange(0, k as int)),
        decreases buf@.len() - k,
    {
        let b = buf[k];
        proof {
            lemma_crc_update_table(c, b);
            assert(buf@.subrange(0, k + 1).drop_last() =~= buf@.subrange(0, k as int));
            assert((c ^ (b as u32)) & 0xff < 256) by (bit_vector);
        }
        c = tables.entry(((c ^ (b as u32)) & 0xff) as usize) ^ (c >> 8);
        k += 1;
    }
    assert(buf@.subrange(0, k as int) =~= buf@);
    c
}

/// The checksum of `buf`: eight bytes at a time through the slice table while
/// at least eight remain, then the rest one byte at a time.
pub fn crc32c_slice8(tables: &Tables, buf: &[u8]) -> (r: u32)
    ensures
        r == crc32c(buf@),
{
    let n = buf.len();
    let mut crc: u32 = !0u32;
    assert(!0u32 == CRC_INIT) by (bit_vector);
    assert(buf@.subrange(0, 0) =~= Seq::<u8>::empty());
    let mut i: usize = 0;
    while n - i >= 8
        invariant
            i <= n,
            n == buf@.len(),
            crc == crc_feed(CRC_INIT, buf@.subrange(0, i as int)),
        decreases n - i,
    {
        let ghost c0 = crc;
        let ghost s = buf@.subrange(i as int, i + 8);
        crc = crc ^ read_u32(slice_subrange(buf, i, i + 4));
        assert(buf@.subrange(i as int, i + 4)[0] == s[0] && buf@.subrange(i as int, i + 4)[1]
            == s[1] && buf@.subrange(i as int, i + 4)[2] == s[2] && buf@.subrange(i as int, i
            + 4)[3] == s[3]);
        assert((crc >> 24) < 256 && (crc >> 16) & 0xff < 256 && (crc >> 8) & 0xff < 256 && crc
            & 0xff < 256) by (bit_vector);
        crc = tables.lane(0, buf[i + 7] as usize) ^ tables.lane(1, buf[i + 6] as usize)
            ^ tables.lane(2, buf[i + 5] as usize) ^ tables.lane(3, buf[i + 4] as usize)
            ^ tables.lane(4, (crc >> 24) as usize) ^ tables.lane(5, ((crc >> 16) & 0xff) as usize)
            ^ tables.lane(6, ((crc >> 8) & 0xff) as usize) ^ tables.lane(7, (crc & 0xff) as usize);
        proof {
            assert(crc == slice8_step(c0, s));
            lemma_slice8_step(c0, s);
            lemma_crc_feed_append(CRC_INIT, buf@.subrange(0, i as int), s);
            assert(buf@.subrange(0, i as int) + s =~= buf@.subrange(0, i + 8));
        }
        i += 8;
    }
    crc = crc32c_update_bytes(tables, crc, slice_subrange(buf, i, n));
    proof {
        lemma_crc_feed_append(CRC_INIT, buf@.subrange(0, i as int), buf@.subrange(i as int, n as int));
        assert(buf@.subrange(0, i as int) + buf@.subrange(i as int, n as int) =~= buf@);
    }
    !crc
}

} // verus!
