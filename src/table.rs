use vstd::prelude::*;
use crate::model::{
    lemma_reduce_bits_add, lemma_reduce_byte_split, reduce_bit, reduce_bits, slice_entry, table_entry, POLY,
};

verus! {

/// `t` is the single-byte table of `poly`.
pub open spec fn is_base_table(poly: u32, t: Seq<u32>) -> bool {
    &&& t.len() == 256
    &&& forall|i: int| 0 <= i < 256 ==> #[trigger] t[i] == table_entry(poly, i as u32)
}

/// `t` is the slice table derived from `base`: sub-table 0 is `base`, and each
/// further sub-table shifts the entries of the one before by one more byte.
pub open spec fn is_slice_table(base: Seq<u32>, t: Seq<Seq<u32>>) -> bool {
    &&& t.len() == 8
    &&& forall|j: int| 0 <= j < 8 ==> (#[trigger] t[j]).len() == 256
    &&& t[0] == base
    &&& forall|j: int, i: int|
        1 <= j < 8 && 0 <= i < 256 ==> #[trigger] t[j][i] == base[(t[j - 1][i] & 0xff) as int] ^ (
        t[j - 1][i] >> 8)
}

/// The rows of a slice table, as sequences.
pub open spec fn rows(t: [[u32; 256]; 8]) -> Seq<Seq<u32>> {
    t@.map_values(|r: [u32; 256]| r@)
}

/// Builds the single-byte table of `poly`: entry `i` is byte value `i` after
/// eight bits of reduction.
pub fn make_table(poly: u32) -> (tab: [u32; 256])
    ensures
        is_base_table(poly, tab@),
{
    let mut tab = [0u32; 256];
    let mut i: u32 = 0;
    while i < 256
        invariant
            i <= 256,
            forall|k: int| 0 <= k < i ==> #[trigger] tab@[k] == table_entry(poly, k as u32),
        decreases 256 - i,
    {
        let mut crc = i;
        let mut n: u32 = 0;
        while n < 8
            invariant
                n <= 8,
                crc == reduce_bits(poly, i, n as nat),
            decreases 8 - n,
        {
            proof {
                lemma_reduce_bits_last(poly, i, n as nat);
            }
            if crc & 1 == 1 {
                crc = (crc >> 1) ^ poly;
            } else {
                crc = crc >> 1;
            }
            n += 1;
        }
        tab[i as usize] = crc;
        i += 1;
    }
    tab
}

proof fn lemma_reduce_bits_last(poly: u32, c: u32, n: nat)
    ensures
        reduce_bits(poly, c, n + 1) == reduce_bit(poly, reduce_bits(poly, c, n)),
    decreases n,
{
    if n > 0 {
        lemma_reduce_bits_last(poly, reduce_bit(poly, c), (n - 1) as nat);
    } else {
        reveal_with_fuel(reduce_bits, 2);
    }
}

/// Derives the slice table from the single-byte table `tab`: sub-table 0 is a
/// copy of `tab`, and entry `i` of sub-table `j` is entry `i` of sub-table
/// `j - 1` shifted by one byte, with the byte shifted out reduced through `tab`.
pub fn make_table8(tab: &[u32; 256]) -> (tab8: [[u32; 256]; 8])
    ensures
        is_slice_table(tab@, rows(tab8)),
{
    let mut tab8 = [[0u32; 256]; 8];
    tab8[0] = *tab;
    let mut j: usize = 1;
    while j < 8
        invariant
            1 <= j <= 8,
            tab8[0]@ == tab@,
            forall|jj: int, i: int|
                1 <= jj < j && 0 <= i < 256 ==> #[trigger] tab8[jj][i] == tab[(tab8[jj - 1][i]
                    & 0xff) as int] ^ (tab8[jj - 1][i] >> 8),
        decreases 8 - j,
    {
        let prev = tab8[j - 1];
        let mut row = [0u32; 256];
        let mut i: usize = 0;
        while i < 256
            invariant
                i <= 256,
                forall|k: int|
                    0 <= k < i ==> #[trigger] row[k] == tab[(prev[k] & 0xff) as int] ^ (prev[k]
                        >> 8),
            decreases 256 - i,
        {
            let p = prev[i];
            assert(p & 0xff < 256) by (bit_vector);
            row[i] = tab[(p & 0xff) as usize] ^ (p >> 8);
            i += 1;
        }
        tab8[j] = row;
        j += 1;
    }
    proof {
        let r = rows(tab8);
        assert forall|jj: int| 0 <= jj < 8 implies (#[trigger] r[jj]).len() == 256 by {}
        assert(r[0] =~= tab@);
    }
    tab8
}

/// A single-byte table is determined by its polynomial: two constructions
/// give the same table.
pub proof fn lemma_base_table_unique(poly: u32, a: Seq<u32>, b: Seq<u32>)
    requires
        is_base_table(poly, a),
        is_base_table(poly, b),
    ensures
        a == b,
{
    assert(a =~= b);
}

proof fn lemma_slice_rows_equal(base: Seq<u32>, a: Seq<Seq<u32>>, b: Seq<Seq<u32>>, j: int)
    requires
        is_slice_table(base, a),
        is_slice_table(base, b),
        0 <= j < 8,
    ensures
        a[j] == b[j],
    decreases j,
{
    if j > 0 {
        lemma_slice_rows_equal(base, a, b, j - 1);
        assert forall|i: int| 0 <= i < 256 implies #[trigger] a[j][i] == b[j][i] by {
            assert(a[j][i] == base[(a[j - 1][i] & 0xff) as int] ^ (a[j - 1][i] >> 8));
            assert(b[j][i] == base[(b[j - 1][i] & 0xff) as int] ^ (b[j - 1][i] >> 8));
        }
    }
    assert(a[j] =~= b[j]);
}

/// A slice table is determined by its single-byte table: two derivations
/// from the same table give the same slice table.
pub proof fn lemma_slice_table_unique(base: Seq<u32>, a: Seq<Seq<u32>>, b: Seq<Seq<u32>>)
    requires
        is_slice_table(base, a),
        is_slice_table(base, b),
    ensures
        a == b,
{
    assert forall|j: int| 0 <= j < 8 implies #[trigger] a[j] == b[j] by {
        lemma_slice_rows_equal(base, a, b, j);
    }
    assert(a =~= b);
}

proof fn lemma_slice_row_entries(base: Seq<u32>, t: Seq<Seq<u32>>, j: int)
    requires
        is_base_table(POLY, base),
        is_slice_table(base, t),
        0 <= j < 8,
    ensures
        forall|i: int| 0 <= i < 256 ==> #[trigger] t[j][i] == slice_entry(j as nat, i as u32),
    decreases j,
{
    if j > 0 {
        lemma_slice_row_entries(base, t, j - 1);
    }
    assert forall|i: int| 0 <= i < 256 implies #[trigger] t[j][i] == slice_entry(
        j as nat,
        i as u32,
    ) by {
        if j > 0 {
            let p = t[j - 1][i];
            assert(p == slice_entry((j - 1) as nat, i as u32));
            lemma_reduce_byte_split(POLY, p);
            lemma_reduce_bits_add(POLY, i as u32, (8 * j) as nat, 8);
            assert(p & 0xff < 256) by (bit_vector);
            assert(base[(p & 0xff) as int] == table_entry(POLY, p & 0xff));
        }
    }
}

/// The slice table of the single-byte table of `POLY` holds, in entry `i` of
/// sub-table `j`, byte value `i` after `8 * (j + 1)` bits of reduction.
pub proof fn lemma_slice_table_entries(base: Seq<u32>, t: Seq<Seq<u32>>)
    requires
        is_base_table(POLY, base),
        is_slice_table(base, t),
    ensures
        forall|j: int, i: int|
            0 <= j < 8 && 0 <= i < 256 ==> #[trigger] t[j][i] == slice_entry(j as nat, i as u32),
{
    assert forall|j: int, i: int| 0 <= j < 8 && 0 <= i < 256 implies #[trigger] t[j][i]
        == slice_entry(j as nat, i as u32) by {
        lemma_slice_row_entries(base, t, j);
    }
}

/// The single-byte table and the slice table of `POLY`, built once and read
/// by every checksum computed with them.
pub struct Tables {
    base: [u32; 256],
    slice: [[u32; 256]; 8],
}

impl Tables {
    #[verifier::type_invariant]
    spec fn is_built(self) -> bool {
        &&& is_base_table(POLY, self.base@)
        &&& is_slice_table(self.base@, rows(self.slice))
    }

    /// Builds both tables.
    pub fn new() -> (t: Tables) {
        let base = make_table(POLY);
        let slice = make_table8(&base);
        Tables { base, slice }
    }

    /// Entry `i` of the single-byte table.
    pub fn entry(&self, i: usize) -> (r: u32)
        requires
            i < 256,
        ensures
            r == table_entry(POLY, i as u32),
    {
        proof {
            use_type_invariant(self);
        }
        self.base[i]
    }

    /// Entry `i` of sub-table `j` of the slice table.
    pub fn lane(&self, j: usize, i: usize) -> (r: u32)
        requires
            j < 8,
            i < 256,
        ensures
            r == slice_entry(j as nat, i as u32),
    {
        proof {
            use_type_invariant(self);
            lemma_slice_table_entries(self.base@, rows(self.slice));
            assert(rows(self.slice)[j as int][i as int] == self.slice[j as int][i as int]);
        }
        self.slice[j][i]
    }
}

} // verus!
