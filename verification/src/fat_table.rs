//! The file allocation table: 12-bit entries packed two to three bytes.
use vstd::prelude::*;

verus! {

/// Entries at or above this value end a cluster chain.
pub const FAT12_EOF: u16 = 0xFF8;

/// Entry value that marks a bad cluster.
pub const FAT12_BAD_CLUSTER: u16 = 0xFF7;

/// Entry value of a free cluster.
pub const FAT12_FREE_CLUSTER: u16 = 0x000;

/// Offset of the first of the two bytes that hold the entry of cluster `c`.
pub open spec fn entry_offset(c: int) -> int {
    c * 3 / 2
}

/// The two bytes of cluster `c`'s entry lie inside a table of `len` bytes.
pub open spec fn entry_in_table(len: int, c: int) -> bool {
    0 <= c && entry_offset(c) + 1 < len
}

/// The 12-bit entry of cluster `c`: for an even cluster the low byte and the
/// low nibble of the next, for an odd one the high nibble and the next byte.
pub open spec fn fat_entry(fat: Seq<u8>, c: int) -> u16 {
    let lo = fat[entry_offset(c)] as int;
    let hi = fat[entry_offset(c) + 1] as int;
    if c % 2 == 0 {
        (lo + (hi % 16) * 256) as u16
    } else {
        (lo / 16 + hi * 16) as u16
    }
}

/// The table with the entry of cluster `c` set to the low 12 bits of `v`,
/// the neighbouring nibbles kept.
pub open spec fn fat_with_entry(fat: Seq<u8>, c: int, v: u16) -> Seq<u8> {
    let off = entry_offset(c);
    let lo = fat[off] as int;
    let hi = fat[off + 1] as int;
    if c % 2 == 0 {
        fat.update(off, (v % 256) as u8).update(off + 1, ((hi / 16) * 16 + (v / 256) % 16) as u8)
    } else {
        fat.update(off, (lo % 16 + (v % 16) * 16) as u8).update(off + 1, ((v / 16) % 256) as u8)
    }
}

/// Reads the entry of a cluster.
pub fn get_fat_entry(fat: &[u8], cluster: u16) -> (r: u16)
    requires
        entry_in_table(fat@.len() as int, cluster as int),
    ensures
        r == fat_entry(fat@, cluster as int),
        r < 4096,
{
    let off = (cluster as usize * 3) / 2;
    let lo = fat[off] as u16;
    let hi = fat[off + 1] as u16;
    let word = lo | (hi << 8);
    if cluster & 1 == 0 {
        assert(cluster & 1 == 0 <==> cluster % 2 == 0) by (bit_vector);
        assert(word & 0x0FFF == lo + (hi % 16) * 256 && word & 0x0FFF < 4096) by (bit_vector)
            requires word == lo | (hi << 8), lo < 256, hi < 256;
        word & 0x0FFF
    } else {
        assert(cluster & 1 == 0 <==> cluster % 2 == 0) by (bit_vector);
        assert(word >> 4 == lo / 16 + hi * 16 && word >> 4 < 4096) by (bit_vector)
            requires word == lo | (hi << 8), lo < 256, hi < 256;
        word >> 4
    }
}

/// Writes the low 12 bits of `value` as the entry of a cluster.
pub fn set_fat_entry(fat: &mut Vec<u8>, cluster: u16, value: u16)
    requires
        entry_in_table(old(fat)@.len() as int, cluster as int),
    ensures
        final(fat)@ == fat_with_entry(old(fat)@, cluster as int, value),
{
    let off = (cluster as usize * 3) / 2;
    let lo = fat[off];
    let hi = fat[off + 1];
    if cluster & 1 == 0 {
        assert(cluster & 1 == 0 <==> cluster % 2 == 0) by (bit_vector);
        let b0 = (value & 0xFF) as u8;
        let b1 = (hi & 0xF0) | (((value >> 8) & 0x0F) as u8);
        assert(b0 == value % 256) by (bit_vector)
            requires b0 == (value & 0xFF) as u8;
        assert(b1 == (hi / 16) * 16 + (value / 256) % 16) by (bit_vector)
            requires b1 == (hi & 0xF0) | (((value >> 8) & 0x0F) as u8);
        fat.set(off, b0);
        fat.set(off + 1, b1);
    } else {
        assert(cluster & 1 == 0 <==> cluster % 2 == 0) by (bit_vector);
        let b0 = (lo & 0x0F) | (((value & 0x0F) << 4) as u8);
        let b1 = ((value >> 4) & 0xFF) as u8;
        assert(b0 == lo % 16 + (value % 16) * 16) by (bit_vector)
            requires b0 == (lo & 0x0F) | (((value & 0x0F) << 4) as u8);
        assert(b1 == (value / 16) % 256) by (bit_vector)
            requires b1 == ((value >> 4) & 0xFF) as u8;
        fat.set(off, b0);
        fat.set(off + 1, b1);
    }
}

/// Reading the entry of a cluster right after writing it gives the low 12
/// bits of the value written.
pub proof fn law_fat_read_after_write(fat: Seq<u8>, c: int, v: u16)
    requires
        entry_in_table(fat.len() as int, c),
    ensures
        fat_entry(fat_with_entry(fat, c, v), c) == v % 4096,
        fat_with_entry(fat, c, v).len() == fat.len(),
{
    let off = entry_offset(c);
    let hi = fat[off + 1] as int;
    let lo = fat[off] as int;
    let v = v as int;
    if c % 2 == 0 {
        assert(((hi / 16) * 16 + (v / 256) % 16) % 16 == (v / 256) % 16) by (nonlinear_arith)
            requires 0 <= hi < 256, 0 <= v;
        assert(v % 256 + ((v / 256) % 16) * 256 == v % 4096) by (nonlinear_arith)
            requires 0 <= v;
    } else {
        assert((lo % 16 + (v % 16) * 16) / 16 == v % 16) by (nonlinear_arith)
            requires 0 <= lo < 256, 0 <= v;
        assert(v % 16 + ((v / 16) % 256) * 16 == v % 4096) by (nonlinear_arith)
            requires 0 <= v;
    }
}

/// Writing the entry of one cluster leaves the entry of every other cluster
/// as it was, even where the two share a byte.
pub proof fn law_fat_write_keeps_others(fat: Seq<u8>, c: int, d: int, v: u16)
    requires
        entry_in_table(fat.len() as int, c),
        entry_in_table(fat.len() as int, d),
        c != d,
    ensures
        fat_entry(fat_with_entry(fat, c, v), d) == fat_entry(fat, d),
{
    let new = fat_with_entry(fat, c, v);
    let oc = entry_offset(c);
    let od = entry_offset(d);
    let v = v as int;
    if c % 2 == 0 && d == c + 1 {
        assert(od == oc + 1);
        let hi = fat[oc + 1] as int;
        assert(((hi / 16) * 16 + (v / 256) % 16) / 16 == hi / 16) by (nonlinear_arith)
            requires 0 <= hi < 256, 0 <= v;
    } else if c % 2 == 1 && d == c - 1 {
        assert(oc == od + 1);
        let lo = fat[oc] as int;
        assert((lo % 16 + (v % 16) * 16) % 16 == lo % 16) by (nonlinear_arith)
            requires 0 <= lo < 256, 0 <= v;
    } else {
        assert(od + 1 < oc || oc + 1 < od);
        assert(new[od] == fat[od]);
        assert(new[od + 1] == fat[od + 1]);
    }
}

} // verus!
