//! The boot sector: the BIOS parameter block at its start, the checks that
//! decide whether a drive holds a FAT12 volume, and the volume's layout.
use vstd::prelude::*;
use crate::dir_entry::{le16_bytes, le32_bytes, push_le16, push_le32, read_le16, read_le32};

verus! {

/// Bytes in one sector.
pub const SECTOR_SIZE: usize = 512;

/// Bytes the BIOS parameter block takes at the start of the boot sector.
pub const BPB_SIZE: usize = 62;

/// The BIOS parameter block, field for field as it lies on disk.
#[derive(Clone, Copy, Debug)]
pub struct BiosParameterBlock {
    pub jmp_boot: [u8; 3],
    pub oem_name: [u8; 8],
    pub bytes_per_sector: u16,
    pub sectors_per_cluster: u8,
    pub reserved_sectors: u16,
    pub num_fats: u8,
    pub root_entry_count: u16,
    pub total_sectors_16: u16,
    pub media_type: u8,
    pub fat_size_16: u16,
    pub sectors_per_track: u16,
    pub num_heads: u16,
    pub hidden_sectors: u32,
    pub total_sectors_32: u32,
    pub drive_number: u8,
    pub reserved1: u8,
    pub boot_signature: u8,
    pub volume_id: u32,
    pub volume_label: [u8; 11],
    pub fs_type: [u8; 8],
}

/// Where the parts of a FAT12 volume start, in sectors.
#[derive(Clone, Copy, Debug)]
pub struct Fat12Geometry {
    pub fat_start_sector: u64,
    pub root_dir_sectors: u32,
    pub root_dir_start_sector: u64,
    pub data_start_sector: u64,
}

impl BiosParameterBlock {
    /// The 62 bytes of the block on disk.
    pub open spec fn bytes(self) -> Seq<u8> {
        self.jmp_boot@ + self.oem_name@ + le16_bytes(self.bytes_per_sector) + seq![self.sectors_per_cluster]
            + le16_bytes(self.reserved_sectors) + seq![self.num_fats] + le16_bytes(self.root_entry_count)
            + le16_bytes(self.total_sectors_16) + seq![self.media_type] + le16_bytes(self.fat_size_16)
            + le16_bytes(self.sectors_per_track) + le16_bytes(self.num_heads) + le32_bytes(self.hidden_sectors)
            + le32_bytes(self.total_sectors_32) + seq![self.drive_number, self.reserved1, self.boot_signature]
            + le32_bytes(self.volume_id) + self.volume_label@ + self.fs_type@
    }

    /// The block of an unformatted volume: every field zero.
    pub open spec fn zeroed(self) -> bool {
        self.bytes() == Seq::new(BPB_SIZE as nat, |i: int| 0u8)
    }

    /// The layout that fat12_init derives from the block: the FATs after the
    /// reserved sectors, the root directory after the FATs, the data after the
    /// root directory.
    pub open spec fn geometry(self) -> Fat12Geometry {
        let fat_start = self.reserved_sectors as int;
        let root_dir_sectors = (self.root_entry_count * 32 + self.bytes_per_sector - 1) / (self.bytes_per_sector as int);
        let root_start = fat_start + self.num_fats * self.fat_size_16;
        Fat12Geometry {
            fat_start_sector: fat_start as u64,
            root_dir_sectors: root_dir_sectors as u32,
            root_dir_start_sector: root_start as u64,
            data_start_sector: (root_start + root_dir_sectors) as u64,
        }
    }

    /// The volume's layout as fat12_init computes it.
    pub fn compute_geometry(&self) -> (g: Fat12Geometry)
        requires
            self.bytes_per_sector != 0,
        ensures
            g == self.geometry(),
    {
        let fat_start_sector = self.reserved_sectors as u64;
        let root_dir_sectors = ((self.root_entry_count as u32 * 32) + (self.bytes_per_sector as u32 - 1))
            / self.bytes_per_sector as u32;
        assert(self.num_fats as u64 * self.fat_size_16 as u64 <= 255 * 65535) by (nonlinear_arith)
            requires self.num_fats <= 255, self.fat_size_16 <= 65535;
        let fat_span = self.num_fats as u64 * self.fat_size_16 as u64;
        let root_dir_start_sector = fat_start_sector + fat_span;
        let data_start_sector = root_dir_start_sector + root_dir_sectors as u64;
        Fat12Geometry { fat_start_sector, root_dir_sectors, root_dir_start_sector, data_start_sector }
    }

    /// The 62 bytes of the block as they lie on disk.
    pub fn to_bytes(&self) -> (r: Vec<u8>)
        ensures
            r@ == self.bytes(),
    {
        let mut out: Vec<u8> = Vec::new();
        push_all(&mut out, &self.jmp_boot);
        push_all(&mut out, &self.oem_name);
        push_le16(&mut out, self.bytes_per_sector);
        out.push(self.sectors_per_cluster);
        push_le16(&mut out, self.reserved_sectors);
        out.push(self.num_fats);
        push_le16(&mut out, self.root_entry_count);
        push_le16(&mut out, self.total_sectors_16);
        out.push(self.media_type);
        push_le16(&mut out, self.fat_size_16);
        push_le16(&mut out, self.sectors_per_track);
        push_le16(&mut out, self.num_heads);
        push_le32(&mut out, self.hidden_sectors);
        push_le32(&mut out, self.total_sectors_32);
        out.push(self.drive_number);
        out.push(self.reserved1);
        out.push(self.boot_signature);
        push_le32(&mut out, self.volume_id);
        push_all(&mut out, &self.volume_label);
        push_all(&mut out, &self.fs_type);
        assert(out@ =~= self.bytes());
        out
    }

    /// The block that the first 62 bytes of a boot sector describe.
    pub fn from_bytes(b: &[u8]) -> (r: BiosParameterBlock)
        requires
            b@.len() >= BPB_SIZE,
        ensures
            r.bytes() == b@.subrange(0, BPB_SIZE as int),
    {
        let r = BiosParameterBlock {
            jmp_boot: copy3(b, 0),
            oem_name: copy8(b, 3),
            bytes_per_sector: read_le16(b, 11),
            sectors_per_cluster: b[13],
            reserved_sectors: read_le16(b, 14),
            num_fats: b[16],
            root_entry_count: read_le16(b, 17),
            total_sectors_16: read_le16(b, 19),
            media_type: b[21],
            fat_size_16: read_le16(b, 22),
            sectors_per_track: read_le16(b, 24),
            num_heads: read_le16(b, 26),
            hidden_sectors: read_le32(b, 28),
            total_sectors_32: read_le32(b, 32),
            drive_number: b[36],
            reserved1: b[37],
            boot_signature: b[38],
            volume_id: read_le32(b, 39),
            volume_label: copy11(b, 43),
            fs_type: copy8(b, 54),
        };
        assert(r.bytes() =~= b@.subrange(0, BPB_SIZE as int));
        r
    }

    /// The block of an unformatted volume, every field zero.
    pub fn zero() -> (r: BiosParameterBlock)
        ensures
            r.zeroed(),
            r.bytes_per_sector == 0 && r.sectors_per_cluster == 0 && r.fat_size_16 == 0
                && r.num_fats == 0 && r.root_entry_count == 0,
    {
        let r = BiosParameterBlock {
            jmp_boot: [0u8; 3],
            oem_name: [0u8; 8],
            bytes_per_sector: 0,
            sectors_per_cluster: 0,
            reserved_sectors: 0,
            num_fats: 0,
            root_entry_count: 0,
            total_sectors_16: 0,
            media_type: 0,
            fat_size_16: 0,
            sectors_per_track: 0,
            num_heads: 0,
            hidden_sectors: 0,
            total_sectors_32: 0,
            drive_number: 0,
            reserved1: 0,
            boot_signature: 0,
            volume_id: 0,
            volume_label: [0u8; 11],
            fs_type: [0u8; 8],
        };
        assert(r.bytes() =~= Seq::new(BPB_SIZE as nat, |i: int| 0u8));
        r
    }
}

/// Bytes per sector as the boot sector records it.
pub open spec fn sector_bytes_per_sector(s: Seq<u8>) -> int {
    s[11] + s[12] * 256
}

/// The boot sector ends in the signature 0x55 0xAA.
pub open spec fn has_boot_signature(s: Seq<u8>) -> bool {
    s[510] == 0x55 && s[511] == 0xAA
}

/// The file-system type field starts with "FAT12", or the sector size is 512
/// with at least one sector per cluster.
pub open spec fn looks_like_fat12(s: Seq<u8>) -> bool {
    s.subrange(54, 59) == seq![70u8, 65u8, 84u8, 49u8, 50u8]
        || (sector_bytes_per_sector(s) == 512 && s[13] > 0)
}

/// What fat12_init decides of a boot sector: the signature first, then the
/// type; a sector size of zero, which the layout divides by, is refused too.
pub open spec fn boot_sector_verdict(s: Seq<u8>) -> Result<(), &'static str> {
    if !has_boot_signature(s) {
        Err("Invalid boot sector signature")
    } else if !looks_like_fat12(s) {
        Err("Not a FAT12 filesystem")
    } else if sector_bytes_per_sector(s) == 0 {
        Err("Invalid bytes per sector")
    } else {
        Ok(())
    }
}

/// Checks a boot sector and reads its parameter block.
pub fn check_boot_sector(sector: &[u8]) -> (r: Result<BiosParameterBlock, &'static str>)
    requires
        sector@.len() == SECTOR_SIZE,
    ensures
        match r {
            Ok(bpb) => boot_sector_verdict(sector@) is Ok && bpb.bytes() == sector@.subrange(0, BPB_SIZE as int)
                && bpb.bytes_per_sector != 0,
            Err(m) => boot_sector_verdict(sector@) == Err::<(), &'static str>(m),
        },
{
    let bpb = BiosParameterBlock::from_bytes(sector);
    proof {
        assert(bpb.bytes().subrange(11, 13) =~= le16_bytes(bpb.bytes_per_sector));
        assert(bpb.bytes()[11] == sector@[11] && bpb.bytes()[12] == sector@[12]);
        assert(bpb.bytes()[13] == sector@[13]);
        assert(bpb.bytes().subrange(54, 59) =~= sector@.subrange(54, 59));
        assert(bpb.bytes().subrange(54, 62) =~= bpb.fs_type@);
    }
    if sector[510] != 0x55 || sector[511] != 0xAA {
        return Err("Invalid boot sector signature");
    }
    let fs = &bpb.fs_type;
    let named_fat12 = fs[0] == 70 && fs[1] == 65 && fs[2] == 84 && fs[3] == 49 && fs[4] == 50;
    proof {
        assert(named_fat12 <==> sector@.subrange(54, 59) =~= seq![70u8, 65u8, 84u8, 49u8, 50u8]);
    }
    let is_fat12 = named_fat12 || (bpb.bytes_per_sector == 512 && bpb.sectors_per_cluster > 0);
    if !is_fat12 {
        return Err("Not a FAT12 filesystem");
    }
    if bpb.bytes_per_sector == 0 {
        return Err("Invalid bytes per sector");
    }
    Ok(bpb)
}

fn push_all(out: &mut Vec<u8>, a: &[u8])
    ensures
        final(out)@ == old(out)@ + a@,
{
    let mut i: usize = 0;
    while i < a.len()
        invariant
            i <= a@.len(),
            out@ == old(out)@ + a@.subrange(0, i as int),
        decreases a.len() - i,
    {
        out.push(a[i]);
        assert(a@.subrange(0, i + 1) =~= a@.subrange(0, i as int).push(a@[i as int]));
        i = i + 1;
    }
    assert(a@.subrange(0, a@.len() as int) =~= a@);
}

fn copy3(b: &[u8], off: usize) -> (r: [u8; 3])
    requires
        off + 3 <= b@.len(),
    ensures
        r@ == b@.subrange(off as int, off + 3),
{
    let r = [b[off], b[off + 1], b[off + 2]];
    assert(r@ =~= b@.subrange(off as int, off + 3));
    r
}

fn copy8(b: &[u8], off: usize) -> (r: [u8; 8])
    requires
        off + 8 <= b@.len(),
    ensures
        r@ == b@.subrange(off as int, off + 8),
{
    let r = [b[off], b[off + 1], b[off + 2], b[off + 3], b[off + 4], b[off + 5], b[off + 6], b[off + 7]];
    assert(r@ =~= b@.subrange(off as int, off + 8));
    r
}

fn copy11(b: &[u8], off: usize) -> (r: [u8; 11])
    requires
        off + 11 <= b@.len(),
    ensures
        r@ == b@.subrange(off as int, off + 11),
{
    let r = [
        b[off], b[off + 1], b[off + 2], b[off + 3], b[off + 4], b[off + 5], b[off + 6], b[off + 7],
        b[off + 8], b[off + 9], b[off + 10],
    ];
    assert(r@ =~= b@.subrange(off as int, off + 11));
    r
}

/// The layout of a block with a non-zero sector size stays far below the
/// range of the integers that hold it.
pub proof fn lemma_geometry_bounds(bpb: BiosParameterBlock)
    requires
        bpb.bytes_per_sector != 0,
    ensures
        bpb.geometry().fat_start_sector <= 65535,
        bpb.geometry().root_dir_sectors <= 2162654,
        bpb.geometry().root_dir_start_sector <= 16776960,
        bpb.geometry().data_start_sector <= 18939614,
        bpb.geometry().root_dir_start_sector == bpb.geometry().fat_start_sector + bpb.num_fats * bpb.fat_size_16,
        bpb.geometry().data_start_sector == bpb.geometry().root_dir_start_sector + bpb.geometry().root_dir_sectors,
{
    let rec = bpb.root_entry_count as int;
    let bps = bpb.bytes_per_sector as int;
    assert((rec * 32 + bps - 1) / bps <= rec * 32 + bps - 1) by (nonlinear_arith)
        requires 0 <= rec, 1 <= bps;
    assert(0 <= (rec * 32 + bps - 1) / bps) by (nonlinear_arith)
        requires 0 <= rec, 1 <= bps;
    assert(bpb.num_fats * bpb.fat_size_16 <= 255 * 65535) by (nonlinear_arith)
        requires bpb.num_fats <= 255, bpb.fat_size_16 <= 65535;
}

/// The 16-bit little-endian value at byte `off` of a sector.
pub open spec fn le16_in(s: Seq<u8>, off: int) -> int {
    s[off] + 256 * s[off + 1]
}

/// The layout a mounted volume uses is read off its boot sector: the first
/// FAT right after the reserved sectors (bytes 14-15), the root directory
/// after all the FATs (count at byte 16, size in sectors at bytes 22-23), as
/// many root directory sectors as its entries (bytes 17-18, 32 bytes each)
/// fill at the sector size (bytes 11-12), and the data right after it.
pub proof fn law_layout_from_boot_sector(s: Seq<u8>, bpb: BiosParameterBlock)
    requires
        s.len() >= BPB_SIZE,
        s.subrange(0, BPB_SIZE as int) == bpb.bytes(),
        bpb.bytes_per_sector != 0,
    ensures
        bpb.geometry().fat_start_sector == le16_in(s, 14),
        bpb.geometry().root_dir_start_sector == le16_in(s, 14) + s[16] * le16_in(s, 22),
        bpb.geometry().root_dir_sectors == (le16_in(s, 17) * 32 + le16_in(s, 11) - 1) / le16_in(s, 11),
        bpb.geometry().data_start_sector == bpb.geometry().root_dir_start_sector + bpb.geometry().root_dir_sectors,
{
    lemma_geometry_bounds(bpb);
    let b = bpb.bytes();
    assert(b.subrange(11, 13) =~= le16_bytes(bpb.bytes_per_sector));
    assert(b.subrange(14, 16) =~= le16_bytes(bpb.reserved_sectors));
    assert(b.subrange(17, 19) =~= le16_bytes(bpb.root_entry_count));
    assert(b.subrange(22, 24) =~= le16_bytes(bpb.fat_size_16));
    assert(b[16] == bpb.num_fats);
    assert(s[11] == b[11] && s[12] == b[12] && s[14] == b[14] && s[15] == b[15] && s[16] == b[16]);
    assert(s[17] == b[17] && s[18] == b[18] && s[22] == b[22] && s[23] == b[23]);
    lemma_le16_value(bpb.bytes_per_sector);
    lemma_le16_value(bpb.reserved_sectors);
    lemma_le16_value(bpb.root_entry_count);
    lemma_le16_value(bpb.fat_size_16);
}

proof fn lemma_le16_value(v: u16)
    ensures
        le16_bytes(v)[0] + 256 * le16_bytes(v)[1] == v,
{
    assert((v % 256) + 256 * (v / 256) == v) by (nonlinear_arith);
}

} // verus!
