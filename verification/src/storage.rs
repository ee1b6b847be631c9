//! The sector driver that the file system reads and writes through, what a
//! run of sectors holds, and the zeroing of a range of blocks.
use vstd::prelude::*;

verus! {

/// Bytes in one disk sector.
pub const SECTOR_BYTES: u64 = 512;

/// What a device holds, sector by sector, by logical block address.
pub type SectorMap = Map<u64, Seq<u8>>;

/// A device that reads and writes 512-byte sectors by logical block address.
/// Its model is what each sector holds. A read that succeeds gives the sector as
/// the device holds it; a write that succeeds replaces that one sector; a
/// write that fails may have touched its own sector but no other.
pub trait StorageDriver {
    /// The contents of the device, sector by sector. Code generic over the
    /// device (all of this library) knows of it only what the two methods'
    /// contracts say; a device implemented outside verified code promises
    /// them of its real contents, and nothing checks that.
    spec fn sectors(&self) -> SectorMap;

    /// Reads the sector at `lba` into `buffer`; false where the device failed.
    fn read_sector(&self, lba: u64, buffer: &mut [u8]) -> (ok: bool)
        requires
            old(buffer)@.len() == 512,
        ensures
            final(buffer)@.len() == old(buffer)@.len(),
            ok ==> self.sectors().contains_key(lba) && final(buffer)@ == self.sectors()[lba],
    ;

    /// Writes `data` to the sector at `lba`; false where the device failed.
    fn write_sector(&mut self, lba: u64, data: &[u8]) -> (ok: bool)
        requires
            data@.len() == 512,
        ensures
            ok ==> final(self).sectors() == old(self).sectors().insert(lba, data@),
            !ok ==> final(self).sectors().remove(lba) == old(self).sectors().remove(lba),
    ;
}

/// The bytes of `count` sectors from `start` on, one after the other.
pub open spec fn region_bytes(disk: Map<u64, Seq<u8>>, start: int, count: int) -> Seq<u8>
    decreases count,
{
    if count <= 0 {
        seq![]
    } else {
        region_bytes(disk, start, count - 1) + disk[(start + count - 1) as u64]
    }
}

/// Every sector from `start` on, `count` of them, is on the disk.
pub open spec fn region_present(disk: Map<u64, Seq<u8>>, start: int, count: int) -> bool {
    forall|l: u64| start <= l < start + count ==> #[trigger] disk.contains_key(l)
}

/// Block `i` of the bytes: bytes `512 i .. 512 (i + 1)`.
pub open spec fn block(data: Seq<u8>, i: int) -> Seq<u8> {
    data.subrange(512 * i, 512 * i + 512)
}

/// The disk after the first `n` blocks of the bytes are written as sectors
/// from `start` on, block `i` to sector `start + i`.
pub open spec fn put_blocks(disk: Map<u64, Seq<u8>>, start: int, data: Seq<u8>, n: int) -> Map<u64, Seq<u8>>
    decreases n,
{
    if n <= 0 {
        disk
    } else {
        put_blocks(disk, start, data, n - 1).insert((start + n - 1) as u64, block(data, n - 1))
    }
}

/// The disk after the bytes are written as consecutive sectors from `start` on.
pub open spec fn put_region(disk: Map<u64, Seq<u8>>, start: int, data: Seq<u8>) -> Map<u64, Seq<u8>> {
    put_blocks(disk, start, data, (data.len() / 512) as int)
}

/// The two disks hold the same sectors, with the same bytes, everywhere but
/// in the `count` sectors from `start` on.
pub open spec fn same_outside(a: Map<u64, Seq<u8>>, b: Map<u64, Seq<u8>>, start: int, count: int) -> bool {
    forall|l: u64|
        #![trigger a.contains_key(l)]
        #![trigger a[l]]
        !(start <= l < start + count) ==> a.contains_key(l) == b.contains_key(l) && a[l] == b[l]
}

/// Writing blocks from `start` on puts block `l - start` at each sector `l`
/// they cover and leaves every other sector as it was.
pub proof fn lemma_put_blocks(disk: Map<u64, Seq<u8>>, start: int, data: Seq<u8>, n: int)
    requires
        0 <= start,
        0 <= n,
        start + n <= u64::MAX + 1,
    ensures
        forall|l: u64| start <= l < start + n ==> #[trigger] put_blocks(disk, start, data, n).contains_key(l),
        forall|l: u64| start <= l < start + n ==> #[trigger] put_blocks(disk, start, data, n)[l] == block(data, l - start),
        same_outside(put_blocks(disk, start, data, n), disk, start, n),
    decreases n,
{
    if n > 0 {
        lemma_put_blocks(disk, start, data, n - 1);
    }
}

/// The bytes of a run of sectors depend only on what those sectors hold.
pub proof fn lemma_region_same(a: Map<u64, Seq<u8>>, b: Map<u64, Seq<u8>>, start: int, count: int)
    requires
        0 <= start,
        start + count <= u64::MAX + 1,
        forall|l: u64| start <= l < start + count ==> #[trigger] a[l] == b[l],
    ensures
        region_bytes(a, start, count) == region_bytes(b, start, count),
    decreases count,
{
    if count > 0 {
        lemma_region_same(a, b, start, count - 1);
        let l = (start + count - 1) as u64;
        assert(a[l] == b[l]);
    }
}

/// A run of sectors each holding the matching block of the bytes reads back
/// as the bytes.
pub proof fn lemma_region_of_blocks(disk: Map<u64, Seq<u8>>, start: int, data: Seq<u8>, count: int)
    requires
        0 <= start,
        0 <= count,
        start + count <= u64::MAX + 1,
        data.len() == 512 * count,
        forall|l: u64| start <= l < start + count ==> #[trigger] disk[l] == block(data, l - start),
    ensures
        region_bytes(disk, start, count) == data,
    decreases count,
{
    if count > 0 {
        let prev = data.subrange(0, 512 * (count - 1));
        assert forall|l: u64| start <= l < start + (count - 1) implies #[trigger] disk[l] == block(prev, l - start) by {
            assert(disk[l] == block(data, l - start));
            assert(block(prev, l - start) =~= block(data, l - start));
        }
        lemma_region_of_blocks(disk, start, prev, count - 1);
        let l = (start + count - 1) as u64;
        assert(disk[l] == block(data, count - 1));
        assert(data =~= prev + block(data, count - 1));
    }
}

/// Writing bytes over a run of sectors and reading the run back gives the
/// bytes, where they fill whole sectors.
pub proof fn law_region_read_after_write(disk: Map<u64, Seq<u8>>, start: int, data: Seq<u8>)
    requires
        0 <= start,
        data.len() % 512 == 0,
        start + data.len() / 512 <= u64::MAX + 1,
    ensures
        region_bytes(put_region(disk, start, data), start, (data.len() / 512) as int) == data,
        region_present(put_region(disk, start, data), start, (data.len() / 512) as int),
        same_outside(put_region(disk, start, data), disk, start, (data.len() / 512) as int),
{
    let n = (data.len() / 512) as int;
    let len = data.len() as int;
    assert(len == 512 * (len / 512)) by (nonlinear_arith)
        requires len % 512 == 0, len >= 0;
    lemma_put_blocks(disk, start, data, n);
    lemma_region_of_blocks(put_region(disk, start, data), start, data, n);
}

/// The sectors that `num_blocks` blocks of `block_size_bytes` starting at
/// block `start_block` cover: the first sector and how many there are.
pub open spec fn block_sectors(start_block: u64, num_blocks: u64, block_size_bytes: u64) -> (int, int) {
    let per_block = block_size_bytes / SECTOR_BYTES;
    (start_block * per_block, num_blocks * per_block)
}

/// A sector of zeros.
pub open spec fn zero_sector_bytes() -> Seq<u8> {
    Seq::new(512, |i: int| 0u8)
}

/// The disk after the same bytes are written to `n` sectors from `start` on.
pub open spec fn put_same(disk: Map<u64, Seq<u8>>, start: int, n: int, s: Seq<u8>) -> Map<u64, Seq<u8>>
    decreases n,
{
    if n <= 0 {
        disk
    } else {
        put_same(disk, start, n - 1, s).insert((start + n - 1) as u64, s)
    }
}

/// Writing the same bytes to sectors leaves every sector before the run as
/// it was.
proof fn lemma_put_same_outside(disk: Map<u64, Seq<u8>>, start: int, n: int, s: Seq<u8>)
    requires
        0 <= start,
        0 <= n,
        start + n <= u64::MAX + 1,
    ensures
        same_outside(put_same(disk, start, n, s), disk, start, n),
    decreases n,
{
    if n > 0 {
        lemma_put_same_outside(disk, start, n - 1, s);
    }
}

/// A failed write after a successful run leaves every sector outside the
/// run, now one longer, as it was.
pub proof fn lemma_failed_step(before: Map<u64, Seq<u8>>, mid: Map<u64, Seq<u8>>, after: Map<u64, Seq<u8>>, start: int, i: int, n: int)
    requires
        0 <= i < n,
        same_outside(mid, before, start, i),
        after.remove((start + i) as u64) == mid.remove((start + i) as u64),
        0 <= start,
        start + n <= u64::MAX + 1,
    ensures
        same_outside(after, before, start, n),
{
    assert forall|l: u64|
        #![trigger after.contains_key(l)]
        #![trigger after[l]]
        !(start <= l < start + n) implies after.contains_key(l) == before.contains_key(l) && after[l] == before[l] by {
        assert(l != (start + i) as u64);
        assert(after.remove((start + i) as u64).contains_key(l) == after.contains_key(l));
        assert(mid.remove((start + i) as u64).contains_key(l) == mid.contains_key(l));
        assert(after.remove((start + i) as u64)[l] == after[l]);
        assert(mid.remove((start + i) as u64)[l] == mid[l]);
        assert(mid.contains_key(l) == before.contains_key(l) && mid[l] == before[l]);
    }
    assert(same_outside(after, before, start, n));
}

/// Writes a zero sector over every sector of the given blocks, in order,
/// stopping at the first write the device refuses; true where all succeeded,
/// so always where the blocks cover no sector.
pub fn zero_blocks<D: StorageDriver>(drive: &mut D, start_block: u64, num_blocks: u64, block_size_bytes: u64) -> (ok: bool)
    requires
        block_sectors(start_block, num_blocks, block_size_bytes).0 <= u64::MAX,
        block_sectors(start_block, num_blocks, block_size_bytes).1 <= u64::MAX,
        block_sectors(start_block, num_blocks, block_size_bytes).1 == 0
            || block_sectors(start_block, num_blocks, block_size_bytes).0 + block_sectors(start_block, num_blocks, block_size_bytes).1
            - 1 <= u64::MAX,
    ensures
        ({
            let (start, total) = block_sectors(start_block, num_blocks, block_size_bytes);
            &&& ok ==> final(drive).sectors() == put_same(old(drive).sectors(), start, total, zero_sector_bytes())
            &&& !ok ==> total > 0 && same_outside(final(drive).sectors(), old(drive).sectors(), start, total)
        }),
{
    let sectors_per_block = block_size_bytes / SECTOR_BYTES;
    proof {
        lemma_mul_le(start_block as int, sectors_per_block as int, num_blocks as int);
    }
    let start_sector = start_block * sectors_per_block;
    let total_sectors = num_blocks * sectors_per_block;
    let zero_sector: Vec<u8> = vec![0u8; 512];
    let ghost zeros = zero_sector_bytes();
    assert(zero_sector@ =~= zeros);
    let ghost before = drive.sectors();
    let mut i: u64 = 0;
    while i < total_sectors
        invariant
            i <= total_sectors,
            total_sectors == 0 || start_sector + total_sectors - 1 <= u64::MAX,
            total_sectors == block_sectors(start_block, num_blocks, block_size_bytes).1,
            start_sector == block_sectors(start_block, num_blocks, block_size_bytes).0,
            zero_sector@ == zeros,
            zeros == zero_sector_bytes(),
            zero_sector@.len() == 512,
            before == old(drive).sectors(),
            drive.sectors() == put_same(before, start_sector as int, i as int, zeros),
        decreases total_sectors - i,
    {
        let sector_to_write = start_sector + i;
        let ghost mid = drive.sectors();
        if !drive.write_sector(sector_to_write, zero_sector.as_slice()) {
            proof {
                lemma_put_same_outside(before, start_sector as int, i as int, zeros);
                lemma_failed_step(before, mid, drive.sectors(), start_sector as int, i as int, total_sectors as int);
            }
            return false;
        }
        i = i + 1;
    }
    true
}

proof fn lemma_mul_le(a: int, b: int, c: int)
    requires
        0 <= a,
        0 <= b,
        0 <= c,
    ensures
        0 <= a * b,
        0 <= c * b,
{
    assert(0 <= a * b) by (nonlinear_arith)
        requires 0 <= a, 0 <= b;
    assert(0 <= c * b) by (nonlinear_arith)
        requires 0 <= c, 0 <= b;
}

} // verus!
