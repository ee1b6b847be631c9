//! The decisions of the ATA (IDE) disk driver in PIO mode: which port a
//! register lives at, what the status and error registers mean, which
//! registers a transfer sets, how a transfer is cut into commands, and what
//! the IDENTIFY data says of a drive. The port accesses themselves are made
//! by the caller.
use vstd::prelude::*;
use crate::dir_entry::{le16_bytes, le32_bytes, read_le16, read_le32};

verus! {

pub const ATA_SR_BSY: u8 = 0x80;
pub const ATA_SR_DF: u8 = 0x20;
pub const ATA_SR_DRQ: u8 = 0x08;
pub const ATA_SR_ERR: u8 = 0x01;

pub const ATA_ER_BBK: u8 = 0x80;
pub const ATA_ER_UNC: u8 = 0x40;
pub const ATA_ER_MC: u8 = 0x20;
pub const ATA_ER_IDNF: u8 = 0x10;
pub const ATA_ER_MCR: u8 = 0x08;
pub const ATA_ER_ABRT: u8 = 0x04;
pub const ATA_ER_TK0NF: u8 = 0x02;
pub const ATA_ER_AMNF: u8 = 0x01;

pub const ATA_CMD_READ_PIO: u8 = 0x20;
pub const ATA_CMD_READ_PIO_EXT: u8 = 0x24;
pub const ATA_CMD_WRITE_PIO: u8 = 0x30;
pub const ATA_CMD_WRITE_PIO_EXT: u8 = 0x34;
pub const ATA_CMD_CACHE_FLUSH: u8 = 0xE7;
pub const ATA_CMD_IDENTIFY: u8 = 0xEC;

pub const ATA_IDENT_MODEL: usize = 54;
pub const ATA_IDENT_MAX_LBA: usize = 120;
pub const ATA_IDENT_COMMANDSETS: usize = 164;
pub const ATA_IDENT_MAX_LBA_EXT: usize = 200;

pub const IDE_ATA: u8 = 0x00;

pub const ATA_REG_DATA: u8 = 0x00;
pub const ATA_REG_ERROR: u8 = 0x01;
pub const ATA_REG_SECCOUNT0: u8 = 0x02;
pub const ATA_REG_LBA0: u8 = 0x03;
pub const ATA_REG_LBA1: u8 = 0x04;
pub const ATA_REG_LBA2: u8 = 0x05;
pub const ATA_REG_HDDEVSEL: u8 = 0x06;
pub const ATA_REG_COMMAND: u8 = 0x07;
pub const ATA_REG_STATUS: u8 = 0x07;
pub const ATA_REG_SECCOUNT1: u8 = 0x08;
pub const ATA_REG_LBA3: u8 = 0x09;
pub const ATA_REG_LBA4: u8 = 0x0A;
pub const ATA_REG_LBA5: u8 = 0x0B;
pub const ATA_REG_ALTSTATUS: u8 = 0x0C;

pub const ATA_PRIMARY: u8 = 0x00;
pub const ATA_SECONDARY: u8 = 0x01;

/// Most sectors one command moves.
pub const MAX_SECTORS_PER_TRANSFER: usize = 128;

/// Bytes in one sector.
pub const IDE_SECTOR_SIZE: usize = 512;

/// 32-bit words in one sector.
pub const QUADS_PER_SECTOR: u32 = 128;

/// The I/O ports of one IDE channel.
#[derive(Clone, Copy, Debug)]
pub struct IDEChannelRegisters {
    pub base: u16,
    pub ctrl: u16,
    pub bmide: u16,
    pub nien: u8,
}

/// What the driver knows of one drive.
#[derive(Clone, Copy, Debug)]
pub struct IdeDevice {
    pub reserved: u8,
    pub channel: u8,
    pub drive: u8,
    pub device_type: u16,
    pub signature: u16,
    pub capabilities: u16,
    pub command_sets: u32,
    pub size: u64,
    pub model: [u8; 41],
}

/// What the IDENTIFY data of a drive says: its model text, its command sets,
/// whether it speaks 48-bit addressing, and its size in sectors.
#[derive(Clone, Copy, Debug)]
pub struct IdentifyData {
    pub model: [u8; 41],
    pub command_sets: u16,
    pub lba48: bool,
    pub size: u64,
}

/// One command of a transfer: where it starts, how many sectors it moves,
/// and whether it needs 48-bit addressing.
#[derive(Clone, Copy, Debug)]
pub struct TransferChunk {
    pub lba: u64,
    pub sectors: usize,
    pub lba48: bool,
}

/// What the status register says while the driver waits for a drive to
/// answer IDENTIFY.
#[derive(Clone, Copy, Debug, PartialEq, Eq)]
pub enum IdentifyProbe {
    /// No drive, or the drive refused the command.
    Absent,
    /// The data is ready to be read.
    Ready,
    /// Keep waiting.
    Wait,
}

impl IDEChannelRegisters {
    /// Every register of the channel has a port number that fits 16 bits.
    pub open spec fn addressable(self) -> bool {
        self.base + 7 <= u16::MAX && self.ctrl + 3 <= u16::MAX && self.bmide + 7 <= u16::MAX
    }

    /// The port of the register lies within 16 bits.
    pub open spec fn reaches(self, reg: u8) -> bool {
        if reg <= 0x07 {
            self.base + reg <= u16::MAX
        } else if reg <= 0x0B {
            self.base + reg - 6 <= u16::MAX
        } else if reg <= 0x0D {
            self.ctrl + reg - 0x0A <= u16::MAX
        } else if reg <= 0x15 {
            self.bmide + reg - 0x0E <= u16::MAX
        } else {
            true
        }
    }
}

/// Registers 0x08 to 0x0B are the high-order bytes of a 48-bit command; the
/// driver sets the HOB bit of the control register around their access.
pub open spec fn spec_high_order(reg: u8) -> bool {
    reg > 0x07 && reg < 0x0C
}

/// The port of a register of the channel: the command block for 0x00-0x0B
/// (the high-order registers sharing the ports of 0x02-0x05), the control
/// block for 0x0C-0x0D, the bus-master block for 0x0E-0x15; none otherwise.
pub open spec fn spec_register_port(ch: IDEChannelRegisters, reg: u8) -> Option<u16> {
    if reg <= 0x07 {
        Some((ch.base + reg) as u16)
    } else if reg <= 0x0B {
        Some((ch.base + reg - 6) as u16)
    } else if reg <= 0x0D {
        Some((ch.ctrl + reg - 0x0A) as u16)
    } else if reg <= 0x15 {
        Some((ch.bmide + reg - 0x0E) as u16)
    } else {
        None
    }
}

/// Whether accessing the register needs the HOB bit set.
pub fn uses_high_order(reg: u8) -> (r: bool)
    ensures
        r == spec_high_order(reg),
{
    reg > 0x07 && reg < 0x0C
}

/// The port at which a register of the channel is read or written.
pub fn register_port(ch: &IDEChannelRegisters, reg: u8) -> (r: Option<u16>)
    requires
        ch.reaches(reg),
    ensures
        r == spec_register_port(*ch, reg),
{
    if reg <= 0x07 {
        Some(ch.base + reg as u16)
    } else if reg <= 0x0B {
        Some(ch.base + (reg - 0x06) as u16)
    } else if reg <= 0x0D {
        Some(ch.ctrl + (reg - 0x0A) as u16)
    } else if reg <= 0x15 {
        Some(ch.bmide + (reg - 0x0E) as u16)
    } else {
        None
    }
}

/// The drive is still busy.
pub fn status_busy(status: u8) -> (r: bool)
    ensures
        r == (status & ATA_SR_BSY != 0),
{
    (status & ATA_SR_BSY) != 0
}

/// What the status register says once the drive is no longer busy, when the
/// driver checks it closely: 2 for an error, 1 for a device fault, 3 where no
/// data is requested, 0 where all is well.
pub open spec fn spec_poll_verdict(status: u8) -> u8 {
    if status & ATA_SR_ERR != 0 {
        2
    } else if status & ATA_SR_DF != 0 {
        1
    } else if status & ATA_SR_DRQ == 0 {
        3
    } else {
        0
    }
}

/// The close check of the status register after polling.
pub fn poll_verdict(status: u8) -> (r: u8)
    ensures
        r == spec_poll_verdict(status),
{
    if (status & ATA_SR_ERR) != 0 {
        return 2;
    }
    if (status & ATA_SR_DF) != 0 {
        return 1;
    }
    if (status & ATA_SR_DRQ) == 0 {
        return 3;
    }
    0
}

/// The error code for the error register: the last of the checks below that
/// matches wins, in the order address mark, track 0, abort, media change
/// request, ID mark, media changed, uncorrectable, bad block.
pub open spec fn spec_register_error(st: u8) -> u8 {
    if st & ATA_ER_BBK != 0 {
        13
    } else if st & ATA_ER_UNC != 0 {
        22
    } else if st & ATA_ER_MC != 0 {
        3
    } else if st & ATA_ER_IDNF != 0 {
        21
    } else if st & ATA_ER_MCR != 0 {
        3
    } else if st & ATA_ER_ABRT != 0 {
        20
    } else if st & ATA_ER_TK0NF != 0 {
        3
    } else if st & ATA_ER_AMNF != 0 {
        7
    } else {
        2
    }
}

/// The error code the driver reports for a polling result: 19 for a device
/// fault, the error register's code for an error, 23 where nothing was read,
/// 8 for write protection; other results pass through.
pub open spec fn spec_error_code(err: u8, error_register: u8) -> u8 {
    if err == 1 {
        19
    } else if err == 2 {
        spec_register_error(error_register)
    } else if err == 3 {
        23
    } else if err == 4 {
        8
    } else {
        err
    }
}

/// Turns a polling result (and, for result 2, the error register) into the
/// driver's error code.
pub fn ide_error_code(err: u8, error_register: u8) -> (r: u8)
    ensures
        r == spec_error_code(err, error_register),
{
    let mut code = err;
    if err == 1 {
        code = 19;
    } else if err == 2 {
        let st = error_register;
        if st & ATA_ER_AMNF != 0 {
            code = 7;
        }
        if st & ATA_ER_TK0NF != 0 {
            code = 3;
        }
        if st & ATA_ER_ABRT != 0 {
            code = 20;
        }
        if st & ATA_ER_MCR != 0 {
            code = 3;
        }
        if st & ATA_ER_IDNF != 0 {
            code = 21;
        }
        if st & ATA_ER_MC != 0 {
            code = 3;
        }
        if st & ATA_ER_UNC != 0 {
            code = 22;
        }
        if st & ATA_ER_BBK != 0 {
            code = 13;
        }
    } else if err == 3 {
        code = 23;
    } else if err == 4 {
        code = 8;
    }
    code
}

/// The register writes that set up a PIO transfer, in the order the driver
/// makes them: with 48-bit addressing the drive select, the high-order
/// count and address bytes, then the low-order ones and the EXT command;
/// with 28-bit addressing the drive select carrying address bits 24-27, the
/// count, the low address bytes and the command.
pub open spec fn spec_transfer_registers(drive_bit: u8, lba: u64, sectors: usize, use_lba48: bool, is_write: bool) -> Seq<(u8, u8)> {
    if use_lba48 {
        seq![
            (ATA_REG_HDDEVSEL, 0x40u8 | (drive_bit << 4u8)),
            (ATA_REG_SECCOUNT1, ((sectors >> 8u8) & 0xFF) as u8),
            (ATA_REG_LBA3, ((lba >> 24u64) & 0xFF) as u8),
            (ATA_REG_LBA4, ((lba >> 32u64) & 0xFF) as u8),
            (ATA_REG_LBA5, ((lba >> 40u64) & 0xFF) as u8),
            (ATA_REG_SECCOUNT0, (sectors & 0xFF) as u8),
            (ATA_REG_LBA0, (lba & 0xFF) as u8),
            (ATA_REG_LBA1, ((lba >> 8u64) & 0xFF) as u8),
            (ATA_REG_LBA2, ((lba >> 16u64) & 0xFF) as u8),
            (ATA_REG_COMMAND, if is_write { ATA_CMD_WRITE_PIO_EXT } else { ATA_CMD_READ_PIO_EXT }),
        ]
    } else {
        seq![
            (ATA_REG_HDDEVSEL, 0xE0u8 | (drive_bit << 4u8) | (((lba >> 24u64) & 0x0F) as u8)),
            (ATA_REG_SECCOUNT0, sectors as u8),
            (ATA_REG_LBA0, (lba & 0xFF) as u8),
            (ATA_REG_LBA1, ((lba >> 8u64) & 0xFF) as u8),
            (ATA_REG_LBA2, ((lba >> 16u64) & 0xFF) as u8),
            (ATA_REG_COMMAND, if is_write { ATA_CMD_WRITE_PIO } else { ATA_CMD_READ_PIO }),
        ]
    }
}

/// The register writes, as (register, value) pairs in order, that set up a
/// PIO read or write of `sectors` sectors at `lba`.
pub fn ide_configure_transfer(drive_bit: u8, lba: u64, sectors: usize, use_lba48: bool, is_write: bool) -> (r: Vec<(u8, u8)>)
    ensures
        r@ == spec_transfer_registers(drive_bit, lba, sectors, use_lba48, is_write),
{
    let mut w: Vec<(u8, u8)> = Vec::new();
    if use_lba48 {
        w.push((ATA_REG_HDDEVSEL, 0x40 | (drive_bit << 4)));
        w.push((ATA_REG_SECCOUNT1, ((sectors >> 8) & 0xFF) as u8));
        w.push((ATA_REG_LBA3, ((lba >> 24) & 0xFF) as u8));
        w.push((ATA_REG_LBA4, ((lba >> 32) & 0xFF) as u8));
        w.push((ATA_REG_LBA5, ((lba >> 40) & 0xFF) as u8));
        w.push((ATA_REG_SECCOUNT0, (sectors & 0xFF) as u8));
        w.push((ATA_REG_LBA0, (lba & 0xFF) as u8));
        w.push((ATA_REG_LBA1, ((lba >> 8) & 0xFF) as u8));
        w.push((ATA_REG_LBA2, ((lba >> 16) & 0xFF) as u8));
        w.push((ATA_REG_COMMAND, if is_write { ATA_CMD_WRITE_PIO_EXT } else { ATA_CMD_READ_PIO_EXT }));
    } else {
        w.push((ATA_REG_HDDEVSEL, 0xE0 | (drive_bit << 4) | (((lba >> 24) & 0x0F) as u8)));
        w.push((ATA_REG_SECCOUNT0, sectors as u8));
        w.push((ATA_REG_LBA0, (lba & 0xFF) as u8));
        w.push((ATA_REG_LBA1, ((lba >> 8) & 0xFF) as u8));
        w.push((ATA_REG_LBA2, ((lba >> 16) & 0xFF) as u8));
        w.push((ATA_REG_COMMAND, if is_write { ATA_CMD_WRITE_PIO } else { ATA_CMD_READ_PIO }));
    }
    assert(w@ =~= spec_transfer_registers(drive_bit, lba, sectors, use_lba48, is_write));
    w
}

/// A 28-bit transfer puts the whole address of a sector below 2^28 into its
/// registers: the three address bytes and the low nibble of the drive select
/// give it back.
pub proof fn law_lba28_registers(drive_bit: u8, lba: u64, sectors: usize, is_write: bool)
    requires
        lba < 0x1000_0000,
    ensures
        ({
            let regs = spec_transfer_registers(drive_bit, lba, sectors, false, is_write);
            regs[2].1 as u64 | (regs[3].1 as u64) << 8u64 | (regs[4].1 as u64) << 16u64 | ((regs[0].1 & 0x0F) as u64)
                << 24u64 == lba
        }),
{
    let regs = spec_transfer_registers(drive_bit, lba, sectors, false, false);
    let b0 = (lba & 0xFF) as u8;
    let b1 = ((lba >> 8u64) & 0xFF) as u8;
    let b2 = ((lba >> 16u64) & 0xFF) as u8;
    let sel = 0xE0u8 | (drive_bit << 4u8) | (((lba >> 24u64) & 0x0F) as u8);
    assert(b0 as u64 | (b1 as u64) << 8u64 | (b2 as u64) << 16u64 | ((sel & 0x0F) as u64) << 24u64 == lba)
        by (bit_vector)
        requires
            lba < 0x1000_0000,
            b0 == (lba & 0xFF) as u8,
            b1 == ((lba >> 8u64) & 0xFF) as u8,
            b2 == ((lba >> 16u64) & 0xFF) as u8,
            sel == 0xE0u8 | (drive_bit << 4u8) | (((lba >> 24u64) & 0x0F) as u8);
}

/// A 48-bit transfer puts the whole address of a sector below 2^48 into its
/// six address registers, and a count below 2^16 into its two count
/// registers.
pub proof fn law_lba48_registers(drive_bit: u8, lba: u64, sectors: usize, is_write: bool)
    requires
        lba < 0x1_0000_0000_0000,
        sectors < 0x1_0000,
    ensures
        ({
            let regs = spec_transfer_registers(drive_bit, lba, sectors, true, is_write);
            &&& regs[6].1 as u64 | (regs[7].1 as u64) << 8u64 | (regs[8].1 as u64) << 16u64 | (regs[2].1 as u64) << 24u64
                | (regs[3].1 as u64) << 32u64 | (regs[4].1 as u64) << 40u64 == lba
            &&& regs[5].1 as usize | (regs[1].1 as usize) << 8usize == sectors
        }),
{
    let l0 = (lba & 0xFF) as u8;
    let l1 = ((lba >> 8u64) & 0xFF) as u8;
    let l2 = ((lba >> 16u64) & 0xFF) as u8;
    let l3 = ((lba >> 24u64) & 0xFF) as u8;
    let l4 = ((lba >> 32u64) & 0xFF) as u8;
    let l5 = ((lba >> 40u64) & 0xFF) as u8;
    assert(l0 as u64 | (l1 as u64) << 8u64 | (l2 as u64) << 16u64 | (l3 as u64) << 24u64 | (l4 as u64) << 32u64
        | (l5 as u64) << 40u64 == lba) by (bit_vector)
        requires
            lba < 0x1_0000_0000_0000,
            l0 == (lba & 0xFF) as u8,
            l1 == ((lba >> 8u64) & 0xFF) as u8,
            l2 == ((lba >> 16u64) & 0xFF) as u8,
            l3 == ((lba >> 24u64) & 0xFF) as u8,
            l4 == ((lba >> 32u64) & 0xFF) as u8,
            l5 == ((lba >> 40u64) & 0xFF) as u8;
    let c0 = (sectors & 0xFF) as u8;
    let c1 = ((sectors >> 8u8) & 0xFF) as u8;
    assert(c0 as usize | (c1 as usize) << 8usize == sectors) by (bit_vector)
        requires
            sectors < 0x1_0000,
            c0 == (sectors & 0xFF) as u8,
            c1 == ((sectors >> 8u8) & 0xFF) as u8;
}

/// Sectors a read into a buffer of `len` bytes moves: whole sectors only.
pub fn read_sector_count(len: usize) -> (r: usize)
    ensures
        r == len / IDE_SECTOR_SIZE,
{
    len / IDE_SECTOR_SIZE
}

/// Sectors a write of `len` bytes takes: the last one padded.
pub fn write_sector_count(len: usize) -> (r: usize)
    requires
        len + 511 <= usize::MAX,
    ensures
        r == (len + 511) / (IDE_SECTOR_SIZE as int),
{
    (len + (IDE_SECTOR_SIZE - 1)) / IDE_SECTOR_SIZE
}

/// The next command of a transfer of `total` sectors from `lba` of which
/// `done` have moved: at most 128 sectors, with 48-bit addressing where the
/// address reaches 2^28 or the count exceeds 256.
pub open spec fn spec_transfer_chunk(lba: u64, total: usize, done: usize) -> TransferChunk {
    let n = if (total - done) < MAX_SECTORS_PER_TRANSFER { (total - done) as usize } else { MAX_SECTORS_PER_TRANSFER };
    let cur = (lba + done) as u64;
    TransferChunk { lba: cur, sectors: n, lba48: cur >= 0x1000_0000 || n > 256 }
}

/// The next command of a transfer.
pub fn transfer_chunk(lba: u64, total: usize, done: usize) -> (c: TransferChunk)
    requires
        done < total,
        lba + total <= u64::MAX,
    ensures
        c == spec_transfer_chunk(lba, total, done),
        1 <= c.sectors <= MAX_SECTORS_PER_TRANSFER,
        done + c.sectors <= total,
{
    let left = total - done;
    let n = if left < MAX_SECTORS_PER_TRANSFER { left } else { MAX_SECTORS_PER_TRANSFER };
    let cur = lba + done as u64;
    TransferChunk { lba: cur, sectors: n, lba48: cur >= 0x1000_0000 || n > 256 }
}

/// The 512 bytes written for the sector at byte `offset` of the data: the
/// data's bytes from there, zero-padded where the data ends.
pub open spec fn spec_sector_payload(data: Seq<u8>, offset: int) -> Seq<u8> {
    Seq::new(512, |j: int| if offset + j < data.len() { data[offset + j] } else { 0u8 })
}

/// The bytes written for one sector of a write.
pub fn sector_payload(data: &[u8], offset: usize) -> (r: Vec<u8>)
    requires
        offset <= data@.len(),
    ensures
        r@ == spec_sector_payload(data@, offset as int),
{
    let len = data.len();
    let bytes_left = len - offset;
    let n = if bytes_left < IDE_SECTOR_SIZE { bytes_left } else { IDE_SECTOR_SIZE };
    let mut out: Vec<u8> = Vec::new();
    let mut j: usize = 0;
    while j < IDE_SECTOR_SIZE
        invariant
            j <= 512,
            n <= 512,
            n == if len - offset < 512 { len - offset } else { 512 },
            offset <= len == data@.len(),
            out@.len() == j,
            forall|k: int| 0 <= k < j ==> #[trigger] out@[k] == if offset + k < data@.len() { data@[offset + k] } else { 0u8 },
        decreases 512 - j,
    {
        if j < n {
            out.push(data[offset + j]);
        } else {
            out.push(0u8);
        }
        j = j + 1;
    }
    assert(out@ =~= spec_sector_payload(data@, offset as int));
    out
}

/// What the status register says during the IDENTIFY handshake: zero means
/// no drive, the error bit a refusal, not busy with data requested means the
/// data is there.
pub open spec fn spec_identify_probe(status: u8) -> IdentifyProbe {
    if status == 0 {
        IdentifyProbe::Absent
    } else if status & ATA_SR_ERR != 0 {
        IdentifyProbe::Absent
    } else if status & ATA_SR_BSY == 0 && status & ATA_SR_DRQ != 0 {
        IdentifyProbe::Ready
    } else {
        IdentifyProbe::Wait
    }
}

/// Reads the status register's answer to IDENTIFY.
pub fn identify_probe(status: u8) -> (r: IdentifyProbe)
    ensures
        r == spec_identify_probe(status),
{
    if status == 0 {
        return IdentifyProbe::Absent;
    }
    if (status & ATA_SR_ERR) != 0 {
        return IdentifyProbe::Absent;
    }
    if (status & ATA_SR_BSY) == 0 && (status & ATA_SR_DRQ) != 0 {
        return IdentifyProbe::Ready;
    }
    IdentifyProbe::Wait
}

/// The little-endian value of six bytes.
pub open spec fn le48(b: Seq<u8>, off: int) -> int {
    b[off] + b[off + 1] * 0x100 + b[off + 2] * 0x10000 + b[off + 3] * 0x1000000 + b[off + 4] * 0x100000000
        + b[off + 5] * 0x10000000000
}

/// The little-endian value of four bytes.
pub open spec fn le32_value(b: Seq<u8>, off: int) -> int {
    b[off] + b[off + 1] * 0x100 + b[off + 2] * 0x10000 + b[off + 3] * 0x1000000
}

/// What 512 bytes of IDENTIFY data say: the model is the 40 bytes from 54
/// with a zero after them; the command sets are the word at 164; bit 10 of
/// it marks 48-bit addressing, and then the size is the six bytes at 200,
/// else the four bytes at 120.
pub open spec fn identify_says(buf: Seq<u8>, id: IdentifyData) -> bool {
    &&& id.model@ == buf.subrange(54, 94).push(0u8)
    &&& le16_bytes(id.command_sets) == buf.subrange(164, 166)
    &&& id.lba48 == (id.command_sets & 0x400 != 0)
    &&& id.size == if id.lba48 { le48(buf, 200) } else { le32_value(buf, 120) }
}

/// Reads the IDENTIFY data of a drive.
pub fn parse_identify(buf: &[u8]) -> (id: IdentifyData)
    requires
        buf@.len() == IDE_SECTOR_SIZE,
    ensures
        identify_says(buf@, id),
{
    let mut model: [u8; 41] = [0u8; 41];
    let mut m: usize = 0;
    while m < 40
        invariant
            m <= 40,
            buf@.len() == 512,
            model@[40] == 0u8,
            forall|k: int| 0 <= k < m ==> #[trigger] model@[k] == buf@[54 + k],
        decreases 40 - m,
    {
        model[m] = buf[ATA_IDENT_MODEL + m];
        m = m + 1;
    }
    assert(model@ =~= buf@.subrange(54, 94).push(0u8));
    let command_sets = read_le16(buf, ATA_IDENT_COMMANDSETS);
    let lba48 = (command_sets & (1 << 10)) != 0;
    assert((1u16 << 10u16) == 0x400u16) by (bit_vector);
    let size = if lba48 {
        let b = ATA_IDENT_MAX_LBA_EXT;
        (buf[b] as u64) + (buf[b + 1] as u64) * 0x100 + (buf[b + 2] as u64) * 0x10000 + (buf[b + 3] as u64) * 0x1000000
            + (buf[b + 4] as u64) * 0x100000000 + (buf[b + 5] as u64) * 0x10000000000
    } else {
        let b = ATA_IDENT_MAX_LBA;
        (buf[b] as u64) + (buf[b + 1] as u64) * 0x100 + (buf[b + 2] as u64) * 0x10000 + (buf[b + 3] as u64) * 0x1000000
    };
    IdentifyData { model, command_sets, lba48, size }
}

/// The I/O ports of a channel from its two base address registers: the low
/// two bits dropped, and the legacy ports (0x1F0/0x3F6 where the bus-master
/// base is zero, 0x170/0x376 otherwise) where a register reads zero.
pub open spec fn spec_channel(bar_base: u8, bar_ctrl: u8, bmide: u16) -> IDEChannelRegisters {
    IDEChannelRegisters {
        base: ((bar_base & 0xFC) + if bar_base == 0 { if bmide == 0 { 0x1F0int } else { 0x170int } } else { 0int }) as u16,
        ctrl: ((bar_ctrl & 0xFC) + if bar_ctrl == 0 { if bmide == 0 { 0x3F6int } else { 0x376int } } else { 0int }) as u16,
        bmide,
        nien: 0,
    }
}

/// The ports of one channel.
pub fn ide_init_channel(bar_base: u8, bar_ctrl: u8, bmide: u16) -> (ch: IDEChannelRegisters)
    ensures
        ch == spec_channel(bar_base, bar_ctrl, bmide),
        bmide + 7 <= u16::MAX ==> ch.addressable(),
{
    assert(((bar_base as u32) & 0xFFFF_FFFC) == (bar_base & 0xFC) as u32 && (bar_base & 0xFC) <= 0xFC) by (bit_vector);
    assert(((bar_ctrl as u32) & 0xFFFF_FFFC) == (bar_ctrl & 0xFC) as u32 && (bar_ctrl & 0xFC) <= 0xFC) by (bit_vector);
    let base_extra: u32 = if bar_base == 0 { if bmide == 0 { 0x1F0 } else { 0x170 } } else { 0 };
    let ctrl_extra: u32 = if bar_ctrl == 0 { if bmide == 0 { 0x3F6 } else { 0x376 } } else { 0 };
    let base = (((bar_base as u32) & 0xFFFF_FFFC) + base_extra) as u16;
    let ctrl = (((bar_ctrl as u32) & 0xFFFF_FFFC) + ctrl_extra) as u16;
    IDEChannelRegisters { base, ctrl, bmide, nien: 0 }
}

/// The bus-master base of the primary channel: the fifth base address
/// register with its low two bits dropped; the secondary's is 8 above.
pub open spec fn spec_bus_master(bar4: u8) -> u16 {
    (bar4 & 0xFC) as u16
}

/// The ports of both channels from the controller's five base address
/// registers.
pub fn ide_channels(bar0: u8, bar1: u8, bar2: u8, bar3: u8, bar4: u8) -> (r: (IDEChannelRegisters, IDEChannelRegisters))
    ensures
        r.0 == spec_channel(bar0, bar1, spec_bus_master(bar4)),
        r.1 == spec_channel(bar2, bar3, (spec_bus_master(bar4) + 8) as u16),
        r.0.addressable(),
        r.1.addressable(),
{
    assert(((bar4 as u32) & 0xFFFF_FFFC) == (bar4 & 0xFC) as u32 && (bar4 & 0xFC) <= 0xFC) by (bit_vector);
    let bm = ((bar4 as u32) & 0xFFFF_FFFC) as u16;
    let primary = ide_init_channel(bar0, bar1, bm);
    let secondary = ide_init_channel(bar2, bar3, bm.wrapping_add(8));
    (primary, secondary)
}

impl IdeDevice {
    /// A device slot that was never probed: every field zero.
    pub open spec fn blank(self) -> bool {
        &&& self.reserved == 0 && self.channel == 0 && self.drive == 0 && self.device_type == 0
        &&& self.signature == 0 && self.capabilities == 0 && self.command_sets == 0 && self.size == 0
        &&& forall|k: int| 0 <= k < 41 ==> #[trigger] self.model@[k] == 0u8
    }

    /// Marks the slot as probing `drive` of `channel`, not present yet; the
    /// other fields are kept.
    pub fn begin_probe(&mut self, channel: u8, drive: u8)
        ensures
            final(self).reserved == 0,
            final(self).channel == channel,
            final(self).drive == drive,
            final(self).device_type == old(self).device_type,
            final(self).size == old(self).size,
            final(self).model == old(self).model,
            final(self).signature == old(self).signature,
            final(self).capabilities == old(self).capabilities,
            final(self).command_sets == old(self).command_sets,
    {
        self.reserved = 0;
        self.channel = channel;
        self.drive = drive;
    }

    /// Records a drive that answered IDENTIFY: present, an ATA drive, with
    /// the model and size the data gives; the other fields are kept.
    pub fn record_identify(&mut self, id: &IdentifyData)
        ensures
            final(self).reserved == 1,
            final(self).device_type == IDE_ATA as u16,
            final(self).model == id.model,
            final(self).size == id.size,
            final(self).channel == old(self).channel,
            final(self).drive == old(self).drive,
            final(self).signature == old(self).signature,
            final(self).capabilities == old(self).capabilities,
            final(self).command_sets == old(self).command_sets,
    {
        self.model = id.model;
        self.reserved = 1;
        self.device_type = IDE_ATA as u16;
        self.size = id.size;
    }

    /// The device is present.
    pub fn is_present(&self) -> (r: bool)
        ensures
            r == (self.reserved != 0),
    {
        self.reserved != 0
    }
}

impl Default for IdeDevice {
    fn default() -> (d: Self)
        ensures
            d.blank(),
    {
        IdeDevice {
            reserved: 0,
            channel: 0,
            drive: 0,
            device_type: 0,
            signature: 0,
            capabilities: 0,
            command_sets: 0,
            size: 0,
            model: [0u8; 41],
        }
    }
}

impl Default for IDEChannelRegisters {
    fn default() -> (r: Self)
        ensures
            r.base == 0 && r.ctrl == 0 && r.bmide == 0 && r.nien == 0,
    {
        IDEChannelRegisters { base: 0, ctrl: 0, bmide: 0, nien: 0 }
    }
}

} // verus!
