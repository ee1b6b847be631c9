//! The PIO protocol of the IDE driver as step functions: each step takes
//! the value the last register read gave and says what to do next. The caller
//! carries the actions out on the controller's ports and feeds the answers
//! back, until a step says the operation is finished.
use vstd::prelude::*;
use crate::ide::{spec_transfer_registers, ide_configure_transfer, spec_poll_verdict, poll_verdict, spec_error_code,
    ide_error_code, spec_identify_probe, identify_probe, IdentifyProbe, ATA_SR_BSY, ATA_REG_STATUS, ATA_REG_ALTSTATUS,
    ATA_REG_ERROR, ATA_REG_COMMAND, ATA_REG_HDDEVSEL, ATA_CMD_CACHE_FLUSH, ATA_CMD_IDENTIFY, MAX_SECTORS_PER_TRANSFER,
    ATA_REG_LBA0, ATA_REG_LBA1, ATA_REG_LBA2, ATA_REG_LBA3, ATA_REG_LBA4, ATA_REG_LBA5, ATA_REG_SECCOUNT0,
    ATA_REG_SECCOUNT1, ATA_CMD_READ_PIO, ATA_CMD_WRITE_PIO, ATA_CMD_READ_PIO_EXT, ATA_CMD_WRITE_PIO_EXT};

verus! {

/// How many times polling reads the status register before it gives up.
pub const POLL_TIMEOUT: u32 = 100000;

/// What the driver does next on the controller.
#[derive(Clone, Copy, Debug, PartialEq, Eq, Structural)]
pub enum IdeAction {
    /// Read a register of the channel; its value is the next step's input.
    ReadRegister { reg: u8 },
    /// Write a value to a register of the channel.
    WriteRegister { reg: u8, value: u8 },
    /// Read one sector of data from the data port into the buffer at `offset`.
    ReadSector { offset: usize },
    /// Write one sector, the data's bytes from `offset` zero-padded to 512
    /// (see `sector_payload`), to the data port.
    WriteSector { offset: usize },
    /// The operation is over, with this result code (0 for success).
    Finish { code: u8 },
}

/// Where a transfer stands.
#[derive(Clone, Copy, Debug, PartialEq, Eq, Structural)]
pub enum TransferStep {
    /// Waiting for the drive to stop being busy before a command.
    WaitIdle,
    /// Writing the command's registers; the next one to write.
    Configure { next: usize },
    /// Reading the alternate status register four times; how many so far.
    PollAlt { reads: u8 },
    /// Waiting for the drive to stop being busy; reads left.
    PollBusy { left: u32 },
    /// Reading the status register once more for the close check.
    PollCheck,
    /// Reading the error register after an error.
    ErrorRegister,
    /// A sector of data was moved.
    Data,
    /// The cache flush command was written.
    Flush,
    /// Polling after the flush: alternate status reads so far.
    FlushAlt { reads: u8 },
    /// Polling after the flush: reads left.
    FlushBusy { left: u32 },
    /// Done.
    Finished,
}

/// A read or write of consecutive sectors in PIO mode: `total` sectors from
/// `lba`, moved in commands of at most 128 sectors. `done` sectors were moved
/// by earlier commands; the current command moves `chunk` sectors, of which
/// `sector` are done.
#[derive(Clone, Copy, Debug)]
pub struct IdeTransfer {
    pub is_write: bool,
    pub drive_bit: u8,
    pub lba: u64,
    pub total: usize,
    pub done: usize,
    pub chunk: usize,
    pub sector: usize,
    pub step: TransferStep,
    pub code: u8,
}

/// The size of the next command when `done` of `total` sectors are moved.
pub open spec fn chunk_after(total: usize, done: usize) -> usize {
    if total - done < MAX_SECTORS_PER_TRANSFER { (total - done) as usize } else { MAX_SECTORS_PER_TRANSFER }
}

/// Where the last command of a transfer of `total` sectors starts, counted
/// from its first sector: commands cover up to 128 sectors each.
pub open spec fn last_command_start(total: int) -> int {
    ((total - 1) / MAX_SECTORS_PER_TRANSFER as int) * MAX_SECTORS_PER_TRANSFER
}

/// A command at `lba` of `n` sectors needs 48-bit addressing.
pub open spec fn needs_lba48(lba: int, n: usize) -> bool {
    lba >= 0x1000_0000 || n > 256
}

impl IdeTransfer {
    /// The counters agree: the current command lies inside the transfer and
    /// its sector count stays within a command's limit.
    pub open spec fn wf(self) -> bool {
        &&& self.total == 0 || self.lba + last_command_start(self.total as int) <= u64::MAX
        &&& self.total * 512 <= usize::MAX
        &&& self.done <= self.total
        &&& self.step != TransferStep::Finished ==> {
            &&& 1 <= self.chunk <= MAX_SECTORS_PER_TRANSFER
            &&& self.done + self.chunk <= self.total
            &&& self.sector < self.chunk
            &&& self.chunk == chunk_after(self.total, self.done)
            &&& self.done % MAX_SECTORS_PER_TRANSFER == 0
        }
        &&& self.step matches TransferStep::Configure { next } ==> next <= self.registers().len()
        &&& self.step matches TransferStep::PollAlt { reads } ==> 1 <= reads <= 4
        &&& self.step matches TransferStep::FlushAlt { reads } ==> 1 <= reads <= 4
        &&& self.step matches TransferStep::PollBusy { left } ==> 1 <= left <= POLL_TIMEOUT
        &&& self.step matches TransferStep::FlushBusy { left } ==> 1 <= left <= POLL_TIMEOUT
        &&& (self.step == TransferStep::Flush || self.step matches TransferStep::FlushAlt { .. }
            || self.step matches TransferStep::FlushBusy { .. }) ==> self.is_write
    }

    /// The registers the current command writes, in order.
    pub open spec fn registers(self) -> Seq<(u8, u8)> {
        let cur = self.lba + self.done;
        spec_transfer_registers(self.drive_bit, cur as u64, self.chunk, needs_lba48(cur, self.chunk), self.is_write)
    }

    /// Byte offset of the sector being moved.
    pub open spec fn offset(self) -> int {
        (self.done + self.sector) * 512
    }

    /// The state and first action of a transfer of the sectors a buffer of
    /// `len` bytes covers (whole sectors for a read, the last one padded for
    /// a write) at `lba`: result 1 at once where the drive is not present,
    /// success at once where there is nothing to move, else a status read to
    /// wait for the drive.
    pub open spec fn spec_start(present: bool, drive_bit: u8, lba: u64, len: usize, is_write: bool) -> (IdeTransfer, IdeAction) {
        let total = transfer_sectors(len as int, is_write) as usize;
        let base = IdeTransfer {
            is_write,
            drive_bit,
            lba,
            total,
            done: 0,
            chunk: chunk_after(total, 0),
            sector: 0,
            step: TransferStep::WaitIdle,
            code: 0,
        };
        if !present {
            (IdeTransfer { total: 0, chunk: 0, step: TransferStep::Finished, code: 1, ..base }, IdeAction::Finish { code: 1 })
        } else if total == 0 {
            (IdeTransfer { step: TransferStep::Finished, code: 0, ..base }, IdeAction::Finish { code: 0 })
        } else {
            (base, IdeAction::ReadRegister { reg: ATA_REG_STATUS })
        }
    }

    /// The state after a sector's data moved and polling (where there is one)
    /// found nothing wrong: the next sector of the command, the next command,
    /// or the end.
    pub open spec fn spec_advance(self) -> (IdeTransfer, IdeAction) {
        if self.sector + 1 < self.chunk {
            (IdeTransfer { sector: (self.sector + 1) as usize, step: TransferStep::PollAlt { reads: 1 }, ..self },
                IdeAction::ReadRegister { reg: ATA_REG_ALTSTATUS })
        } else {
            let done = (self.done + self.chunk) as usize;
            if done < self.total {
                (IdeTransfer { done, chunk: chunk_after(self.total, done), sector: 0, step: TransferStep::WaitIdle, ..self },
                    IdeAction::ReadRegister { reg: ATA_REG_STATUS })
            } else {
                (IdeTransfer { done, step: TransferStep::Finished, code: 0, ..self }, IdeAction::Finish { code: 0 })
            }
        }
    }

    /// Ends the transfer with an error code.
    pub open spec fn spec_fail(self, code: u8) -> (IdeTransfer, IdeAction) {
        (IdeTransfer { step: TransferStep::Finished, code, ..self }, IdeAction::Finish { code })
    }

    /// One step of the transfer, given the value the last register read gave
    /// (ignored after other actions).
    pub open spec fn spec_next(self, value: u8) -> (IdeTransfer, IdeAction) {
        match self.step {
            TransferStep::WaitIdle => if value & ATA_SR_BSY != 0 {
                (self, IdeAction::ReadRegister { reg: ATA_REG_STATUS })
            } else {
                let (reg, v) = self.registers()[0];
                (IdeTransfer { step: TransferStep::Configure { next: 1 }, ..self }, IdeAction::WriteRegister { reg, value: v })
            },
            TransferStep::Configure { next } => if next < self.registers().len() {
                let (reg, v) = self.registers()[next as int];
                (IdeTransfer { step: TransferStep::Configure { next: (next + 1) as usize }, ..self },
                    IdeAction::WriteRegister { reg, value: v })
            } else {
                (IdeTransfer { step: TransferStep::PollAlt { reads: 1 }, ..self }, IdeAction::ReadRegister { reg: ATA_REG_ALTSTATUS })
            },
            TransferStep::PollAlt { reads } => if reads < 4 {
                (IdeTransfer { step: TransferStep::PollAlt { reads: (reads + 1) as u8 }, ..self },
                    IdeAction::ReadRegister { reg: ATA_REG_ALTSTATUS })
            } else {
                (IdeTransfer { step: TransferStep::PollBusy { left: POLL_TIMEOUT }, ..self },
                    IdeAction::ReadRegister { reg: ATA_REG_STATUS })
            },
            TransferStep::PollBusy { left } => if value & ATA_SR_BSY == 0 {
                (IdeTransfer { step: TransferStep::PollCheck, ..self }, IdeAction::ReadRegister { reg: ATA_REG_STATUS })
            } else if left <= 1 {
                self.spec_fail(spec_error_code(3, 0))
            } else {
                (IdeTransfer { step: TransferStep::PollBusy { left: (left - 1) as u32 }, ..self },
                    IdeAction::ReadRegister { reg: ATA_REG_STATUS })
            },
            TransferStep::PollCheck => {
                let verdict = spec_poll_verdict(value);
                if verdict == 0 {
                    let offset = ((self.done + self.sector) * 512) as usize;
                    (IdeTransfer { step: TransferStep::Data, ..self }, if self.is_write {
                        IdeAction::WriteSector { offset }
                    } else {
                        IdeAction::ReadSector { offset }
                    })
                } else if verdict == 2 {
                    (IdeTransfer { step: TransferStep::ErrorRegister, ..self }, IdeAction::ReadRegister { reg: ATA_REG_ERROR })
                } else {
                    self.spec_fail(spec_error_code(verdict, 0))
                }
            },
            TransferStep::ErrorRegister => self.spec_fail(spec_error_code(2, value)),
            TransferStep::Data => if self.is_write {
                (IdeTransfer { step: TransferStep::Flush, ..self },
                    IdeAction::WriteRegister { reg: ATA_REG_COMMAND, value: ATA_CMD_CACHE_FLUSH })
            } else {
                self.spec_advance()
            },
            TransferStep::Flush => (IdeTransfer { step: TransferStep::FlushAlt { reads: 1 }, ..self },
                IdeAction::ReadRegister { reg: ATA_REG_ALTSTATUS }),
            TransferStep::FlushAlt { reads } => if reads < 4 {
                (IdeTransfer { step: TransferStep::FlushAlt { reads: (reads + 1) as u8 }, ..self },
                    IdeAction::ReadRegister { reg: ATA_REG_ALTSTATUS })
            } else {
                (IdeTransfer { step: TransferStep::FlushBusy { left: POLL_TIMEOUT }, ..self },
                    IdeAction::ReadRegister { reg: ATA_REG_STATUS })
            },
            TransferStep::FlushBusy { left } => if value & ATA_SR_BSY == 0 {
                self.spec_advance()
            } else if left <= 1 {
                self.spec_fail(spec_error_code(3, 0))
            } else {
                (IdeTransfer { step: TransferStep::FlushBusy { left: (left - 1) as u32 }, ..self },
                    IdeAction::ReadRegister { reg: ATA_REG_STATUS })
            },
            TransferStep::Finished => (self, IdeAction::Finish { code: self.code }),
        }
    }

    /// Starts a transfer; on an absent drive it ends at once with code 1.
    pub fn start(present: bool, drive_bit: u8, lba: u64, len: usize, is_write: bool) -> (r: (IdeTransfer, IdeAction))
        requires
            present && is_write ==> len + 511 <= usize::MAX,
            present ==> transfer_sectors(len as int, is_write) == 0
                || lba + last_command_start(transfer_sectors(len as int, is_write)) <= u64::MAX,
        ensures
            r == Self::spec_start(present, drive_bit, lba, len, is_write),
            r.0.wf(),
    {
        if !present {
            return (IdeTransfer { is_write, drive_bit, lba, total: 0, done: 0, chunk: 0, sector: 0, step: TransferStep::Finished,
                code: 1 }, IdeAction::Finish { code: 1 });
        }
        let total = if is_write { (len + 511) / 512 } else { len / 512 };
        let chunk = if total < MAX_SECTORS_PER_TRANSFER { total } else { MAX_SECTORS_PER_TRANSFER };
        let base = IdeTransfer { is_write, drive_bit, lba, total, done: 0, chunk, sector: 0, step: TransferStep::WaitIdle, code: 0 };
        assert(total * 512 <= len + 511) by (nonlinear_arith)
            requires total == (len + 511) / 512 || total == len / 512;
        if total == 0 {
            (IdeTransfer { step: TransferStep::Finished, code: 0, ..base }, IdeAction::Finish { code: 0 })
        } else {
            (base, IdeAction::ReadRegister { reg: ATA_REG_STATUS })
        }
    }

    fn register_at(&self, k: usize) -> (r: (u8, u8))
        requires
            self.wf(),
            self.step != TransferStep::Finished,
            k < self.registers().len(),
        ensures
            r == self.registers()[k as int],
    {
        let cur = self.lba + self.done as u64;
        let lba48 = cur >= 0x1000_0000 || self.chunk > 256;
        let regs = ide_configure_transfer(self.drive_bit, cur, self.chunk, lba48, self.is_write);
        regs[k]
    }

    fn register_count(&self) -> (r: usize)
        requires
            self.wf(),
            self.step != TransferStep::Finished,
        ensures
            r == self.registers().len(),
    {
        let cur = self.lba + self.done as u64;
        if cur >= 0x1000_0000 || self.chunk > 256 { 10 } else { 6 }
    }

    fn advance(&mut self) -> (a: IdeAction)
        requires
            old(self).wf(),
            old(self).step != TransferStep::Finished,
        ensures
            (*final(self), a) == old(self).spec_advance(),
    {
        if self.sector + 1 < self.chunk {
            self.sector = self.sector + 1;
            self.step = TransferStep::PollAlt { reads: 1 };
            IdeAction::ReadRegister { reg: ATA_REG_ALTSTATUS }
        } else {
            let done = self.done + self.chunk;
            if done < self.total {
                self.done = done;
                self.chunk = if self.total - done < MAX_SECTORS_PER_TRANSFER { self.total - done } else { MAX_SECTORS_PER_TRANSFER };
                self.sector = 0;
                self.step = TransferStep::WaitIdle;
                IdeAction::ReadRegister { reg: ATA_REG_STATUS }
            } else {
                self.done = done;
                self.step = TransferStep::Finished;
                self.code = 0;
                IdeAction::Finish { code: 0 }
            }
        }
    }

    fn fail(&mut self, code: u8) -> (a: IdeAction)
        ensures
            (*final(self), a) == old(self).spec_fail(code),
    {
        self.step = TransferStep::Finished;
        self.code = code;
        IdeAction::Finish { code }
    }

    /// One step of the transfer, given the value the last register read gave.
    pub fn next(&mut self, value: u8) -> (a: IdeAction)
        requires
            old(self).wf(),
        ensures
            (*final(self), a) == old(self).spec_next(value),
            final(self).wf(),
    {
        proof {
            lemma_next_wf(*self, value);
        }
        match self.step {
            TransferStep::WaitIdle => {
                if (value & ATA_SR_BSY) != 0 {
                    IdeAction::ReadRegister { reg: ATA_REG_STATUS }
                } else {
                    let (reg, v) = self.register_at(0);
                    self.step = TransferStep::Configure { next: 1 };
                    IdeAction::WriteRegister { reg, value: v }
                }
            },
            TransferStep::Configure { next } => {
                if next < self.register_count() {
                    let (reg, v) = self.register_at(next);
                    self.step = TransferStep::Configure { next: next + 1 };
                    IdeAction::WriteRegister { reg, value: v }
                } else {
                    self.step = TransferStep::PollAlt { reads: 1 };
                    IdeAction::ReadRegister { reg: ATA_REG_ALTSTATUS }
                }
            },
            TransferStep::PollAlt { reads } => {
                if reads < 4 {
                    self.step = TransferStep::PollAlt { reads: reads + 1 };
                    IdeAction::ReadRegister { reg: ATA_REG_ALTSTATUS }
                } else {
                    self.step = TransferStep::PollBusy { left: POLL_TIMEOUT };
                    IdeAction::ReadRegister { reg: ATA_REG_STATUS }
                }
            },
            TransferStep::PollBusy { left } => {
                if (value & ATA_SR_BSY) == 0 {
                    self.step = TransferStep::PollCheck;
                    IdeAction::ReadRegister { reg: ATA_REG_STATUS }
                } else if left <= 1 {
                    self.fail(ide_error_code(3, 0))
                } else {
                    self.step = TransferStep::PollBusy { left: left - 1 };
                    IdeAction::ReadRegister { reg: ATA_REG_STATUS }
                }
            },
            TransferStep::PollCheck => {
                let verdict = poll_verdict(value);
                if verdict == 0 {
                    assert((self.done + self.sector) * 512 <= self.total * 512) by (nonlinear_arith)
                        requires self.done + self.sector <= self.total;
                    let offset = (self.done + self.sector) * 512;
                    self.step = TransferStep::Data;
                    if self.is_write {
                        IdeAction::WriteSector { offset }
                    } else {
                        IdeAction::ReadSector { offset }
                    }
                } else if verdict == 2 {
                    self.step = TransferStep::ErrorRegister;
                    IdeAction::ReadRegister { reg: ATA_REG_ERROR }
                } else {
                    self.fail(ide_error_code(verdict, 0))
                }
            },
            TransferStep::ErrorRegister => self.fail(ide_error_code(2, value)),
            TransferStep::Data => {
                if self.is_write {
                    self.step = TransferStep::Flush;
                    IdeAction::WriteRegister { reg: ATA_REG_COMMAND, value: ATA_CMD_CACHE_FLUSH }
                } else {
                    self.advance()
                }
            },
            TransferStep::Flush => {
                self.step = TransferStep::FlushAlt { reads: 1 };
                IdeAction::ReadRegister { reg: ATA_REG_ALTSTATUS }
            },
            TransferStep::FlushAlt { reads } => {
                if reads < 4 {
                    self.step = TransferStep::FlushAlt { reads: reads + 1 };
                    IdeAction::ReadRegister { reg: ATA_REG_ALTSTATUS }
                } else {
                    self.step = TransferStep::FlushBusy { left: POLL_TIMEOUT };
                    IdeAction::ReadRegister { reg: ATA_REG_STATUS }
                }
            },
            TransferStep::FlushBusy { left } => {
                if (value & ATA_SR_BSY) == 0 {
                    self.advance()
                } else if left <= 1 {
                    self.fail(ide_error_code(3, 0))
                } else {
                    self.step = TransferStep::FlushBusy { left: left - 1 };
                    IdeAction::ReadRegister { reg: ATA_REG_STATUS }
                }
            },
            TransferStep::Finished => IdeAction::Finish { code: self.code },
        }
    }
}

proof fn lemma_next_wf(t: IdeTransfer, value: u8)
    requires
        t.wf(),
    ensures
        t.spec_next(value).0.wf(),
{
}

/// Every data action of a transfer is for the sector in hand, and lies inside
/// the transfer: the sectors a read covers fit in its buffer, and a write
/// starts inside its data.
pub proof fn law_transfer_data_in_bounds(t: IdeTransfer, value: u8)
    requires
        t.wf(),
    ensures
        t.spec_next(value).1 matches IdeAction::ReadSector { offset } ==> !t.is_write && offset == t.offset()
            && offset + 512 <= t.total * 512,
        t.spec_next(value).1 matches IdeAction::WriteSector { offset } ==> t.is_write && offset == t.offset()
            && offset + 512 <= t.total * 512,
{
    if t.step == TransferStep::PollCheck {
        assert((t.done + t.sector) * 512 + 512 <= t.total * 512) by (nonlinear_arith)
            requires t.done + t.sector < t.total;
    }
}

/// The action that ends an operation with success.
pub open spec fn success() -> IdeAction {
    IdeAction::Finish { code: 0 }
}

/// The action that ends a detection with a drive found.
pub open spec fn found() -> IdeAction {
    IdeAction::Finish { code: 1 }
}

/// Sectors of the current command already moved, none once finished.
pub open spec fn position_in_command(t: IdeTransfer) -> int {
    if t.step == TransferStep::Finished {
        0
    } else {
        t.sector as int
    }
}

/// Once a sector's data has moved and nothing went wrong, the transfer turns
/// to the very next sector: the position moves up by one, and a transfer
/// ends with success exactly when that was the last sector.
pub proof fn law_transfer_advances_one_sector(t: IdeTransfer)
    requires
        t.wf(),
        t.step != TransferStep::Finished,
    ensures
        t.spec_advance().0.done + position_in_command(t.spec_advance().0) == t.done + t.sector + 1,
        (t.spec_advance().1 == success()) <==> t.done + t.sector + 1 == t.total,
        t.spec_advance().1 == success() ==> t.spec_advance().0.done == t.total,
{
}

/// A transfer reports success only when every one of its sectors has moved.
pub proof fn law_transfer_success_means_done(t: IdeTransfer, value: u8)
    requires
        t.wf(),
        t.step != TransferStep::Finished,
    ensures
        t.spec_next(value).1 == success() ==> t.spec_next(value).0.done == t.total,
{
    assert(spec_error_code(3, 0) == 23);
    assert(spec_error_code(1, 0) == 19);
    if t.step == TransferStep::ErrorRegister {
        assert(spec_error_code(2, value) != 0);
    }
}

/// The actions a transfer takes when each of its actions is answered with
/// the next of the given register values, and where it then stands.
pub open spec fn transfer_run(t: IdeTransfer, values: Seq<u8>) -> (IdeTransfer, Seq<IdeAction>)
    decreases values.len(),
{
    if values.len() == 0 {
        (t, seq![])
    } else {
        let (t1, a) = t.spec_next(values[0]);
        let (tn, acts) = transfer_run(t1, values.drop_first());
        (tn, seq![a] + acts)
    }
}

/// The buffer offsets of the sectors that the actions move, in order.
pub open spec fn data_offsets(acts: Seq<IdeAction>) -> Seq<int>
    decreases acts.len(),
{
    if acts.len() == 0 {
        seq![]
    } else {
        let rest = data_offsets(acts.drop_first());
        match acts[0] {
            IdeAction::ReadSector { offset } => seq![offset as int] + rest,
            IdeAction::WriteSector { offset } => seq![offset as int] + rest,
            _ => rest,
        }
    }
}

/// How many sectors of the transfer have moved: those of earlier commands,
/// those of the current one, and the sector in hand once its data moved.
pub open spec fn sectors_moved(t: IdeTransfer) -> int {
    match t.step {
        TransferStep::Data | TransferStep::Flush | TransferStep::FlushAlt { .. } | TransferStep::FlushBusy { .. } => t.done
            + t.sector + 1,
        TransferStep::Finished => t.done as int,
        _ => t.done + t.sector,
    }
}

proof fn lemma_finished_run(t: IdeTransfer, values: Seq<u8>)
    requires
        t.step == TransferStep::Finished,
    ensures
        transfer_run(t, values).0 == t,
        data_offsets(transfer_run(t, values).1) == Seq::<int>::empty(),
        forall|i: int| 0 <= i < transfer_run(t, values).1.len() ==> #[trigger] transfer_run(t, values).1[i]
            == (IdeAction::Finish { code: t.code }),
    decreases values.len(),
{
    if values.len() > 0 {
        lemma_finished_run(t, values.drop_first());
        let acts = transfer_run(t, values).1;
        let rest = transfer_run(t, values.drop_first()).1;
        assert(acts.drop_first() =~= rest);
        assert forall|i: int| 0 <= i < acts.len() implies #[trigger] acts[i] == (IdeAction::Finish { code: t.code }) by {
            if i > 0 {
                assert(acts[i] == rest[i - 1]);
            }
        }
    }
}

/// Over a whole run, a transfer moves its sectors one after the other, each
/// once, in order: the data actions are for consecutive sectors from the
/// next one on. A transfer that reports success has then moved every one
/// of its sectors.
pub proof fn law_transfer_moves_sectors_in_order(t: IdeTransfer, values: Seq<u8>)
    requires
        t.wf(),
    ensures
        data_offsets(transfer_run(t, values).1) == Seq::new(data_offsets(transfer_run(t, values).1).len(),
            |i: int| (sectors_moved(t) + i) * 512),
        t.step != TransferStep::Finished && transfer_run(t, values).1.contains(success()) ==> sectors_moved(t)
            + data_offsets(transfer_run(t, values).1).len() == t.total,
    decreases values.len(),
{
    let offs = data_offsets(transfer_run(t, values).1);
    if t.step == TransferStep::Finished {
        lemma_finished_run(t, values);
        assert(offs =~= Seq::new(0, |i: int| (sectors_moved(t) + i) * 512));
    } else if values.len() == 0 {
        assert(offs =~= Seq::new(0, |i: int| (sectors_moved(t) + i) * 512));
    } else {
        let v = values[0];
        let (t1, a) = t.spec_next(v);
        let rest_values = values.drop_first();
        let acts1 = transfer_run(t1, rest_values).1;
        let acts = transfer_run(t, values).1;
        lemma_next_wf(t, v);
        law_transfer_data_in_bounds(t, v);
        law_transfer_success_means_done(t, v);
        if t.step == TransferStep::Data || t.step matches TransferStep::FlushBusy { .. } {
            law_transfer_advances_one_sector(t);
        }
        assert(acts == seq![a] + acts1);
        assert(acts.drop_first() =~= acts1);
        assert(acts[0] == a);
        let offs1 = data_offsets(acts1);
        let is_data = a is ReadSector || a is WriteSector;
        if t1.step == TransferStep::Finished {
            lemma_finished_run(t1, rest_values);
            assert(!is_data);
            assert(a == (IdeAction::Finish { code: t1.code }));
            assert(offs =~= Seq::new(0, |i: int| (sectors_moved(t) + i) * 512));
            if acts.contains(success()) {
                let j = choose|j: int| 0 <= j < acts.len() && acts[j] == success();
                if j > 0 {
                    assert(acts[j] == acts1[j - 1]);
                }
                assert(a == success());
            }
        } else {
            law_transfer_moves_sectors_in_order(t1, rest_values);
            if is_data {
                assert(sectors_moved(t1) == sectors_moved(t) + 1);
                assert(offs =~= seq![sectors_moved(t) * 512] + offs1);
                assert(offs =~= Seq::new(offs.len(), |i: int| (sectors_moved(t) + i) * 512));
            } else {
                assert(sectors_moved(t1) == sectors_moved(t));
                assert(offs =~= offs1);
            }
            if acts.contains(success()) {
                let j = choose|j: int| 0 <= j < acts.len() && acts[j] == success();
                assert(a != success());
                assert(acts[j] == acts1[j - 1]);
                assert(acts1.contains(success()));
            }
        }
    }
}

/// The sectors a transfer of `len` bytes covers: the whole sectors of a
/// read buffer, every sector a write touches.
pub open spec fn transfer_sectors(len: int, is_write: bool) -> int {
    if is_write {
        (len + 511) / 512
    } else {
        len / 512
    }
}

/// The number of sectors a transfer covers: the whole sectors of a read
/// buffer, every sector a write touches.
pub proof fn law_transfer_size(present: bool, drive_bit: u8, lba: u64, len: usize, is_write: bool)
    ensures
        present ==> IdeTransfer::spec_start(present, drive_bit, lba, len, is_write).0.total * 512 <= len + 511,
        present && !is_write ==> IdeTransfer::spec_start(present, drive_bit, lba, len, is_write).0.total * 512 <= len,
        present && is_write ==> IdeTransfer::spec_start(present, drive_bit, lba, len, is_write).0.total * 512 >= len,
{
    let t = IdeTransfer::spec_start(present, drive_bit, lba, len, is_write).0;
    assert((len / 512) * 512 <= len) by (nonlinear_arith);
    assert(((len + 511) / 512) * 512 <= len + 511) by (nonlinear_arith);
    assert(((len + 511) / 512) * 512 >= len) by (nonlinear_arith);
}

/// Where detecting a drive stands.
#[derive(Clone, Copy, Debug, PartialEq, Eq, Structural)]
pub enum ProbeStep {
    /// The drive was selected.
    Selected,
    /// Status reads after selecting, so far.
    Settling { reads: u8 },
    /// IDENTIFY was sent.
    Identify,
    /// Waiting for the answer; reads left.
    Waiting { left: u32 },
    /// The IDENTIFY data was read.
    Identified,
    /// Done.
    Finished,
}

/// Detecting one drive of a channel with the IDENTIFY command. It finishes
/// with code 1 where a drive answered (after a ReadSector action for its
/// IDENTIFY data) and 0 where none did.
#[derive(Clone, Copy, Debug)]
pub struct IdeProbe {
    pub drive: u8,
    pub step: ProbeStep,
    pub code: u8,
}

impl IdeProbe {
    pub open spec fn wf(self) -> bool {
        &&& self.step matches ProbeStep::Settling { reads } ==> 1 <= reads <= 4
        &&& self.step matches ProbeStep::Waiting { left } ==> 1 <= left <= POLL_TIMEOUT
    }

    /// Selecting the drive: 0xA0 with the drive number in bit 4.
    pub open spec fn spec_start(drive: u8) -> (IdeProbe, IdeAction) {
        (IdeProbe { drive, step: ProbeStep::Selected, code: 0 },
            IdeAction::WriteRegister { reg: ATA_REG_HDDEVSEL, value: 0xA0u8 | (drive << 4u8) })
    }

    /// One step of detection, given the value the last register read gave:
    /// four status reads to let the selection settle, IDENTIFY, then status
    /// reads until the drive answers, refuses, or the wait runs out.
    pub open spec fn spec_next(self, value: u8) -> (IdeProbe, IdeAction) {
        match self.step {
            ProbeStep::Selected => (IdeProbe { step: ProbeStep::Settling { reads: 1 }, ..self },
                IdeAction::ReadRegister { reg: ATA_REG_STATUS }),
            ProbeStep::Settling { reads } => if reads < 4 {
                (IdeProbe { step: ProbeStep::Settling { reads: (reads + 1) as u8 }, ..self },
                    IdeAction::ReadRegister { reg: ATA_REG_STATUS })
            } else {
                (IdeProbe { step: ProbeStep::Identify, ..self },
                    IdeAction::WriteRegister { reg: ATA_REG_COMMAND, value: ATA_CMD_IDENTIFY })
            },
            ProbeStep::Identify => (IdeProbe { step: ProbeStep::Waiting { left: POLL_TIMEOUT }, ..self },
                IdeAction::ReadRegister { reg: ATA_REG_STATUS }),
            ProbeStep::Waiting { left } => match spec_identify_probe(value) {
                IdentifyProbe::Absent => (IdeProbe { step: ProbeStep::Finished, code: 0, ..self }, IdeAction::Finish { code: 0 }),
                IdentifyProbe::Ready => (IdeProbe { step: ProbeStep::Identified, ..self }, IdeAction::ReadSector { offset: 0 }),
                IdentifyProbe::Wait => if left <= 1 {
                    (IdeProbe { step: ProbeStep::Finished, code: 0, ..self }, IdeAction::Finish { code: 0 })
                } else {
                    (IdeProbe { step: ProbeStep::Waiting { left: (left - 1) as u32 }, ..self },
                        IdeAction::ReadRegister { reg: ATA_REG_STATUS })
                },
            },
            ProbeStep::Identified => (IdeProbe { step: ProbeStep::Finished, code: 1, ..self }, IdeAction::Finish { code: 1 }),
            ProbeStep::Finished => (self, IdeAction::Finish { code: self.code }),
        }
    }

    /// Starts detecting a drive.
    pub fn start(drive: u8) -> (r: (IdeProbe, IdeAction))
        ensures
            r == Self::spec_start(drive),
            r.0.wf(),
    {
        (IdeProbe { drive, step: ProbeStep::Selected, code: 0 },
            IdeAction::WriteRegister { reg: ATA_REG_HDDEVSEL, value: 0xA0 | (drive << 4) })
    }

    /// One step of detection.
    pub fn next(&mut self, value: u8) -> (a: IdeAction)
        requires
            old(self).wf(),
        ensures
            (*final(self), a) == old(self).spec_next(value),
            final(self).wf(),
    {
        match self.step {
            ProbeStep::Selected => {
                self.step = ProbeStep::Settling { reads: 1 };
                IdeAction::ReadRegister { reg: ATA_REG_STATUS }
            },
            ProbeStep::Settling { reads } => {
                if reads < 4 {
                    self.step = ProbeStep::Settling { reads: reads + 1 };
                    IdeAction::ReadRegister { reg: ATA_REG_STATUS }
                } else {
                    self.step = ProbeStep::Identify;
                    IdeAction::WriteRegister { reg: ATA_REG_COMMAND, value: ATA_CMD_IDENTIFY }
                }
            },
            ProbeStep::Identify => {
                self.step = ProbeStep::Waiting { left: POLL_TIMEOUT };
                IdeAction::ReadRegister { reg: ATA_REG_STATUS }
            },
            ProbeStep::Waiting { left } => {
                match identify_probe(value) {
                    IdentifyProbe::Absent => {
                        self.step = ProbeStep::Finished;
                        self.code = 0;
                        IdeAction::Finish { code: 0 }
                    },
                    IdentifyProbe::Ready => {
                        self.step = ProbeStep::Identified;
                        IdeAction::ReadSector { offset: 0 }
                    },
                    IdentifyProbe::Wait => {
                        if left <= 1 {
                            self.step = ProbeStep::Finished;
                            self.code = 0;
                            IdeAction::Finish { code: 0 }
                        } else {
                            self.step = ProbeStep::Waiting { left: left - 1 };
                            IdeAction::ReadRegister { reg: ATA_REG_STATUS }
                        }
                    },
                }
            },
            ProbeStep::Identified => {
                self.step = ProbeStep::Finished;
                self.code = 1;
                IdeAction::Finish { code: 1 }
            },
            ProbeStep::Finished => IdeAction::Finish { code: self.code },
        }
    }
}

/// Detection reports a drive only after it has asked for the drive's
/// IDENTIFY data.
pub proof fn law_probe_found_after_identify(p: IdeProbe, value: u8)
    requires
        p.wf(),
        p.step != ProbeStep::Finished,
    ensures
        p.spec_next(value).1 == found() ==> p.step == ProbeStep::Identified,
        p.spec_next(value).1 matches IdeAction::ReadSector { offset } ==> offset == 0
            && spec_identify_probe(value) == IdentifyProbe::Ready,
{
}

/// Each command of a transfer addresses the first sector it moves: the start
/// sector plus the sectors earlier commands moved. With 28-bit addressing
/// (only for addresses below 2^28) the address is LBA0-2 and the low nibble
/// of the drive select; with 48-bit addressing it is the six address
/// registers, LBA3-5 holding bytes 3 to 5. So the sector at buffer offset
/// 512 k is disk sector `lba + k`.
pub proof fn law_command_addresses_its_first_sector(t: IdeTransfer)
    requires
        t.wf(),
        t.step != TransferStep::Finished,
    ensures
        ({
            let regs = t.registers();
            let cur = t.lba + t.done;
            &&& regs.len() == 6 || regs.len() == 10
            &&& regs.len() == 6 ==> {
                &&& cur < 0x1000_0000
                &&& regs[0].0 == ATA_REG_HDDEVSEL && regs[0].1 % 16 == cur / 0x100_0000
                &&& regs[2] == (ATA_REG_LBA0, (cur % 256) as u8)
                &&& regs[3] == (ATA_REG_LBA1, ((cur / 256) % 256) as u8)
                &&& regs[4] == (ATA_REG_LBA2, ((cur / 65536) % 256) as u8)
            }
            &&& regs.len() == 10 ==> {
                &&& regs[6] == (ATA_REG_LBA0, (cur % 256) as u8)
                &&& regs[7] == (ATA_REG_LBA1, ((cur / 256) % 256) as u8)
                &&& regs[8] == (ATA_REG_LBA2, ((cur / 65536) % 256) as u8)
                &&& regs[2] == (ATA_REG_LBA3, ((cur / 0x100_0000) % 256) as u8)
                &&& regs[3] == (ATA_REG_LBA4, ((cur / 0x1_0000_0000) % 256) as u8)
                &&& regs[4] == (ATA_REG_LBA5, ((cur / 0x100_0000_0000) % 256) as u8)
            }
            &&& t.offset() == (t.done + t.sector) * 512
            &&& regs.len() == 6 ==> {
                &&& regs[1] == (ATA_REG_SECCOUNT0, (t.chunk % 256) as u8)
                &&& regs[5] == (ATA_REG_COMMAND, if t.is_write { ATA_CMD_WRITE_PIO } else { ATA_CMD_READ_PIO })
                &&& t.drive_bit < 2 ==> regs[0].1 / 16 == 0xE + t.drive_bit
            }
            &&& regs.len() == 10 ==> {
                &&& regs[0].0 == ATA_REG_HDDEVSEL
                &&& regs[5] == (ATA_REG_SECCOUNT0, (t.chunk % 256) as u8)
                &&& regs[1] == (ATA_REG_SECCOUNT1, ((t.chunk / 256) % 256) as u8)
                &&& regs[9] == (ATA_REG_COMMAND, if t.is_write { ATA_CMD_WRITE_PIO_EXT } else { ATA_CMD_READ_PIO_EXT })
                &&& t.drive_bit < 2 ==> regs[0].1 == 0x40 + 16 * t.drive_bit
            }
        }),
{
    let c: u64 = (t.lba + t.done) as u64;
    assert(c == t.lba + t.done);
    let d = t.drive_bit;
    assert(c & 0xFF == c % 256 && (c >> 8u64) & 0xFF == (c / 256) % 256 && (c >> 16u64) & 0xFF == (c / 65536) % 256)
        by (bit_vector);
    assert((c >> 24u64) & 0xFF == (c / 0x100_0000) % 256 && (c >> 32u64) & 0xFF == (c / 0x1_0000_0000) % 256
        && (c >> 40u64) & 0xFF == (c / 0x100_0000_0000) % 256) by (bit_vector);
    let n = t.chunk;
    assert(n & 0xFF == n % 256 && (n >> 8usize) & 0xFF == (n / 256) % 256) by (bit_vector);
    assert(n <= 128 ==> n as u8 == n % 256) by (bit_vector);
    assert(d < 2 ==> 0x40u8 | (d << 4u8) == 0x40 + 16 * d) by (bit_vector);
    if !needs_lba48(t.lba + t.done, t.chunk) {
        assert(c < 0x1000_0000 ==> (c >> 24u64) & 0x0F == c / 0x100_0000) by (bit_vector);
        let nib = ((c >> 24u64) & 0x0F) as u8;
        assert(nib < 16) by (bit_vector)
            requires nib == ((c >> 24u64) & 0x0F) as u8;
        assert((0xE0u8 | (d << 4u8) | nib) % 16 == nib) by (bit_vector)
            requires nib < 16;
        assert(d < 2 ==> (0xE0u8 | (d << 4u8) | nib) / 16 == 0xE + d) by (bit_vector)
            requires nib < 16;
    }
}

/// Detecting drive `d` of a channel first selects that drive: the select
/// value is 0xA0 with bit 4 the drive number, so 0xA0 for the master
/// (drive 0) and 0xB0 for the slave (drive 1).
pub proof fn law_probe_selects_its_drive(drive: u8)
    requires
        drive < 2,
    ensures
        IdeProbe::spec_start(drive).1 == (IdeAction::WriteRegister { reg: ATA_REG_HDDEVSEL, value: (0xA0 + 16 * drive) as u8 }),
        IdeProbe::spec_start(drive).0.drive == drive,
{
    assert(drive < 2 ==> 0xA0u8 | (drive << 4u8) == 0xA0 + 16 * drive) by (bit_vector);
}

} // verus!
