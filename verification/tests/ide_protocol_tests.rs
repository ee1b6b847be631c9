use eucalypt::ide::{ATA_CMD_CACHE_FLUSH, ATA_CMD_IDENTIFY, ATA_REG_ALTSTATUS, ATA_REG_COMMAND, ATA_REG_ERROR, ATA_REG_HDDEVSEL, ATA_REG_STATUS};
use eucalypt::ide_protocol::{IdeAction, IdeProbe, IdeTransfer, POLL_TIMEOUT};

fn run_transfer(start: (IdeTransfer, IdeAction), mut answer: impl FnMut(&IdeAction, usize) -> u8) -> Vec<IdeAction> {
    let (mut t, mut a) = start;
    let mut trace = vec![a];
    let mut n = 0;
    while !matches!(a, IdeAction::Finish { .. }) {
        let v = answer(&a, n);
        a = t.next(v);
        trace.push(a);
        n += 1;
        assert!(n < 1_000_000);
    }
    trace
}

fn data_actions(trace: &[IdeAction]) -> Vec<IdeAction> {
    trace.iter().copied().filter(|a| matches!(a, IdeAction::ReadSector { .. } | IdeAction::WriteSector { .. })).collect()
}

#[test]
fn read_of_two_sectors() {
    let trace = run_transfer(IdeTransfer::start(true, 1, 5, 1024, false), |_, _| 0x58);
    assert_eq!(trace[0], IdeAction::ReadRegister { reg: ATA_REG_STATUS });
    assert_eq!(trace[1], IdeAction::WriteRegister { reg: ATA_REG_HDDEVSEL, value: 0xF0 });
    assert_eq!(trace[2], IdeAction::WriteRegister { reg: 0x02, value: 2 });
    assert_eq!(trace[3], IdeAction::WriteRegister { reg: 0x03, value: 5 });
    assert_eq!(trace[6], IdeAction::WriteRegister { reg: ATA_REG_COMMAND, value: 0x20 });
    assert_eq!(trace[7], IdeAction::ReadRegister { reg: ATA_REG_ALTSTATUS });
    assert_eq!(trace[10], IdeAction::ReadRegister { reg: ATA_REG_ALTSTATUS });
    assert_eq!(trace[11], IdeAction::ReadRegister { reg: ATA_REG_STATUS });
    assert_eq!(trace[12], IdeAction::ReadRegister { reg: ATA_REG_STATUS });
    assert_eq!(trace[13], IdeAction::ReadSector { offset: 0 });
    assert_eq!(
        data_actions(&trace),
        vec![IdeAction::ReadSector { offset: 0 }, IdeAction::ReadSector { offset: 512 }]
    );
    assert_eq!(*trace.last().unwrap(), IdeAction::Finish { code: 0 });
}

#[test]
fn read_waits_while_busy() {
    let trace = run_transfer(IdeTransfer::start(true, 0, 0, 512, false), |a, n| {
        if n < 3 && *a == (IdeAction::ReadRegister { reg: ATA_REG_STATUS }) { 0x80 } else { 0x58 }
    });
    assert_eq!(&trace[..4], &[IdeAction::ReadRegister { reg: ATA_REG_STATUS }; 4]);
    assert_eq!(*trace.last().unwrap(), IdeAction::Finish { code: 0 });
}

#[test]
fn big_read_is_cut_into_commands_of_128() {
    let trace = run_transfer(IdeTransfer::start(true, 0, 0x0FFF_FFF0, 300 * 512, false), |_, _| 0x58);
    let data = data_actions(&trace);
    assert_eq!(data.len(), 300);
    for (i, a) in data.iter().enumerate() {
        assert_eq!(*a, IdeAction::ReadSector { offset: i * 512 });
    }
    let commands: Vec<u8> = trace
        .iter()
        .filter_map(|a| match a {
            IdeAction::WriteRegister { reg, value } if *reg == ATA_REG_COMMAND => Some(*value),
            _ => None,
        })
        .collect();
    assert_eq!(commands, vec![0x20, 0x24, 0x24]);
    let counts: Vec<u8> = trace
        .iter()
        .filter_map(|a| match a {
            IdeAction::WriteRegister { reg: 0x02, value } => Some(*value),
            _ => None,
        })
        .collect();
    assert_eq!(counts, vec![128, 128, 44]);
}

#[test]
fn write_flushes_after_each_sector() {
    let trace = run_transfer(IdeTransfer::start(true, 0, 9, 700, true), |_, _| 0x58);
    assert_eq!(
        data_actions(&trace),
        vec![IdeAction::WriteSector { offset: 0 }, IdeAction::WriteSector { offset: 512 }]
    );
    let flushes = trace
        .iter()
        .filter(|a| **a == IdeAction::WriteRegister { reg: ATA_REG_COMMAND, value: ATA_CMD_CACHE_FLUSH })
        .count();
    assert_eq!(flushes, 2);
    assert!(trace.contains(&IdeAction::WriteRegister { reg: ATA_REG_COMMAND, value: 0x30 }));
    assert_eq!(*trace.last().unwrap(), IdeAction::Finish { code: 0 });
}

#[test]
fn drive_error_is_decoded() {
    let mut statuses = 0;
    let trace = run_transfer(IdeTransfer::start(true, 0, 0, 512, false), |a, _| match a {
        IdeAction::ReadRegister { reg } if *reg == ATA_REG_STATUS => {
            statuses += 1;
            if statuses >= 3 { 0x51 } else { 0x50 }
        }
        IdeAction::ReadRegister { reg } if *reg == ATA_REG_ERROR => 0x04,
        _ => 0x50,
    });
    assert!(trace.contains(&IdeAction::ReadRegister { reg: ATA_REG_ERROR }));
    assert_eq!(*trace.last().unwrap(), IdeAction::Finish { code: 20 });
    assert!(data_actions(&trace).is_empty());
}

#[test]
fn device_fault_and_no_data() {
    let mut statuses = 0;
    let trace = run_transfer(IdeTransfer::start(true, 0, 0, 512, false), |_, _| {
        statuses += 1;
        0x60
    });
    assert_eq!(*trace.last().unwrap(), IdeAction::Finish { code: 19 });
    let trace = run_transfer(IdeTransfer::start(true, 0, 0, 512, false), |_, _| 0x50);
    assert_eq!(*trace.last().unwrap(), IdeAction::Finish { code: 23 });
}

#[test]
fn polling_times_out() {
    let mut configured = false;
    let trace = run_transfer(IdeTransfer::start(true, 0, 0, 512, false), |a, _| {
        if let IdeAction::WriteRegister { .. } = a {
            configured = true;
        }
        if configured { 0x80 } else { 0x50 }
    });
    assert_eq!(*trace.last().unwrap(), IdeAction::Finish { code: 23 });
    let status_reads = trace.iter().filter(|a| **a == IdeAction::ReadRegister { reg: ATA_REG_STATUS }).count();
    assert_eq!(status_reads as u32, 1 + POLL_TIMEOUT);
}

#[test]
fn absent_drive_and_empty_buffer() {
    let (_, a) = IdeTransfer::start(false, 0, 0, 512, false);
    assert_eq!(a, IdeAction::Finish { code: 1 });
    let (_, a) = IdeTransfer::start(true, 0, 0, 100, false);
    assert_eq!(a, IdeAction::Finish { code: 0 });
    let (_, a) = IdeTransfer::start(true, 0, 0, 100, true);
    assert_eq!(a, IdeAction::ReadRegister { reg: ATA_REG_STATUS });
}

fn run_probe(drive: u8, mut answer: impl FnMut(usize) -> u8) -> Vec<IdeAction> {
    let (mut p, mut a) = IdeProbe::start(drive);
    let mut trace = vec![a];
    let mut n = 0;
    while !matches!(a, IdeAction::Finish { .. }) {
        a = p.next(answer(n));
        trace.push(a);
        n += 1;
    }
    trace
}

#[test]
fn probe_finds_a_drive() {
    let trace = run_probe(1, |_| 0x58);
    assert_eq!(trace[0], IdeAction::WriteRegister { reg: ATA_REG_HDDEVSEL, value: 0xB0 });
    assert_eq!(&trace[1..5], &[IdeAction::ReadRegister { reg: ATA_REG_STATUS }; 4]);
    assert_eq!(trace[5], IdeAction::WriteRegister { reg: ATA_REG_COMMAND, value: ATA_CMD_IDENTIFY });
    assert_eq!(trace[6], IdeAction::ReadRegister { reg: ATA_REG_STATUS });
    assert_eq!(trace[7], IdeAction::ReadSector { offset: 0 });
    assert_eq!(trace[8], IdeAction::Finish { code: 1 });
}

#[test]
fn probe_finds_nothing() {
    assert_eq!(*run_probe(0, |_| 0).last().unwrap(), IdeAction::Finish { code: 0 });
    assert_eq!(*run_probe(0, |n| if n < 6 { 0x50 } else { 0x51 }).last().unwrap(), IdeAction::Finish { code: 0 });
    let trace = run_probe(0, |_| 0x80);
    assert_eq!(*trace.last().unwrap(), IdeAction::Finish { code: 0 });
    assert_eq!(trace.len(), 6 + POLL_TIMEOUT as usize + 1);
}

#[test]
fn absent_drive_ends_at_once_whatever_the_sector() {
    let (_, a) = IdeTransfer::start(false, 0, u64::MAX, 4096, true);
    assert_eq!(a, IdeAction::Finish { code: 1 });
    let (_, a) = IdeTransfer::start(false, 0, u64::MAX, 4096, false);
    assert_eq!(a, IdeAction::Finish { code: 1 });
}

#[test]
fn read_up_to_the_last_sector() {
    let trace = run_transfer(IdeTransfer::start(true, 0, u64::MAX - 1, 1024, false), |_, _| 0x58);
    assert_eq!(data_actions(&trace).len(), 2);
    assert_eq!(*trace.last().unwrap(), IdeAction::Finish { code: 0 });
}

#[test]
fn one_command_may_start_at_the_last_sector() {
    let trace = run_transfer(IdeTransfer::start(true, 0, u64::MAX, 1024, false), |_, _| 0x58);
    assert_eq!(data_actions(&trace).len(), 2);
    assert_eq!(*trace.last().unwrap(), IdeAction::Finish { code: 0 });
}
