use eucalypt::ide::{ATA_CMD_READ_PIO, ATA_CMD_WRITE_PIO, ATA_CMD_WRITE_PIO_EXT, ATA_REG_ALTSTATUS, ATA_REG_COMMAND, ATA_REG_DATA, ATA_REG_HDDEVSEL, ATA_REG_LBA0, ATA_REG_LBA1, ATA_REG_LBA2, ATA_REG_LBA3, ATA_REG_LBA4, ATA_REG_LBA5, ATA_REG_SECCOUNT0, ATA_REG_SECCOUNT1, IDEChannelRegisters, IdeDevice, IdentifyProbe, ide_channels, ide_configure_transfer, ide_error_code, ide_init_channel, identify_probe, parse_identify, poll_verdict, read_sector_count, register_port, sector_payload, status_busy, transfer_chunk, uses_high_order, write_sector_count};

#[test]
fn register_ports() {
    let ch = IDEChannelRegisters { base: 0x1F0, ctrl: 0x3F6, bmide: 0xC000, nien: 0 };
    assert_eq!(register_port(&ch, ATA_REG_DATA), Some(0x1F0));
    assert_eq!(register_port(&ch, ATA_REG_COMMAND), Some(0x1F7));
    assert_eq!(register_port(&ch, ATA_REG_SECCOUNT1), Some(0x1F2));
    assert_eq!(register_port(&ch, ATA_REG_LBA5), Some(0x1F5));
    assert_eq!(register_port(&ch, ATA_REG_ALTSTATUS), Some(0x3F8));
    assert_eq!(register_port(&ch, 0x0D), Some(0x3F9));
    assert_eq!(register_port(&ch, 0x0E), Some(0xC000));
    assert_eq!(register_port(&ch, 0x15), Some(0xC007));
    assert_eq!(register_port(&ch, 0x16), None);
    assert!(uses_high_order(0x08));
    assert!(uses_high_order(0x0B));
    assert!(!uses_high_order(0x07));
    assert!(!uses_high_order(0x0C));
}

#[test]
fn status_checks() {
    assert!(status_busy(0x80));
    assert!(!status_busy(0x58));
    assert_eq!(poll_verdict(0x51), 2);
    assert_eq!(poll_verdict(0x60), 1);
    assert_eq!(poll_verdict(0x50), 3);
    assert_eq!(poll_verdict(0x58), 0);
}

#[test]
fn error_codes() {
    assert_eq!(ide_error_code(0, 0xFF), 0);
    assert_eq!(ide_error_code(1, 0), 19);
    assert_eq!(ide_error_code(2, 0x00), 2);
    assert_eq!(ide_error_code(2, 0x01), 7);
    assert_eq!(ide_error_code(2, 0x02), 3);
    assert_eq!(ide_error_code(2, 0x04), 20);
    assert_eq!(ide_error_code(2, 0x05), 20);
    assert_eq!(ide_error_code(2, 0x08), 3);
    assert_eq!(ide_error_code(2, 0x10), 21);
    assert_eq!(ide_error_code(2, 0x20), 3);
    assert_eq!(ide_error_code(2, 0x40), 22);
    assert_eq!(ide_error_code(2, 0xFF), 13);
    assert_eq!(ide_error_code(3, 0), 23);
    assert_eq!(ide_error_code(4, 0), 8);
    assert_eq!(ide_error_code(9, 0), 9);
}

#[test]
fn lba28_transfer_registers() {
    let regs = ide_configure_transfer(1, 0x0ABC_DEF1, 5, false, false);
    assert_eq!(
        regs,
        vec![
            (ATA_REG_HDDEVSEL, 0xFA),
            (ATA_REG_SECCOUNT0, 5),
            (ATA_REG_LBA0, 0xF1),
            (ATA_REG_LBA1, 0xDE),
            (ATA_REG_LBA2, 0xBC),
            (ATA_REG_COMMAND, ATA_CMD_READ_PIO),
        ]
    );
    let regs = ide_configure_transfer(0, 3, 1, false, true);
    assert_eq!(regs[0], (ATA_REG_HDDEVSEL, 0xE0));
    assert_eq!(regs[5], (ATA_REG_COMMAND, ATA_CMD_WRITE_PIO));
}

#[test]
fn lba48_transfer_registers() {
    let regs = ide_configure_transfer(1, 0x1234_5678_9ABC, 0x0102, true, true);
    assert_eq!(
        regs,
        vec![
            (ATA_REG_HDDEVSEL, 0x50),
            (ATA_REG_SECCOUNT1, 0x01),
            (ATA_REG_LBA3, 0x56),
            (ATA_REG_LBA4, 0x34),
            (ATA_REG_LBA5, 0x12),
            (ATA_REG_SECCOUNT0, 0x02),
            (ATA_REG_LBA0, 0xBC),
            (ATA_REG_LBA1, 0x9A),
            (ATA_REG_LBA2, 0x78),
            (ATA_REG_COMMAND, ATA_CMD_WRITE_PIO_EXT),
        ]
    );
    let lba = regs[6].1 as u64
        | (regs[7].1 as u64) << 8
        | (regs[8].1 as u64) << 16
        | (regs[2].1 as u64) << 24
        | (regs[3].1 as u64) << 32
        | (regs[4].1 as u64) << 40;
    assert_eq!(lba, 0x1234_5678_9ABC);
}

#[test]
fn transfers_are_cut_into_commands() {
    assert_eq!(read_sector_count(1024), 2);
    assert_eq!(read_sector_count(1000), 1);
    assert_eq!(write_sector_count(1000), 2);
    assert_eq!(write_sector_count(0), 0);
    let c = transfer_chunk(10, 300, 0);
    assert_eq!((c.lba, c.sectors, c.lba48), (10, 128, false));
    let c = transfer_chunk(10, 300, 256);
    assert_eq!((c.lba, c.sectors, c.lba48), (266, 44, false));
    let c = transfer_chunk(0x0FFF_FFFF, 3, 1);
    assert_eq!((c.lba, c.sectors, c.lba48), (0x1000_0000, 2, true));
}

#[test]
fn last_sector_of_a_write_is_padded() {
    let data: Vec<u8> = (0..700u32).map(|i| i as u8).collect();
    let first = sector_payload(&data, 0);
    assert_eq!(first, data[..512].to_vec());
    let second = sector_payload(&data, 512);
    assert_eq!(&second[..188], &data[512..]);
    assert!(second[188..].iter().all(|&b| b == 0));
    assert_eq!(second.len(), 512);
}

#[test]
fn identify_data() {
    let mut buf = vec![0u8; 512];
    buf[54..94].copy_from_slice(b"QEMU HARDDISK                           ");
    buf[164] = 0x00;
    buf[165] = 0x04;
    buf[200..206].copy_from_slice(&[0x00, 0x00, 0x10, 0x00, 0x01, 0x00]);
    buf[120..124].copy_from_slice(&[0x00, 0x08, 0x00, 0x00]);
    let id = parse_identify(&buf);
    assert!(id.lba48);
    assert_eq!(id.command_sets, 0x0400);
    assert_eq!(id.size, 0x01_0010_0000);
    assert_eq!(&id.model[..13], b"QEMU HARDDISK");
    assert_eq!(id.model[40], 0);
    buf[165] = 0;
    let id = parse_identify(&buf);
    assert!(!id.lba48);
    assert_eq!(id.size, 0x800);
    let mut dev = IdeDevice::default();
    dev.begin_probe(1, 0);
    assert!(!dev.is_present());
    dev.record_identify(&id);
    assert!(dev.is_present());
    assert_eq!((dev.channel, dev.drive, dev.size, dev.device_type), (1, 0, 0x800, 0));
}

#[test]
fn identify_probe_states() {
    assert_eq!(identify_probe(0), IdentifyProbe::Absent);
    assert_eq!(identify_probe(0x51), IdentifyProbe::Absent);
    assert_eq!(identify_probe(0x58), IdentifyProbe::Ready);
    assert_eq!(identify_probe(0x80), IdentifyProbe::Wait);
    assert_eq!(identify_probe(0x50), IdentifyProbe::Wait);
}

#[test]
fn channel_ports() {
    let (p, s) = ide_channels(0, 0, 0, 0, 0);
    assert_eq!((p.base, p.ctrl, p.bmide, p.nien), (0x1F0, 0x3F6, 0, 0));
    assert_eq!((s.base, s.ctrl, s.bmide), (0x170, 0x376, 8));
    let (p, s) = ide_channels(0x13, 0x27, 0, 0, 0xC1);
    assert_eq!((p.base, p.ctrl, p.bmide), (0x10, 0x24, 0xC0));
    assert_eq!((s.base, s.ctrl, s.bmide), (0x170, 0x376, 0xC8));
    let ch = ide_init_channel(0, 0, 5);
    assert_eq!((ch.base, ch.ctrl), (0x170, 0x376));
}
