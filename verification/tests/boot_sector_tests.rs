use eucalypt::boot_sector::{check_boot_sector, BiosParameterBlock};

fn sector(bps: u16, spc: u8, reserved: u16, fats: u8, root_entries: u16, fat_size: u16, fs_type: &[u8; 8]) -> Vec<u8> {
    let mut s = vec![0u8; 512];
    s[0..3].copy_from_slice(&[0xEB, 0x3C, 0x90]);
    s[3..11].copy_from_slice(b"MSWIN4.1");
    s[11..13].copy_from_slice(&bps.to_le_bytes());
    s[13] = spc;
    s[14..16].copy_from_slice(&reserved.to_le_bytes());
    s[16] = fats;
    s[17..19].copy_from_slice(&root_entries.to_le_bytes());
    s[19..21].copy_from_slice(&2880u16.to_le_bytes());
    s[21] = 0xF0;
    s[22..24].copy_from_slice(&fat_size.to_le_bytes());
    s[54..62].copy_from_slice(fs_type);
    s[510] = 0x55;
    s[511] = 0xAA;
    s
}

#[test]
fn floppy_layout() {
    let s = sector(512, 1, 1, 2, 224, 9, b"FAT12   ");
    let bpb = check_boot_sector(&s).unwrap();
    assert_eq!(bpb.bytes_per_sector, 512);
    assert_eq!(bpb.root_entry_count, 224);
    let g = bpb.compute_geometry();
    assert_eq!(g.fat_start_sector, 1);
    assert_eq!(g.root_dir_sectors, 14);
    assert_eq!(g.root_dir_start_sector, 19);
    assert_eq!(g.data_start_sector, 33);
    assert_eq!(bpb.to_bytes(), s[..62].to_vec());
}

#[test]
fn missing_signature() {
    let mut s = sector(512, 1, 1, 2, 224, 9, b"FAT12   ");
    s[511] = 0;
    assert_eq!(check_boot_sector(&s).unwrap_err(), "Invalid boot sector signature");
}

#[test]
fn not_fat12() {
    let s = sector(1024, 1, 1, 2, 224, 9, b"FAT16   ");
    assert_eq!(check_boot_sector(&s).unwrap_err(), "Not a FAT12 filesystem");
    let s = sector(512, 0, 1, 2, 224, 9, b"FAT16   ");
    assert_eq!(check_boot_sector(&s).unwrap_err(), "Not a FAT12 filesystem");
}

#[test]
fn unlabelled_but_shaped_like_fat12() {
    let s = sector(512, 4, 1, 2, 224, 9, b"        ");
    assert!(check_boot_sector(&s).is_ok());
}

#[test]
fn labelled_fat12_with_zero_sector_size() {
    let s = sector(0, 1, 1, 2, 224, 9, b"FAT12   ");
    assert_eq!(check_boot_sector(&s).unwrap_err(), "Invalid bytes per sector");
}

#[test]
fn parameter_block_bytes_roundtrip() {
    let s = sector(512, 2, 4, 1, 16, 3, b"FAT12   ");
    let bpb = BiosParameterBlock::from_bytes(&s);
    assert_eq!(bpb.to_bytes(), s[..62].to_vec());
    assert_eq!(bpb.sectors_per_cluster, 2);
    assert_eq!(bpb.reserved_sectors, 4);
    assert_eq!(bpb.fat_size_16, 3);
    let z = BiosParameterBlock::zero();
    assert_eq!(z.to_bytes(), vec![0u8; 62]);
}
