use std::cell::RefCell;
use eucalypt::fat_table::get_fat_entry;
use eucalypt::storage::SectorMap;
use eucalypt::volume::cluster_image;
use eucalypt::{
    fat12_create_file, fat12_delete_file, fat12_file_exists, fat12_get_file_size, fat12_init, fat12_list_files,
    fat12_read_file, Fat12Volume, StorageDriver,
};

struct MemDisk {
    sectors: RefCell<Vec<Vec<u8>>>,
    fail_read_from: Option<u64>,
    fail_writes: bool,
    fail_write_at: Option<u64>,
}

impl MemDisk {
    fn blank(n: usize) -> MemDisk {
        MemDisk { sectors: RefCell::new(vec![vec![0u8; 512]; n]), fail_read_from: None, fail_writes: false, fail_write_at: None }
    }

    fn formatted(spc: u8, fat_size: u16, root_entries: u16) -> MemDisk {
        let disk = MemDisk::blank(400);
        {
            let mut s = disk.sectors.borrow_mut();
            let b = &mut s[0];
            b[11..13].copy_from_slice(&512u16.to_le_bytes());
            b[13] = spc;
            b[14..16].copy_from_slice(&1u16.to_le_bytes());
            b[16] = 2;
            b[17..19].copy_from_slice(&root_entries.to_le_bytes());
            b[19..21].copy_from_slice(&400u16.to_le_bytes());
            b[22..24].copy_from_slice(&fat_size.to_le_bytes());
            b[54..62].copy_from_slice(b"FAT12   ");
            b[510] = 0x55;
            b[511] = 0xAA;
            for copy in 0..2u16 {
                let f = &mut s[(1 + copy * fat_size) as usize];
                f[0] = 0xF0;
                f[1] = 0xFF;
                f[2] = 0xFF;
            }
        }
        disk
    }

    fn sector(&self, lba: usize) -> Vec<u8> {
        self.sectors.borrow()[lba].clone()
    }
}

impl StorageDriver for MemDisk {
    fn sectors(&self) -> SectorMap {
        panic!("the sector model exists only in proofs")
    }

    fn read_sector(&self, lba: u64, buffer: &mut [u8]) -> bool {
        if let Some(from) = self.fail_read_from {
            if lba >= from {
                return false;
            }
        }
        match self.sectors.borrow().get(lba as usize) {
            Some(s) => {
                buffer.copy_from_slice(s);
                true
            }
            None => false,
        }
    }

    fn write_sector(&mut self, lba: u64, data: &[u8]) -> bool {
        if self.fail_writes || self.fail_write_at == Some(lba) {
            return false;
        }
        match self.sectors.borrow_mut().get_mut(lba as usize) {
            Some(s) => {
                s.copy_from_slice(data);
                true
            }
            None => false,
        }
    }
}

fn mounted(spc: u8, fat_size: u16, root_entries: u16) -> Fat12Volume<MemDisk> {
    let mut vol = Fat12Volume::new(MemDisk::formatted(spc, fat_size, root_entries));
    fat12_init(&mut vol).unwrap();
    vol
}

#[test]
fn hello_world_is_read_back() {
    let mut vol = mounted(1, 2, 16);
    fat12_create_file(&mut vol, "hello.txt", b"Hello, World").unwrap();
    assert_eq!(fat12_read_file(&vol, "hello.txt").unwrap(), b"Hello, World".to_vec());
    assert_eq!(fat12_read_file(&vol, "HELLO.TXT").unwrap(), b"Hello, World".to_vec());
    assert!(fat12_file_exists(&vol, "hello.txt"));
    assert_eq!(fat12_get_file_size(&vol, "hello.txt"), Some(12));
    assert_eq!(fat12_list_files(&vol).unwrap(), vec!["HELLO.TXT".to_string()]);
}

#[test]
fn multi_cluster_file_is_read_back() {
    let mut vol = mounted(1, 2, 16);
    let data: Vec<u8> = (0..1500u32).map(|i| (i % 251) as u8).collect();
    fat12_create_file(&mut vol, "big.bin", &data).unwrap();
    assert_eq!(fat12_read_file(&vol, "big.bin").unwrap(), data);
    let data2: Vec<u8> = vec![7u8; 2048];
    fat12_create_file(&mut vol, "two.bin", &data2).unwrap();
    assert_eq!(fat12_read_file(&vol, "two.bin").unwrap(), data2);
    assert_eq!(fat12_read_file(&vol, "big.bin").unwrap(), data);
    assert_eq!(fat12_list_files(&vol).unwrap(), vec!["BIG.BIN".to_string(), "TWO.BIN".to_string()]);
}

#[test]
fn created_file_lands_on_disk_in_both_fat_copies() {
    let mut vol = mounted(1, 2, 16);
    fat12_create_file(&mut vol, "a.txt", &vec![1u8; 600]).unwrap();
    let disk = vol_disk_fat(&vol, 1, 2);
    let backup = vol_disk_fat(&vol, 3, 2);
    assert_eq!(disk, backup);
    assert_eq!(get_fat_entry(&disk, 2), 3);
    assert_eq!(get_fat_entry(&disk, 3), 0xFF8);
}

fn vol_disk_fat(vol: &Fat12Volume<MemDisk>, start: usize, n: usize) -> Vec<u8> {
    let mut v = Vec::new();
    let mut buf = vec![0u8; 512];
    for i in 0..n {
        assert!(vol_drive(vol).read_sector((start + i) as u64, &mut buf));
        v.extend_from_slice(&buf);
    }
    v
}

fn vol_drive(vol: &Fat12Volume<MemDisk>) -> &MemDisk {
    vol.device()
}

#[test]
fn delete_removes_file_and_frees_clusters() {
    let mut vol = mounted(1, 2, 16);
    fat12_create_file(&mut vol, "a.txt", &vec![1u8; 600]).unwrap();
    fat12_create_file(&mut vol, "b.txt", b"bee").unwrap();
    fat12_delete_file(&mut vol, "A.TXT").unwrap();
    assert!(!fat12_file_exists(&vol, "a.txt"));
    assert_eq!(fat12_read_file(&vol, "a.txt"), Err("File not found"));
    assert_eq!(fat12_get_file_size(&vol, "a.txt"), None);
    assert_eq!(fat12_read_file(&vol, "b.txt").unwrap(), b"bee".to_vec());
    assert_eq!(fat12_list_files(&vol).unwrap(), vec!["B.TXT".to_string()]);
    let fat = vol_disk_fat(&vol, 1, 2);
    assert_eq!(get_fat_entry(&fat, 2), 0);
    assert_eq!(get_fat_entry(&fat, 3), 0);
    assert_eq!(get_fat_entry(&fat, 4), 0xFF8);
    let root = vol_drive(&vol).sector(5);
    assert_eq!(root[0], 0xE5);
    fat12_create_file(&mut vol, "c.txt", b"sea").unwrap();
    assert_eq!(fat12_read_file(&vol, "c.txt").unwrap(), b"sea".to_vec());
}

#[test]
fn duplicate_name_leaves_directory_and_tables_alone() {
    let mut vol = mounted(1, 2, 16);
    fat12_create_file(&mut vol, "a.txt", b"one").unwrap();
    let before: Vec<Vec<u8>> = (1..6).map(|l| vol_drive(&vol).sector(l)).collect();
    assert_eq!(fat12_create_file(&mut vol, "A.TXT", b"two"), Err("File already exists"));
    let after: Vec<Vec<u8>> = (1..6).map(|l| vol_drive(&vol).sector(l)).collect();
    assert_eq!(before, after);
    let cluster3 = vol_drive(&vol).sector(7);
    assert_eq!(&cluster3[..3], b"two");
    assert!(cluster3[3..].iter().all(|&b| b == 0));
    assert_eq!(fat12_read_file(&vol, "a.txt").unwrap(), b"one".to_vec());
}

#[test]
fn failed_first_fat_write_leaves_backup_alone() {
    let mut disk = MemDisk::formatted(1, 2, 16);
    disk.fail_write_at = Some(1);
    let backup_before = disk.sector(3);
    let mut vol = Fat12Volume::new(disk);
    fat12_init(&mut vol).unwrap();
    assert_eq!(fat12_create_file(&mut vol, "a.txt", b"data"), Err("Failed to write FAT"));
    assert_eq!(vol_drive(&vol).sector(3), backup_before);
    assert_eq!(&vol_drive(&vol).sector(5)[..11], b"A       TXT");
    assert_eq!(&vol_drive(&vol).sector(6)[..4], b"data");
}

#[test]
fn entries_written_are_listed_back() {
    let mut vol = mounted(2, 2, 16);
    fat12_create_file(&mut vol, "one.txt", b"1").unwrap();
    fat12_create_file(&mut vol, "two", b"22").unwrap();
    fat12_create_file(&mut vol, "three.c", b"333").unwrap();
    fat12_delete_file(&mut vol, "two").unwrap();
    assert_eq!(fat12_list_files(&vol).unwrap(), vec!["ONE.TXT".to_string(), "THREE.C".to_string()]);
    assert_eq!(fat12_get_file_size(&vol, "three.c"), Some(3));
    assert_eq!(fat12_read_file(&vol, "Three.C").unwrap(), b"333".to_vec());
}

#[test]
fn delete_missing_file() {
    let mut vol = mounted(1, 2, 16);
    assert_eq!(fat12_delete_file(&mut vol, "none.txt"), Err("File not found"));
}

#[test]
fn duplicate_name_is_refused() {
    let mut vol = mounted(1, 2, 16);
    fat12_create_file(&mut vol, "a.txt", b"one").unwrap();
    assert_eq!(fat12_create_file(&mut vol, "A.TXT", b"two"), Err("File already exists"));
    assert_eq!(fat12_read_file(&vol, "a.txt").unwrap(), b"one".to_vec());
}

#[test]
fn create_errors() {
    let mut unmounted = Fat12Volume::new(MemDisk::formatted(1, 2, 16));
    assert_eq!(fat12_create_file(&mut unmounted, "a.txt", b"x"), Err("FAT12 not initialized"));
    let mut vol = mounted(1, 2, 16);
    assert_eq!(fat12_create_file(&mut vol, "empty.txt", b""), Err("Cannot create empty file"));
    assert_eq!(fat12_create_file(&mut vol, "a.b.c", b"x"), Err("Invalid filename format"));
    assert_eq!(fat12_create_file(&mut vol, "waytoolong.txt", b"x"), Err("Filename too long"));
}

#[test]
fn disk_full() {
    let mut vol = mounted(1, 1, 16);
    let big = vec![3u8; 512 * 400];
    assert_eq!(fat12_create_file(&mut vol, "big.bin", &big), Err("No free clusters"));
}

#[test]
fn root_directory_full() {
    let mut vol = mounted(1, 2, 16);
    for i in 0..16 {
        fat12_create_file(&mut vol, &format!("f{}.txt", i), b"x").unwrap();
    }
    assert_eq!(fat12_create_file(&mut vol, "extra.txt", b"x"), Err("Root directory full"));
}

#[test]
fn unmounted_volume_lists_nothing() {
    let vol = Fat12Volume::new(MemDisk::formatted(1, 2, 16));
    assert_eq!(fat12_list_files(&vol).unwrap(), Vec::<String>::new());
    assert_eq!(fat12_read_file(&vol, "a.txt"), Err("File not found"));
    assert!(!fat12_file_exists(&vol, "a.txt"));
}

#[test]
fn unmounted_volume_needs_no_read() {
    let mut disk = MemDisk::formatted(1, 2, 16);
    disk.fail_read_from = Some(0);
    disk.fail_writes = true;
    let vol = Fat12Volume::new(disk);
    assert_eq!(fat12_list_files(&vol), Ok(Vec::<String>::new()));
    assert!(!fat12_file_exists(&vol, "a.txt"));
    assert_eq!(fat12_get_file_size(&vol, "a.txt"), None);
    assert_eq!(fat12_read_file(&vol, "a.txt"), Err("File not found"));
}

#[test]
fn mount_errors() {
    let mut vol = Fat12Volume::new(MemDisk::blank(10));
    assert_eq!(fat12_init(&mut vol), Err("Invalid boot sector signature"));
    let mut disk = MemDisk::formatted(1, 2, 16);
    disk.fail_read_from = Some(0);
    let mut vol = Fat12Volume::new(disk);
    assert_eq!(fat12_init(&mut vol), Err("Failed to read boot sector"));
    let mut disk = MemDisk::formatted(1, 2, 16);
    disk.fail_read_from = Some(2);
    let mut vol = Fat12Volume::new(disk);
    assert_eq!(fat12_init(&mut vol), Err("Failed to read FAT"));
}

#[test]
fn device_failures_are_reported() {
    let mut disk = MemDisk::formatted(1, 2, 16);
    disk.fail_writes = true;
    let mut vol = Fat12Volume::new(disk);
    fat12_init(&mut vol).unwrap();
    assert_eq!(fat12_create_file(&mut vol, "a.txt", b"x"), Err("Failed to write cluster"));
    let mut disk = MemDisk::formatted(1, 2, 16);
    disk.fail_read_from = Some(5);
    let mut vol = Fat12Volume::new(disk);
    fat12_init(&mut vol).unwrap();
    assert_eq!(fat12_list_files(&vol), Err("Failed to read root directory"));
    assert_eq!(fat12_read_file(&vol, "a.txt"), Err("Failed to read root directory"));
}

#[test]
fn file_size_limits_what_is_read() {
    let mut vol = mounted(2, 2, 16);
    fat12_create_file(&mut vol, "s.txt", b"short").unwrap();
    assert_eq!(fat12_read_file(&vol, "s.txt").unwrap(), b"short".to_vec());
    assert_eq!(fat12_get_file_size(&vol, "s.txt"), Some(5));
}

#[test]
fn cluster_image_pads_and_cuts() {
    assert_eq!(cluster_image(b"abc", 5), b"abc\0\0".to_vec());
    assert_eq!(cluster_image(b"abcdef", 4), b"abcd".to_vec());
    assert_eq!(cluster_image(b"", 2), vec![0u8, 0u8]);
}

fn put_entry(disk: &MemDisk, root_sector: usize, slot: usize, name: &[u8; 11], first_cluster: u16, size: u32) {
    let mut s = disk.sectors.borrow_mut();
    let root = &mut s[root_sector];
    let b = &mut root[slot * 32..slot * 32 + 32];
    b[..11].copy_from_slice(name);
    b[11] = 0x20;
    b[26..28].copy_from_slice(&first_cluster.to_le_bytes());
    b[28..32].copy_from_slice(&size.to_le_bytes());
}

#[test]
fn looping_chain_on_disk() {
    let disk = MemDisk::formatted(1, 2, 16);
    {
        let mut s = disk.sectors.borrow_mut();
        let f = &mut s[1];
        f[3] = 0x03;
        f[4] = 0x20;
        f[5] = 0x00;
    }
    put_entry(&disk, 5, 0, b"LOOP    BIN", 2, 100);
    let mut vol = Fat12Volume::new(disk);
    fat12_init(&mut vol).unwrap();
    assert_eq!(fat12_read_file(&vol, "loop.bin"), Err("Corrupt cluster chain"));
    fat12_delete_file(&mut vol, "loop.bin").unwrap();
    let fat = vol_disk_fat(&vol, 1, 2);
    assert_eq!(get_fat_entry(&fat, 2), 0);
    assert_eq!(get_fat_entry(&fat, 3), 0);
}

#[test]
fn chain_leaving_the_cached_table() {
    let disk = MemDisk::formatted(1, 1, 16);
    {
        let mut s = disk.sectors.borrow_mut();
        let f = &mut s[1];
        f[3] = 0xFF;
        f[4] = 0x0E;
    }
    put_entry(&disk, 3, 0, b"FAR     BIN", 2, 100);
    let mut vol = Fat12Volume::new(disk);
    fat12_init(&mut vol).unwrap();
    assert_eq!(fat12_read_file(&vol, "far.bin"), Err("Failed to read cluster"));
    assert_eq!(fat12_delete_file(&mut vol, "far.bin"), Err("Corrupt cluster chain"));
}

#[test]
fn zero_sectors_per_cluster() {
    let disk = MemDisk::formatted(0, 2, 16);
    let mut vol = Fat12Volume::new(disk);
    fat12_init(&mut vol).unwrap();
    assert_eq!(fat12_create_file(&mut vol, "a.txt", b"x"), Err("Invalid cluster size"));
}

#[test]
fn empty_file_on_disk_reads_empty() {
    let disk = MemDisk::formatted(1, 2, 16);
    put_entry(&disk, 5, 0, b"EMPTY   TXT", 0, 0);
    let mut vol = Fat12Volume::new(disk);
    fat12_init(&mut vol).unwrap();
    assert_eq!(fat12_read_file(&vol, "empty.txt").unwrap(), Vec::<u8>::new());
    assert_eq!(fat12_get_file_size(&vol, "empty.txt"), Some(0));
}
