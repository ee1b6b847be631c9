use std::cell::RefCell;
use eucalypt::elf::has_elf_magic;
use eucalypt::text::{latin1_string, to_ascii_uppercase};
use eucalypt::storage::SectorMap;
use eucalypt::{zero_blocks, StorageDriver};

struct Recorder {
    writes: RefCell<Vec<(u64, Vec<u8>)>>,
    fail_at: Option<u64>,
}

impl StorageDriver for Recorder {
    fn sectors(&self) -> SectorMap {
        panic!("the sector model exists only in proofs")
    }

    fn read_sector(&self, _lba: u64, _buffer: &mut [u8]) -> bool {
        false
    }

    fn write_sector(&mut self, lba: u64, data: &[u8]) -> bool {
        if self.fail_at == Some(lba) {
            return false;
        }
        self.writes.borrow_mut().push((lba, data.to_vec()));
        true
    }
}

#[test]
fn zeroing_blocks_writes_zero_sectors() {
    let mut r = Recorder { writes: RefCell::new(Vec::new()), fail_at: None };
    assert!(zero_blocks(&mut r, 3, 2, 1024));
    let w = r.writes.borrow();
    let lbas: Vec<u64> = w.iter().map(|(l, _)| *l).collect();
    assert_eq!(lbas, vec![6, 7, 8, 9]);
    assert!(w.iter().all(|(_, d)| d.len() == 512 && d.iter().all(|&b| b == 0)));
}

#[test]
fn zeroing_stops_at_a_failed_write() {
    let mut r = Recorder { writes: RefCell::new(Vec::new()), fail_at: Some(7) };
    assert!(!zero_blocks(&mut r, 3, 2, 1024));
    assert_eq!(r.writes.borrow().len(), 1);
}

#[test]
fn elf_magic() {
    assert!(has_elf_magic(b"\x7fELF\x02\x01"));
    assert!(has_elf_magic(b"\x7fELF"));
    assert!(!has_elf_magic(b"\x7fEL"));
    assert!(!has_elf_magic(b"Hello, World"));
    assert!(!has_elf_magic(b""));
}

#[test]
fn ascii_case() {
    assert_eq!(to_ascii_uppercase(b'a'), b'A');
    assert_eq!(to_ascii_uppercase(b'z'), b'Z');
    assert_eq!(to_ascii_uppercase(b'A'), b'A');
    assert_eq!(to_ascii_uppercase(b'.'), b'.');
    assert_eq!(to_ascii_uppercase(0xE9), 0xE9);
}

#[test]
fn latin1_text() {
    assert_eq!(latin1_string(&vec![b'A', 0xE9, b'1']), "A\u{E9}1");
    assert_eq!(latin1_string(&Vec::new()), "");
}

#[test]
fn zeroing_reaches_the_last_sector() {
    let mut r = Recorder { writes: RefCell::new(Vec::new()), fail_at: None };
    assert!(zero_blocks(&mut r, u64::MAX, 1, 512));
    assert_eq!(r.writes.borrow().len(), 1);
    assert_eq!(r.writes.borrow()[0].0, u64::MAX);
}
