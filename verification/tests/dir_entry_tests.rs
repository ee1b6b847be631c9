use eucalypt::dir_entry::DirectoryEntry;

fn raw_entry(name: &[u8; 11], attributes: u8) -> DirectoryEntry {
    let mut b = [0u8; 32];
    b[..11].copy_from_slice(name);
    b[11] = attributes;
    DirectoryEntry::from_bytes(&b)
}

#[test]
fn new_file_stores_padded_upper_name() {
    let e = DirectoryEntry::new_file("hello.txt", 5, 12).unwrap();
    assert_eq!(&e.name, b"HELLO   TXT");
    assert_eq!(e.attributes, 0x20);
    assert_eq!(e.first_cluster, 5);
    assert_eq!(e.file_size, 12);
    assert_eq!(e.get_name().unwrap(), "HELLO.TXT");
}

#[test]
fn name_without_extension() {
    let e = DirectoryEntry::new_file("readme", 2, 1).unwrap();
    assert_eq!(&e.name, b"README     ");
    assert_eq!(e.get_name().unwrap(), "README");
}

#[test]
fn name_roundtrip_law_example() {
    let e = DirectoryEntry::new_file("data.bin", 3, 7).unwrap();
    assert_eq!(e.get_name().unwrap(), "DATA.BIN");
    let e = DirectoryEntry::new_file("A.B", 3, 7).unwrap();
    assert_eq!(e.get_name().unwrap(), "A.B");
}

#[test]
fn trailing_dot_gives_no_extension() {
    let e = DirectoryEntry::new_file("abc.", 3, 7).unwrap();
    assert_eq!(&e.name, b"ABC        ");
    assert_eq!(e.get_name().unwrap(), "ABC");
}

#[test]
fn two_dots_are_refused() {
    assert_eq!(DirectoryEntry::new_file("a.b.c", 2, 1).unwrap_err(), "Invalid filename format");
}

#[test]
fn long_parts_are_refused() {
    assert_eq!(DirectoryEntry::new_file("toolongname.txt", 2, 1).unwrap_err(), "Filename too long");
    assert_eq!(DirectoryEntry::new_file("abc.text", 2, 1).unwrap_err(), "Filename too long");
    assert!(DirectoryEntry::new_file("eightchr.txt", 2, 1).is_ok());
}

#[test]
fn set_name_failure_keeps_entry() {
    let mut e = DirectoryEntry::new_file("keep.me", 2, 1).unwrap();
    assert_eq!(e.set_name("x.y.z"), Err("Invalid filename format"));
    assert_eq!(&e.name, b"KEEP    ME ");
    assert_eq!(e.set_name("new.c"), Ok(()));
    assert_eq!(&e.name, b"NEW     C  ");
    assert_eq!(e.first_cluster, 2);
}

#[test]
fn flags_of_entries() {
    let unused = raw_entry(&[0u8; 11], 0);
    assert!(unused.is_empty());
    assert_eq!(unused.get_name(), Err("Invalid entry"));
    let mut deleted_name = *b"FILE    TXT";
    deleted_name[0] = 0xE5;
    let deleted = raw_entry(&deleted_name, 0x20);
    assert!(deleted.is_deleted());
    assert_eq!(deleted.get_name(), Err("Invalid entry"));
    let lfn = raw_entry(b"FILE    TXT", 0x0F);
    assert!(lfn.is_lfn());
    assert_eq!(lfn.get_name(), Err("Invalid entry"));
    let label = raw_entry(b"MYDISK     ", 0x08);
    assert!(label.is_volume_id());
    assert_eq!(label.get_name(), Err("Invalid entry"));
    let dir = raw_entry(b"SUBDIR     ", 0x10);
    assert!(dir.is_directory());
    assert!(!dir.is_volume_id());
    assert_eq!(dir.get_name().unwrap(), "SUBDIR");
}

#[test]
fn name_with_inner_space_and_gap_in_extension() {
    let e = raw_entry(b"AB CD   X Y", 0x20);
    assert_eq!(e.get_name().unwrap(), "AB.XY");
}

#[test]
fn latin1_bytes_show_as_characters() {
    let e = raw_entry(b"\xC9T\xC9     TXT", 0x20);
    assert_eq!(e.get_name().unwrap(), "\u{C9}T\u{C9}.TXT");
}

#[test]
fn entry_bytes_roundtrip() {
    let mut b = [0u8; 32];
    for (i, x) in b.iter_mut().enumerate() {
        *x = (i as u8).wrapping_mul(37).wrapping_add(1);
    }
    let e = DirectoryEntry::from_bytes(&b);
    assert_eq!(e.to_bytes(), b.to_vec());
    let e2 = DirectoryEntry::new_file("x.y", 0x1234, 0xDEADBEEF).unwrap();
    let bytes = e2.to_bytes();
    assert_eq!(bytes.len(), 32);
    assert_eq!(&bytes[26..28], &[0x34, 0x12]);
    assert_eq!(&bytes[28..32], &[0xEF, 0xBE, 0xAD, 0xDE]);
    let back = DirectoryEntry::from_bytes(&bytes);
    assert_eq!(back.to_bytes(), bytes);
    assert_eq!(back.first_cluster, 0x1234);
    assert_eq!(back.file_size, 0xDEADBEEF);
}
