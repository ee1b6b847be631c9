use eucalypt::dir_entry::DirectoryEntry;
use eucalypt::root_dir::{find_entry_index, parse_root_directory, serialize_root_directory};

fn rec(name: &[u8; 11], attr: u8) -> Vec<u8> {
    let mut b = vec![0u8; 32];
    b[..11].copy_from_slice(name);
    b[11] = attr;
    b
}

#[test]
fn listing_skips_hidden_slots_and_stops_at_unused() {
    let mut data = Vec::new();
    data.extend(rec(b"VOLUME     ", 0x08));
    data.extend(rec(b"A       TXT", 0x20));
    let mut del = rec(b"B       TXT", 0x20);
    del[0] = 0xE5;
    data.extend(del);
    data.extend(rec(b"LONGNAMEFRG", 0x0F));
    data.extend(rec(b"C       BIN", 0x20));
    data.extend(vec![0u8; 32]);
    data.extend(rec(b"D       TXT", 0x20));
    let es = parse_root_directory(&data, 16);
    let names: Vec<String> = es.iter().map(|e| e.get_name().unwrap()).collect();
    assert_eq!(names, vec!["A.TXT".to_string(), "C.BIN".to_string()]);
}

#[test]
fn listing_respects_entry_count_and_region_end() {
    let mut data = Vec::new();
    data.extend(rec(b"A       TXT", 0x20));
    data.extend(rec(b"B       TXT", 0x20));
    data.extend(rec(b"C       TXT", 0x20));
    assert_eq!(parse_root_directory(&data, 2).len(), 2);
    assert_eq!(parse_root_directory(&data, 100).len(), 3);
    assert_eq!(parse_root_directory(&data[..40], 100).len(), 1);
}

#[test]
fn root_directory_roundtrip() {
    let es = vec![
        DirectoryEntry::new_file("one.txt", 2, 10).unwrap(),
        DirectoryEntry::new_file("two", 3, 20).unwrap(),
    ];
    let region = serialize_root_directory(&es, 512).unwrap();
    assert_eq!(region.len(), 512);
    assert!(region[64..].iter().all(|&b| b == 0));
    let back = parse_root_directory(&region, 16);
    assert_eq!(back.len(), 2);
    assert_eq!(back[0].to_bytes(), es[0].to_bytes());
    assert_eq!(back[1].to_bytes(), es[1].to_bytes());
}

#[test]
fn region_too_small() {
    let es = vec![DirectoryEntry::new_file("one.txt", 2, 10).unwrap(); 3];
    assert!(serialize_root_directory(&es, 64).is_none());
    assert!(serialize_root_directory(&es, 96).is_some());
}

#[test]
fn lookup_ignores_case() {
    let es = vec![
        DirectoryEntry::new_file("one.txt", 2, 10).unwrap(),
        DirectoryEntry::new_file("two.txt", 3, 20).unwrap(),
        DirectoryEntry::new_file("TWO.TXT", 4, 30).unwrap(),
    ];
    assert_eq!(find_entry_index(&es, "two.txt"), Some(1));
    assert_eq!(find_entry_index(&es, "Two.Txt"), Some(1));
    assert_eq!(find_entry_index(&es, "ONE.TXT"), Some(0));
    assert_eq!(find_entry_index(&es, "three.txt"), None);
    assert_eq!(find_entry_index(&es, "one"), None);
}

#[test]
fn lookup_uses_unicode_upper_case() {
    let mut b = rec(b"\xE9T\xC9     TXT", 0x20);
    b[0] = 0xE9;
    let e = DirectoryEntry::from_bytes(&b);
    let es = vec![e];
    assert_eq!(find_entry_index(&es, "\u{C9}t\u{E9}.txt"), Some(0));
}
