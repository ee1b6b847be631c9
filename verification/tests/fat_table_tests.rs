use eucalypt::fat_table::{get_fat_entry, set_fat_entry, FAT12_EOF};

#[test]
fn even_and_odd_entries_share_a_byte() {
    let mut fat = vec![0u8; 12];
    set_fat_entry(&mut fat, 2, 0xABC);
    set_fat_entry(&mut fat, 3, 0x123);
    assert_eq!(&fat[3..6], &[0xBC, 0x3A, 0x12]);
    assert_eq!(get_fat_entry(&fat, 2), 0xABC);
    assert_eq!(get_fat_entry(&fat, 3), 0x123);
}

#[test]
fn write_keeps_neighbours() {
    let mut fat = vec![0xFFu8; 12];
    set_fat_entry(&mut fat, 4, 0x000);
    assert_eq!(get_fat_entry(&fat, 3), 0xFFF);
    assert_eq!(get_fat_entry(&fat, 4), 0x000);
    assert_eq!(get_fat_entry(&fat, 5), 0xFFF);
    set_fat_entry(&mut fat, 5, 0x456);
    assert_eq!(get_fat_entry(&fat, 4), 0x000);
    assert_eq!(get_fat_entry(&fat, 5), 0x456);
}

#[test]
fn only_low_twelve_bits_are_stored() {
    let mut fat = vec![0u8; 12];
    set_fat_entry(&mut fat, 2, 0xF123);
    assert_eq!(get_fat_entry(&fat, 2), 0x123);
    set_fat_entry(&mut fat, 3, FAT12_EOF);
    assert_eq!(get_fat_entry(&fat, 3), 0xFF8);
}

#[test]
fn media_descriptor_entries() {
    let fat = vec![0xF0u8, 0xFF, 0xFF, 0, 0, 0];
    assert_eq!(get_fat_entry(&fat, 0), 0xFF0);
    assert_eq!(get_fat_entry(&fat, 1), 0xFFF);
    assert_eq!(get_fat_entry(&fat, 2), 0);
}
