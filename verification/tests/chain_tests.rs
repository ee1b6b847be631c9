use eucalypt::chain::{allocate_cluster, allocate_clusters, file_clusters, find_free_cluster, free_cluster_chain, link_clusters};
use eucalypt::fat_table::{get_fat_entry, set_fat_entry};

fn table(entries: &[(u16, u16)], len: usize) -> Vec<u8> {
    let mut fat = vec![0u8; len];
    for &(c, v) in entries {
        set_fat_entry(&mut fat, c, v);
    }
    fat
}

#[test]
fn follows_a_chain_to_its_end() {
    let fat = table(&[(2, 5), (5, 3), (3, 0xFFF)], 64);
    assert_eq!(file_clusters(&fat, 2).unwrap(), vec![2, 5, 3]);
    assert_eq!(file_clusters(&fat, 0).unwrap(), Vec::<u16>::new());
    assert_eq!(file_clusters(&fat, 0xFF7).unwrap(), Vec::<u16>::new());
}

#[test]
fn chain_ending_in_free_or_bad_value_stops() {
    let fat = table(&[(2, 4), (4, 0)], 64);
    assert_eq!(file_clusters(&fat, 2).unwrap(), vec![2, 4]);
    let fat = table(&[(2, 0xFF7)], 64);
    assert_eq!(file_clusters(&fat, 2).unwrap(), vec![2]);
}

#[test]
fn looping_chain_is_reported() {
    let fat = table(&[(2, 3), (3, 2)], 64);
    assert_eq!(file_clusters(&fat, 2), Err("Corrupt cluster chain"));
}

#[test]
fn chain_leaving_the_table_is_reported() {
    let fat = table(&[(2, 200)], 64);
    assert_eq!(file_clusters(&fat, 2), Err("Corrupt cluster chain"));
}

#[test]
fn freeing_a_chain_frees_exactly_its_clusters() {
    let mut fat = table(&[(2, 5), (5, 3), (3, 0xFFF), (4, 0xFFF)], 64);
    assert!(free_cluster_chain(&mut fat, 2));
    assert_eq!(get_fat_entry(&fat, 2), 0);
    assert_eq!(get_fat_entry(&fat, 3), 0);
    assert_eq!(get_fat_entry(&fat, 5), 0);
    assert_eq!(get_fat_entry(&fat, 4), 0xFFF);
}

#[test]
fn freeing_a_looping_chain_ends() {
    let mut fat = table(&[(2, 3), (3, 2)], 64);
    assert!(free_cluster_chain(&mut fat, 2));
    assert_eq!(get_fat_entry(&fat, 2), 0);
    assert_eq!(get_fat_entry(&fat, 3), 0);
}

#[test]
fn free_cluster_scan() {
    let fat = table(&[(2, 0xFFF), (3, 0xFFF)], 64);
    assert_eq!(find_free_cluster(&fat), Some(4));
    let mut full = vec![0xFFu8; 9];
    assert_eq!(find_free_cluster(&full), None);
    assert_eq!(allocate_cluster(&mut full), Err("No free clusters"));
    assert_eq!(full, vec![0xFFu8; 9]);
}

#[test]
fn allocation_takes_distinct_clusters_and_links_them() {
    let mut fat = table(&[(3, 0xFFF)], 64);
    let cs = allocate_clusters(&mut fat, 3).unwrap();
    assert_eq!(cs, vec![2, 4, 5]);
    for &c in &cs {
        assert_eq!(get_fat_entry(&fat, c), 0xFF8);
    }
    link_clusters(&mut fat, &cs);
    assert_eq!(get_fat_entry(&fat, 2), 4);
    assert_eq!(get_fat_entry(&fat, 4), 5);
    assert_eq!(get_fat_entry(&fat, 5), 0xFF8);
    assert_eq!(file_clusters(&fat, 2).unwrap(), cs);
}

#[test]
fn allocation_running_out_keeps_what_it_took() {
    let mut fat = vec![0xFFu8; 9];
    set_fat_entry(&mut fat, 4, 0);
    assert_eq!(allocate_clusters(&mut fat, 2), Err("No free clusters"));
    assert_eq!(get_fat_entry(&fat, 4), 0xFF8);
}
