//! A FAT12 volume on a sector driver: mounting it, and reading, creating,
//! deleting and listing the files of its root directory.
use vstd::prelude::*;
use crate::storage::{StorageDriver, region_bytes, region_present, put_region, put_blocks, same_outside, block,
    lemma_put_blocks, lemma_failed_step, lemma_region_same, law_region_read_after_write};
use crate::dir_entry::{DirectoryEntry, law_entry_bytes_determine_entry};
use crate::root_dir::{lemma_listed_len, listed_entries, entry_records, first_match, parse_root_directory, find_entry_index,
    serialize_root_directory, decoded_entries, lemma_decode_records, root_region, lemma_listed_decoded, lemma_first_match_push,
    law_root_directory_roundtrip, lemma_entries_bytes_len, listable, name_matches, listing_from,
    law_root_directory_listing, lemma_first_match_alike, slot, slot_limit, decoded_entry, law_listing_keeps_slot};
use crate::chain::{file_chain, chain_from, data_cluster, prepend, CHAIN_LIMIT, freed_chain, free_cluster_chain,
    allocated, linked, allocate_clusters, link_clusters, lemma_allocated_in_table, law_allocation_distinct,
    law_created_chain_followed};
use crate::dir_entry::{stored_name, shown_name_bytes, SLOT_DELETED, SLOT_UNUSED};
use crate::text::{latin1, unicode_uppercase, upper_known, ascii_chars, ascii_upper_chars};
use vstd::string::StringSliceAdditionalSpecFns;
use crate::fat_table::{get_fat_entry, FAT12_BAD_CLUSTER};
use crate::boot_sector::{BiosParameterBlock, Fat12Geometry, SECTOR_SIZE, BPB_SIZE, boot_sector_verdict,
    check_boot_sector, lemma_geometry_bounds};

verus! {

/// The mounted state of a FAT12 volume: the drive, the parameter block and
/// layout read at mount time, and the cached allocation table.
pub struct Fat12Volume<D: StorageDriver> {
    drive: D,
    state: MountState,
}

/// The disk after `k` copies of the table are written, copy `i` from sector
/// `start + i size` on.
pub open spec fn with_fat_copies(disk: Map<u64, Seq<u8>>, start: int, size: int, fat: Seq<u8>, k: int) -> Map<u64, Seq<u8>>
    decreases k,
{
    if k <= 0 {
        disk
    } else {
        put_region(with_fat_copies(disk, start, size, fat, k - 1), start + (k - 1) * size, fat)
    }
}

/// What mounting a volume reads from it.
struct MountState {
    initialized: bool,
    bpb: BiosParameterBlock,
    geometry: Fat12Geometry,
    fat_cache: Vec<u8>,
}

/// The layout of a volume that was never mounted: everything at sector 0.
pub open spec fn no_geometry() -> Fat12Geometry {
    Fat12Geometry { fat_start_sector: 0, root_dir_sectors: 0, root_dir_start_sector: 0, data_start_sector: 0 }
}

impl MountState {
    /// The state of a volume that was never mounted: everything zero.
    fn unmounted() -> (st: MountState)
        ensures
            !st.initialized,
            st.bpb.zeroed(),
            st.bpb.bytes_per_sector == 0 && st.bpb.sectors_per_cluster == 0 && st.bpb.fat_size_16 == 0
                && st.bpb.num_fats == 0 && st.bpb.root_entry_count == 0,
            st.geometry == no_geometry(),
            st.fat_cache@ == Seq::<u8>::empty(),
    {
        MountState {
            initialized: false,
            bpb: BiosParameterBlock::zero(),
            geometry: Fat12Geometry { fat_start_sector: 0, root_dir_sectors: 0, root_dir_start_sector: 0, data_start_sector: 0 },
            fat_cache: Vec::new(),
        }
    }
}

impl MountState {
    /// The cache holds the whole first table, the layout is the one the
    /// parameter block gives once mounted, and everything is zero before.
    #[verifier::type_invariant]
    spec fn well_formed(self) -> bool {
        &&& self.fat_cache@.len() == self.bpb.fat_size_16 * SECTOR_SIZE
        &&& self.initialized ==> self.bpb.bytes_per_sector != 0 && self.geometry == self.bpb.geometry()
        &&& !self.initialized ==> self.bpb.zeroed() && self.geometry == no_geometry()
            && self.bpb.bytes_per_sector == 0 && self.bpb.sectors_per_cluster == 0 && self.bpb.fat_size_16 == 0
            && self.bpb.num_fats == 0 && self.bpb.root_entry_count == 0
    }
}

impl<D: StorageDriver> Fat12Volume<D> {
    /// The mount state is well formed.
    pub closed spec fn inv(self) -> bool {
        self.state.well_formed()
    }

    /// The drive the volume lives on.
    pub closed spec fn drive(self) -> D {
        self.drive
    }

    /// fat12_init has succeeded on the volume.
    pub closed spec fn initialized(self) -> bool {
        self.state.initialized
    }

    /// The parameter block read at mount time (all zero before).
    pub closed spec fn bpb(self) -> BiosParameterBlock {
        self.state.bpb
    }

    /// The layout derived at mount time (all zero before).
    pub closed spec fn geometry(self) -> Fat12Geometry {
        self.state.geometry
    }

    /// The cached allocation table.
    pub closed spec fn fat(self) -> Seq<u8> {
        self.state.fat_cache@
    }

    /// Bytes of the root directory region.
    pub open spec fn root_size(self) -> int {
        self.geometry().root_dir_sectors * SECTOR_SIZE
    }

    /// Bytes in one cluster.
    pub open spec fn cluster_size(self) -> int {
        self.bpb().sectors_per_cluster * SECTOR_SIZE
    }

    /// What the drive holds, sector by sector.
    pub open spec fn disk(self) -> Map<u64, Seq<u8>> {
        self.drive().sectors()
    }

    /// The first sector of a data cluster.
    pub open spec fn cluster_start(self, c: int) -> int {
        self.geometry().data_start_sector + (c - 2) * self.bpb().sectors_per_cluster
    }

    /// The bytes a data cluster holds on the drive.
    pub open spec fn cluster_data(self, c: int) -> Seq<u8> {
        region_bytes(self.disk(), self.cluster_start(c), self.bpb().sectors_per_cluster as int)
    }

    /// The bytes of the root directory region on the drive.
    pub open spec fn root_bytes(self) -> Seq<u8> {
        region_bytes(self.disk(), self.geometry().root_dir_start_sector as int, self.geometry().root_dir_sectors as int)
    }

    /// The entries the root directory region on the drive lists.
    pub open spec fn root_entries(self) -> Seq<DirectoryEntry> {
        decoded_entries(listed_entries(self.root_bytes(), self.bpb().root_entry_count as int))
    }

    /// The first root directory entry whose name matches the file name.
    pub open spec fn looked_up(self, filename: Seq<char>) -> Option<DirectoryEntry> {
        match first_match(self.root_entries(), filename) {
            Some(i) => Some(self.root_entries()[i]),
            None => None,
        }
    }

    /// What the drive holds in each cluster of the list, in order.
    pub open spec fn chain_data(self, cs: Seq<u16>) -> Seq<Seq<u8>> {
        cs.map_values(|c: u16| self.cluster_data(c as int))
    }

    /// What reading the file of entry `e` gives: nothing for an empty file;
    /// else the clusters of its chain one after the other, cut to the file
    /// size; none where the chain is broken.
    pub open spec fn file_content(self, e: DirectoryEntry) -> Option<Seq<u8>> {
        if e.file_size == 0 {
            Some(seq![])
        } else {
            match file_chain(self.fat(), e.first_cluster as int) {
                Some(cs) => Some(file_bytes(self.chain_data(cs), e.file_size as int)),
                None => None,
            }
        }
    }

    /// What reading the file of that name gives, if it is there and its
    /// chain is whole.
    pub open spec fn read_back(self, filename: Seq<char>) -> Option<Seq<u8>> {
        match self.looked_up(filename) {
            Some(e) => self.file_content(e),
            None => None,
        }
    }

    /// How many copies of the table a flush writes: one per FAT, and the
    /// first one always.
    pub open spec fn fat_copies(self) -> int {
        if self.bpb().num_fats < 1 {
            1
        } else {
            self.bpb().num_fats as int
        }
    }

    /// The disk after the cached table is flushed over it.
    pub open spec fn flushed(self, disk: Map<u64, Seq<u8>>) -> Map<u64, Seq<u8>> {
        with_fat_copies(disk, self.geometry().fat_start_sector as int, self.bpb().fat_size_16 as int, self.fat(),
            self.fat_copies())
    }

    /// `after` is what a flush of the table over `before` that failed with
    /// message `m` left: a failed write of the first copy changed no sector
    /// outside that copy; a failed write of backup copy `k` came after the
    /// copies before it were written, and changed no sector outside copy `k`.
    pub open spec fn flush_failure(self, before: Map<u64, Seq<u8>>, after: Map<u64, Seq<u8>>, m: &str) -> bool {
        let fs = self.geometry().fat_start_sector as int;
        let fz = self.bpb().fat_size_16 as int;
        ||| m == "Failed to write FAT" && same_outside(after, before, fs, fz)
        ||| m == "Failed to write backup FAT" && exists|k: int| 1 <= k < self.fat_copies()
            && same_outside(after, #[trigger] with_fat_copies(before, fs, fz, self.fat(), k), fs + k * fz, fz)
    }

    /// The mount state (not the drive's contents nor the table) is as in
    /// `other`.
    pub open spec fn same_mount(self, other: Fat12Volume<D>) -> bool {
        &&& self.initialized() == other.initialized()
        &&& self.bpb() == other.bpb()
        &&& self.geometry() == other.geometry()
    }

    /// A volume on the drive that is not mounted yet.
    pub fn new(drive: D) -> (vol: Self)
        ensures
            vol.drive() == drive,
            !vol.initialized(),
            vol.bpb().zeroed(),
            vol.geometry() == no_geometry(),
            vol.fat() == Seq::<u8>::empty(),
            vol.inv(),
    {
        Fat12Volume { drive, state: MountState::unmounted() }
    }

    /// Bytes in one cluster (zero before mounting).
    pub fn cluster_bytes(&self) -> (n: usize)
        ensures
            n == self.cluster_size(),
    {
        self.state.bpb.sectors_per_cluster as usize * 512
    }

    /// The drive the volume lives on.
    pub fn device(&self) -> (d: &D)
        ensures
            *d == self.drive(),
    {
        &self.drive
    }

    proof fn lemma_bounds(self)
        requires
            self.inv(),
        ensures
            self.geometry().root_dir_sectors <= 2162654,
            self.geometry().root_dir_start_sector <= 16776960,
            self.geometry().data_start_sector <= 18939614,
            self.geometry().fat_start_sector <= 65535,
            self.fat().len() == self.bpb().fat_size_16 * SECTOR_SIZE,
            self.geometry().root_dir_start_sector == self.geometry().fat_start_sector + self.bpb().num_fats * self.bpb().fat_size_16,
            self.geometry().data_start_sector == self.geometry().root_dir_start_sector + self.geometry().root_dir_sectors,
            self.initialized() ==> self.geometry() == self.bpb().geometry() && self.bpb().bytes_per_sector != 0,
            !self.initialized() ==> self.geometry() == no_geometry() && self.bpb().sectors_per_cluster == 0
                && self.bpb().num_fats == 0 && self.bpb().fat_size_16 == 0 && self.bpb().root_entry_count == 0,
    {
        if self.state.initialized {
            lemma_geometry_bounds(self.state.bpb);
        }
    }
}

/// Reads `count` sectors from `start` on, one after the other; nothing where
/// a read fails, so never where there is no sector to read.
fn read_region<D: StorageDriver>(drive: &D, start: u64, count: u64) -> (r: Option<Vec<u8>>)
    requires
        start + count <= u64::MAX,
        count * 512 <= usize::MAX,
    ensures
        r matches Some(v) ==> v@ == region_bytes(drive.sectors(), start as int, count as int) && v@.len() == count * 512
            && region_present(drive.sectors(), start as int, count as int),
        r is None ==> count > 0,
{
    let mut data: Vec<u8> = Vec::new();
    let mut i: u64 = 0;
    while i < count
        invariant
            i <= count,
            start + count <= u64::MAX,
            count * 512 <= usize::MAX,
            data@.len() == i * 512,
            data@ == region_bytes(drive.sectors(), start as int, i as int),
            region_present(drive.sectors(), start as int, i as int),
        decreases count - i,
    {
        let mut sector: Vec<u8> = vec![0u8; 512];
        if !drive.read_sector(start + i, sector.as_mut_slice()) {
            return None;
        }
        data.append(&mut sector);
        i = i + 1;
    }
    Some(data)
}

/// Writes the bytes as consecutive sectors from `start` on, sector `i`
/// taking bytes `512 i .. 512 (i + 1)`; false at the first write that fails,
/// so never where there are no bytes to write.
fn write_region<D: StorageDriver>(drive: &mut D, start: u64, data: &[u8]) -> (ok: bool)
    requires
        data@.len() % 512 == 0,
        start + data@.len() / 512 <= u64::MAX,
    ensures
        ok ==> final(drive).sectors() == put_region(old(drive).sectors(), start as int, data@),
        !ok ==> data@.len() > 0 && same_outside(final(drive).sectors(), old(drive).sectors(), start as int,
            (data@.len() / 512) as int),
{
    let ghost before = drive.sectors();
    let count = data.len() / 512;
    let mut i: usize = 0;
    while i < count
        invariant
            i <= count,
            count == data@.len() / 512,
            data@.len() % 512 == 0,
            start + count <= u64::MAX,
            before == old(drive).sectors(),
            drive.sectors() == put_blocks(before, start as int, data@, i as int),
        decreases count - i,
    {
        let len = data.len();
        assert((i + 1) * 512 <= len) by (nonlinear_arith)
            requires i < count, count == len / 512, len % 512 == 0;
        let off = i * 512;
        let end = off + 512;
        let ghost mid = drive.sectors();
        assert(data@.subrange(off as int, end as int) == block(data@, i as int));
        if !drive.write_sector(start + i as u64, &data[off..end]) {
            proof {
                lemma_put_blocks(before, start as int, data@, i as int);
                lemma_failed_step(before, mid, drive.sectors(), start as int, i as int, count as int);
            }
            return false;
        }
        i = i + 1;
    }
    true
}

/// Mounts the FAT12 volume: reads the boot sector (sector 0), checks its
/// signature and type, derives the layout, and reads the first allocation
/// table, from the layout's first FAT sector on, into the cache. On any
/// failure the volume is left as it was.
pub fn fat12_init<D: StorageDriver>(vol: &mut Fat12Volume<D>) -> (r: Result<(), &'static str>)
    ensures
        final(vol).drive() == old(vol).drive(),
        final(vol).inv(),
        match r {
            Ok(()) => {
                &&& final(vol).initialized()
                &&& final(vol).geometry() == final(vol).bpb().geometry()
                &&& old(vol).disk().contains_key(0)
                &&& boot_sector_verdict(old(vol).disk()[0]) is Ok
                &&& old(vol).disk()[0].subrange(0, BPB_SIZE as int) == final(vol).bpb().bytes()
                &&& final(vol).fat() == region_bytes(old(vol).disk(), final(vol).geometry().fat_start_sector as int,
                    final(vol).bpb().fat_size_16 as int)
            },
            Err(m) => {
                &&& *final(vol) == *old(vol)
                &&& {
                    ||| m == "Failed to read boot sector"
                    ||| old(vol).disk().contains_key(0) && boot_sector_verdict(old(vol).disk()[0]) == Err::<(), &'static str>(m)
                    ||| m == "Failed to read FAT" && old(vol).disk().contains_key(0)
                        && boot_sector_verdict(old(vol).disk()[0]) is Ok
                }
            },
        },
{
    proof {
        use_type_invariant(&vol.state);
    }
    let mut boot_sector: Vec<u8> = vec![0u8; SECTOR_SIZE];
    if !vol.drive.read_sector(0, boot_sector.as_mut_slice()) {
        return Err("Failed to read boot sector");
    }
    let bpb = match check_boot_sector(boot_sector.as_slice()) {
        Ok(b) => b,
        Err(m) => {
            assert(boot_sector_verdict(boot_sector@) == Err::<(), &'static str>(m));
            return Err(m);
        },
    };
    let geometry = bpb.compute_geometry();
    proof {
        lemma_geometry_bounds(bpb);
    }
    let fat_cache = match read_region(&vol.drive, geometry.fat_start_sector, bpb.fat_size_16 as u64) {
        Some(v) => v,
        None => return Err("Failed to read FAT"),
    };
    assert(boot_sector@.subrange(0, BPB_SIZE as int) == bpb.bytes());
    vol.state = MountState { initialized: true, bpb, geometry, fat_cache };
    proof {
        use_type_invariant(&vol.state);
    }
    Ok(())
}

/// Blocks of bytes, one after the other.
pub open spec fn concat_blocks(blocks: Seq<Seq<u8>>) -> Seq<u8>
    decreases blocks.len(),
{
    if blocks.len() == 0 {
        seq![]
    } else {
        concat_blocks(blocks.drop_last()) + blocks.last()
    }
}

/// The first `size` bytes of the blocks, or all of them where there are fewer.
pub open spec fn file_bytes(blocks: Seq<Seq<u8>>, size: int) -> Seq<u8> {
    let all = concat_blocks(blocks);
    if size < all.len() {
        all.subrange(0, size)
    } else {
        all
    }
}

/// The shown names of the named entries, in order.
pub open spec fn names_of(es: Seq<DirectoryEntry>) -> Seq<Seq<char>>
    decreases es.len(),
{
    if es.len() == 0 {
        seq![]
    } else if es.last().named() {
        names_of(es.drop_last()).push(es.last().shown_name())
    } else {
        names_of(es.drop_last())
    }
}

/// The characters of each string.
pub open spec fn string_views(v: Seq<String>) -> Seq<Seq<char>> {
    v.map_values(|s: String| s@)
}

/// Reads the root directory region, its sectors from the layout's first root
/// directory sector on, and lists its entries.
fn read_root_entries<D: StorageDriver>(vol: &Fat12Volume<D>) -> (r: Result<Vec<DirectoryEntry>, &'static str>)
    ensures
        match r {
            Ok(es) => es@ == vol.root_entries() && 32 * es@.len() <= vol.root_size(),
            Err(m) => m == "Failed to read root directory" && vol.root_size() > 0,
        },
{
    proof {
        use_type_invariant(&vol.state);
        vol.lemma_bounds();
    }
    let data = match read_region(&vol.drive, vol.state.geometry.root_dir_start_sector, vol.state.geometry.root_dir_sectors as u64) {
        Some(d) => d,
        None => return Err("Failed to read root directory"),
    };
    let es = parse_root_directory(data.as_slice(), vol.state.bpb.root_entry_count as usize);
    assert(listed_entries(data@, vol.bpb().root_entry_count as int) == entry_records(es@));
    proof {
        lemma_decode_records(es@);
        lemma_listed_len(data@, vol.bpb().root_entry_count as int, 0);
        assert(entry_records(es@).len() == es@.len());
        let dl = data@.len() as int;
        assert(32 * (dl / 32) <= dl) by (nonlinear_arith)
            requires dl >= 0;
    }
    Ok(es)
}

/// The first root directory entry whose name matches the file name.
fn find_file_entry<D: StorageDriver>(vol: &Fat12Volume<D>, filename: &str) -> (r: Result<DirectoryEntry, &'static str>)
    ensures
        match r {
            Ok(e) => vol.looked_up(filename@) == Some(e),
            Err(m) => m == "File not found" && vol.looked_up(filename@) is None
                || m == "Failed to read root directory" && vol.root_size() > 0,
        },
        vol.root_size() == 0 ==> r == Err::<DirectoryEntry, &'static str>("File not found"),
        r != Err::<DirectoryEntry, &'static str>("Failed to read root directory") ==> upper_known(filename@),
{
    let entries = read_root_entries(vol)?;
    match find_entry_index(&entries, filename) {
        Some(i) => Ok(entries[i]),
        None => Err("File not found"),
    }
}

/// Reads one cluster: its sectors one after the other, from the first sector
/// of the data region plus (cluster - 2) times the sectors per cluster.
fn read_cluster<D: StorageDriver>(vol: &Fat12Volume<D>, cluster: u16) -> (r: Result<Vec<u8>, &'static str>)
    requires
        data_cluster(cluster as int),
    ensures
        match r {
            Ok(d) => d@ == vol.cluster_data(cluster as int) && d@.len() == vol.cluster_size(),
            Err(m) => m == "Failed to read cluster" && vol.cluster_size() > 0,
        },
{
    proof {
        use_type_invariant(&vol.state);
        vol.lemma_bounds();
    }
    let spc = vol.state.bpb.sectors_per_cluster as u64;
    assert((cluster as u64 - 2) * spc <= 4095 * 255) by (nonlinear_arith)
        requires cluster < 4096, cluster >= 2, spc <= 255;
    let sector = vol.state.geometry.data_start_sector + (cluster as u64 - 2) * spc;
    match read_region(&vol.drive, sector, spc) {
        Some(d) => Ok(d),
        None => Err("Failed to read cluster"),
    }
}

/// Reads a file of the root directory by name: walks its chain, reading
/// each cluster as it comes to it, and cuts the bytes to the file size. A
/// chain that leaves the table or runs past the chain limit is corrupt.
pub fn fat12_read_file<D: StorageDriver>(vol: &Fat12Volume<D>, filename: &str) -> (r: Result<Vec<u8>, &'static str>)
    ensures
        match r {
            Ok(d) => vol.read_back(filename@) == Some(d@),
            Err(m) => {
                ||| m == "Failed to read root directory" && vol.root_size() > 0
                ||| m == "Failed to read cluster" && vol.looked_up(filename@) is Some && vol.cluster_size() > 0
                ||| m == "File not found" && vol.looked_up(filename@) is None
                ||| m == "Corrupt cluster chain" && vol.looked_up(filename@) is Some && vol.read_back(filename@) is None
            },
        },
        vol.root_size() == 0 ==> r == Err::<Vec<u8>, &'static str>("File not found"),
        r != Err::<Vec<u8>, &'static str>("Failed to read root directory") ==> upper_known(filename@),
{
    let entry = find_file_entry(vol, filename)?;
    if entry.file_size == 0 {
        assert(Seq::<u8>::empty() =~= seq![]);
        return Ok(Vec::new());
    }
    let ghost fat = vol.fat();
    let ghost first = entry.first_cluster as int;
    let mut data: Vec<u8> = Vec::new();
    let ghost mut visited: Seq<u16> = seq![];
    let mut c = entry.first_cluster;
    let mut fuel: u64 = CHAIN_LIMIT;
    while c >= 2 && c < FAT12_BAD_CLUSTER
        invariant
            fat == vol.fat(),
            first == entry.first_cluster as int,
            entry.file_size != 0,
            vol.looked_up(filename@) == Some(entry),
            upper_known(filename@),
            file_chain(fat, first) == prepend(visited, chain_from(fat, c as int, fuel as nat)),
            data@ == concat_blocks(vol.chain_data(visited)),
        decreases fuel,
    {
        if fuel == 0 {
            assert(chain_from(fat, c as int, fuel as nat) is None);
            return Err("Corrupt cluster chain");
        }
        let mut cluster_data = read_cluster(vol, c)?;
        if !((c as usize * 3) / 2 + 1 < vol.state.fat_cache.len()) {
            assert(chain_from(fat, c as int, fuel as nat) is None);
            return Err("Corrupt cluster chain");
        }
        let next = get_fat_entry(vol.state.fat_cache.as_slice(), c);
        proof {
            let tail = chain_from(fat, next as int, (fuel - 1) as nat);
            match tail {
                Some(t) => assert(visited + (seq![c] + t) =~= visited.push(c) + t),
                None => {},
            }
            assert(vol.chain_data(visited.push(c)).drop_last() =~= vol.chain_data(visited));
            visited = visited.push(c);
        }
        data.append(&mut cluster_data);
        c = next;
        fuel = fuel - 1;
    }
    assert(visited + Seq::<u16>::empty() =~= visited);
    data.truncate(entry.file_size as usize);
    assert(data@ =~= file_bytes(vol.chain_data(visited), entry.file_size as int));
    Ok(data)
}

/// The names of the files in the root directory, in directory order.
pub fn fat12_list_files<D: StorageDriver>(vol: &Fat12Volume<D>) -> (r: Result<Vec<String>, &'static str>)
    ensures
        match r {
            Ok(names) => string_views(names@) == names_of(vol.root_entries()),
            Err(m) => m == "Failed to read root directory" && vol.root_size() > 0,
        },
        vol.root_size() == 0 ==> (r matches Ok(names) && names@.len() == 0),
{
    let entries = read_root_entries(vol)?;
    let mut files: Vec<String> = Vec::new();
    let mut i: usize = 0;
    while i < entries.len()
        invariant
            i <= entries@.len(),
            string_views(files@) == names_of(entries@.subrange(0, i as int)),
        decreases entries.len() - i,
    {
        let ghost before = files@;
        assert(entries@.subrange(0, i + 1).drop_last() =~= entries@.subrange(0, i as int));
        if let Ok(name) = entries[i].get_name() {
            files.push(name);
            assert(string_views(files@) =~= string_views(before).push(entries@[i as int].shown_name()));
        }
        i = i + 1;
    }
    assert(entries@.subrange(0, entries@.len() as int) =~= entries@);
    assert(string_views(files@).len() == files@.len());
    Ok(files)
}

/// Whether the root directory holds a file of that name: false where the
/// root directory cannot be read, so always where its region is empty, as
/// before mounting.
pub fn fat12_file_exists<D: StorageDriver>(vol: &Fat12Volume<D>, filename: &str) -> (r: bool)
    ensures
        r ==> vol.looked_up(filename@) is Some,
        !r ==> vol.looked_up(filename@) is None || vol.root_size() > 0,
        vol.root_size() == 0 ==> !r,
        r ==> upper_known(filename@),
{
    find_file_entry(vol, filename).is_ok()
}

/// The size the root directory records for a file, if it holds one of that
/// name; none where the root directory cannot be read, so always where its
/// region is empty, as before mounting.
pub fn fat12_get_file_size<D: StorageDriver>(vol: &Fat12Volume<D>, filename: &str) -> (r: Option<u32>)
    ensures
        match r {
            Some(size) => vol.looked_up(filename@) matches Some(e) && e.file_size == size,
            None => vol.looked_up(filename@) is None || vol.root_size() > 0,
        },
        vol.root_size() == 0 ==> r is None,
        r is Some ==> upper_known(filename@),
{
    match find_file_entry(vol, filename) {
        Ok(entry) => Some(entry.file_size),
        Err(_) => None,
    }
}

/// Writes the cached table over the first FAT and then over each backup
/// copy, copy `i` from the first FAT sector plus `i` times the FAT size on;
/// nothing can fail where the table is empty. A failed write of the first
/// copy leaves every sector outside it as it was.
fn flush_fat<D: StorageDriver>(vol: &mut Fat12Volume<D>) -> (r: Result<(), &'static str>)
    ensures
        final(vol).inv(),
        final(vol).same_mount(*old(vol)),
        final(vol).fat() == old(vol).fat(),
        match r {
            Ok(()) => final(vol).disk() == old(vol).flushed(old(vol).disk()),
            Err(m) => old(vol).bpb().fat_size_16 > 0 && old(vol).flush_failure(old(vol).disk(), final(vol).disk(), m),
        },
{
    proof {
        use_type_invariant(&vol.state);
        vol.lemma_bounds();
    }
    let ghost before = vol.disk();
    let fat_start = vol.state.geometry.fat_start_sector;
    let fat_size = vol.state.bpb.fat_size_16 as u64;
    let num_fats = vol.state.bpb.num_fats;
    assert(vol.state.fat_cache@.len() / 512 == fat_size);
    if !write_region(&mut vol.drive, fat_start, vol.state.fat_cache.as_slice()) {
        return Err("Failed to write FAT");
    }
    assert(with_fat_copies(before, fat_start as int, fat_size as int, vol.fat(), 0) == before);
    assert(fat_start + (1 - 1) * fat_size == fat_start);
    assert(vol.disk() == with_fat_copies(before, fat_start as int, fat_size as int, vol.fat(), 1));
    let mut fat_num: u8 = 1;
    while fat_num < num_fats
        invariant
            1 <= fat_num,
            fat_num <= old(vol).fat_copies(),
            num_fats == old(vol).bpb().num_fats,
            fat_start == old(vol).geometry().fat_start_sector,
            fat_start <= 65535,
            fat_size <= 65535,
            fat_size == old(vol).bpb().fat_size_16,
            vol.state == old(vol).state,
            old(vol).inv(),
            before == old(vol).disk(),
            vol.state.fat_cache@.len() == fat_size * 512,
            vol.disk() == with_fat_copies(before, fat_start as int, fat_size as int, old(vol).fat(), fat_num as int),
        decreases num_fats - fat_num,
    {
        assert(fat_num as u64 * fat_size <= 255 * 65535) by (nonlinear_arith)
            requires fat_num <= 255, fat_size <= 65535;
        let backup_start = fat_start + fat_num as u64 * fat_size;
        if !write_region(&mut vol.drive, backup_start, vol.state.fat_cache.as_slice()) {
            assert(same_outside(vol.disk(), with_fat_copies(before, fat_start as int, fat_size as int, old(vol).fat(),
                fat_num as int), fat_start + fat_num * fat_size, fat_size as int));
            return Err("Failed to write backup FAT");
        }
        assert((fat_num + 1 - 1) * fat_size == fat_num * fat_size);
        fat_num = fat_num + 1;
    }
    Ok(())
}

/// Writes the entries back over the root directory region, from its first
/// sector on, zeros after them.
#[verifier::rlimit(30)]
fn write_root_directory<D: StorageDriver>(vol: &mut Fat12Volume<D>, entries: &Vec<DirectoryEntry>) -> (r: Result<(), &'static str>)
    ensures
        final(vol).inv(),
        final(vol).same_mount(*old(vol)),
        final(vol).fat() == old(vol).fat(),
        match r {
            Ok(()) => 32 * entries@.len() <= old(vol).root_size() && final(vol).disk() == put_region(old(vol).disk(),
                old(vol).geometry().root_dir_start_sector as int, root_region(entries@, old(vol).root_size())),
            Err(m) => {
                ||| m == "Root directory full" && 32 * entries@.len() > old(vol).root_size()
                    && final(vol).disk() == old(vol).disk()
                ||| m == "Failed to write root directory" && 32 * entries@.len() <= old(vol).root_size()
                    && same_outside(final(vol).disk(), old(vol).disk(), old(vol).geometry().root_dir_start_sector as int,
                    old(vol).geometry().root_dir_sectors as int)
            },
        },
{
    proof {
        use_type_invariant(&vol.state);
        vol.lemma_bounds();
    }
    let rds = vol.state.geometry.root_dir_sectors as usize;
    let root_size = rds * 512;
    assert(root_size % 512 == 0 && root_size / 512 == rds) by (nonlinear_arith)
        requires root_size == rds * 512;
    let data = match serialize_root_directory(entries, root_size) {
        Some(d) => d,
        None => return Err("Root directory full"),
    };
    if !write_region(&mut vol.drive, vol.state.geometry.root_dir_start_sector, data.as_slice()) {
        return Err("Failed to write root directory");
    }
    Ok(())
}

/// The bytes written over a cluster of `size` bytes for the given data:
/// the data's bytes, zero-padded (or cut) to the size.
pub open spec fn spec_cluster_image(data: Seq<u8>, size: int) -> Seq<u8> {
    Seq::new(size as nat, |i: int| if i < data.len() { data[i] } else { 0u8 })
}

/// The bytes written over a cluster of `size` bytes for the given data.
pub fn cluster_image(data: &[u8], size: usize) -> (r: Vec<u8>)
    ensures
        r@ == spec_cluster_image(data@, size as int),
{
    let mut padded: Vec<u8> = Vec::new();
    let mut i: usize = 0;
    while i < size
        invariant
            i <= size,
            padded@ == spec_cluster_image(data@, i as int),
        decreases size - i,
    {
        if i < data.len() {
            padded.push(data[i]);
        } else {
            padded.push(0u8);
        }
        assert(padded@ =~= spec_cluster_image(data@, i + 1));
        i = i + 1;
    }
    padded
}

/// Writes one cluster: the bytes given, zero-padded (or cut) to the cluster
/// size, over the cluster's sectors; nothing can fail where a cluster has no
/// sector.
fn write_cluster<D: StorageDriver>(vol: &mut Fat12Volume<D>, cluster: u16, data: &[u8]) -> (r: Result<(), &'static str>)
    requires
        data_cluster(cluster as int),
    ensures
        final(vol).inv(),
        final(vol).same_mount(*old(vol)),
        final(vol).fat() == old(vol).fat(),
        match r {
            Ok(()) => final(vol).disk() == put_region(old(vol).disk(), old(vol).cluster_start(cluster as int),
                spec_cluster_image(data@, old(vol).cluster_size())),
            Err(m) => m == "Failed to write cluster" && old(vol).cluster_size() > 0 && same_outside(final(vol).disk(),
                old(vol).disk(), old(vol).cluster_start(cluster as int), old(vol).bpb().sectors_per_cluster as int),
        },
{
    proof {
        use_type_invariant(&vol.state);
        vol.lemma_bounds();
    }
    let spc = vol.state.bpb.sectors_per_cluster as u64;
    assert((cluster as u64 - 2) * spc <= 4095 * 255) by (nonlinear_arith)
        requires cluster < 4096, cluster >= 2, spc <= 255;
    let sector = vol.state.geometry.data_start_sector + (cluster as u64 - 2) * spc;
    let cluster_size = spc as usize * 512;
    let padded = cluster_image(data, cluster_size);
    assert(cluster_size % 512 == 0 && cluster_size / 512 == spc) by (nonlinear_arith)
        requires cluster_size == spc * 512;
    if !write_region(&mut vol.drive, sector, padded.as_slice()) {
        return Err("Failed to write cluster");
    }
    Ok(())
}

/// The entry whose name is `e`'s with the first byte marked deleted (0xE5),
/// every other field as in `e`.
pub open spec fn deleted_entry(e: DirectoryEntry) -> DirectoryEntry {
    choose|d: DirectoryEntry| d.name@ == e.name@.update(0, SLOT_DELETED) && d.same_but_name(e)
}

/// The new file entry for a name as set_name stores it, a first cluster and
/// a size.
pub open spec fn created_entry(name: Seq<u8>, first_cluster: u16, size: u32) -> DirectoryEntry {
    choose|e: DirectoryEntry| stored_name(name) == Ok::<Seq<u8>, &'static str>(e.name@) && e.fresh_file(first_cluster, size)
}

proof fn lemma_deleted_entry(e: DirectoryEntry, d: DirectoryEntry)
    requires
        d.name@ == e.name@.update(0, SLOT_DELETED),
        d.same_but_name(e),
    ensures
        deleted_entry(e) == d,
{
    let x = deleted_entry(e);
    assert(x.name@ == d.name@);
    assert(x.name =~= d.name);
}

proof fn lemma_created_entry(name: Seq<u8>, first_cluster: u16, size: u32, e: DirectoryEntry)
    requires
        stored_name(name) == Ok::<Seq<u8>, &'static str>(e.name@),
        e.fresh_file(first_cluster, size),
    ensures
        created_entry(name, first_cluster, size) == e,
{
    let x = created_entry(name, first_cluster, size);
    assert(x.name@ == e.name@);
    assert(x.name =~= e.name);
}

/// Deletes a file of the root directory: frees its cluster chain in the
/// cached table, marks its entry deleted (first name byte 0xE5), writes the
/// root directory back and flushes the table to every FAT copy.
#[verifier::rlimit(40)]
pub fn fat12_delete_file<D: StorageDriver>(vol: &mut Fat12Volume<D>, filename: &str) -> (r: Result<(), &'static str>)
    ensures
        final(vol).inv(),
        final(vol).same_mount(*old(vol)),
        old(vol).root_size() == 0 ==> r == Err::<(), &'static str>("File not found"),
        r != Err::<(), &'static str>("Failed to read root directory") ==> upper_known(filename@),
        match r {
            Ok(()) => old(vol).looked_up(filename@) matches Some(e) && {
                let i = first_match(old(vol).root_entries(), filename@)->Some_0;
                &&& freed_chain(old(vol).fat(), e.first_cluster as int) == (final(vol).fat(), true)
                &&& final(vol).disk() == final(vol).flushed(put_region(old(vol).disk(),
                    old(vol).geometry().root_dir_start_sector as int,
                    root_region(old(vol).root_entries().update(i, deleted_entry(e)), old(vol).root_size())))
            },
            Err(m) => {
                ||| m == "Failed to read root directory" && old(vol).root_size() > 0 && final(vol).fat() == old(vol).fat()
                    && final(vol).disk() == old(vol).disk()
                ||| m == "File not found" && old(vol).looked_up(filename@) is None && final(vol).fat() == old(vol).fat()
                    && final(vol).disk() == old(vol).disk()
                ||| old(vol).looked_up(filename@) matches Some(e)
                    && final(vol).fat() == freed_chain(old(vol).fat(), e.first_cluster as int).0
                    && if freed_chain(old(vol).fat(), e.first_cluster as int).1 {
                        let i = first_match(old(vol).root_entries(), filename@)->Some_0;
                        ||| m == "Failed to write root directory" && same_outside(final(vol).disk(), old(vol).disk(),
                            old(vol).geometry().root_dir_start_sector as int, old(vol).geometry().root_dir_sectors as int)
                        ||| final(vol).flush_failure(put_region(old(vol).disk(), old(vol).geometry().root_dir_start_sector as int,
                            root_region(old(vol).root_entries().update(i, deleted_entry(e)), old(vol).root_size())),
                            final(vol).disk(), m)
                    } else {
                        m == "Corrupt cluster chain" && final(vol).disk() == old(vol).disk()
                    }
            },
        },
{
    proof {
        use_type_invariant(&vol.state);
    }
    let mut entries = read_root_entries(vol)?;
    let index = match find_entry_index(&entries, filename) {
        Some(i) => i,
        None => {
            return Err("File not found");
        },
    };
    let ghost found = entries@[index as int];
    assert(old(vol).looked_up(filename@) == Some(found));
    let first_cluster = entries[index].first_cluster;
    let mut st = MountState::unmounted();
    std::mem::swap(&mut st, &mut vol.state);
    proof {
        use_type_invariant(&st);
    }
    let MountState { initialized, bpb, geometry, fat_cache: mut cache } = st;
    let ok = free_cluster_chain(&mut cache, first_cluster);
    vol.state = MountState { initialized, bpb, geometry, fat_cache: cache };
    proof {
        use_type_invariant(&vol.state);
    }
    if !ok {
        return Err("Corrupt cluster chain");
    }
    assert(vol.fat() == freed_chain(old(vol).fat(), found.first_cluster as int).0);
    assert(freed_chain(old(vol).fat(), found.first_cluster as int).1);
    let mut entry = entries[index];
    entry.name[0] = SLOT_DELETED;
    proof {
        assert(entry.name@ =~= found.name@.update(0, SLOT_DELETED));
        lemma_deleted_entry(found, entry);
    }
    entries.set(index, entry);
    write_root_directory(vol, &entries)?;
    flush_fat(vol)?;
    Ok(())
}

proof fn lemma_cluster_count(len: int, cs: int)
    requires
        0 <= len,
        cs > 0,
    ensures
        (len + cs - 1) / cs == 0 <==> len == 0,
        ((len + cs - 1) / cs) * cs < len + cs,
        len <= ((len + cs - 1) / cs) * cs,
        0 <= (len + cs - 1) / cs,
{
    let x = len + cs - 1;
    vstd::arithmetic::div_mod::lemma_fundamental_div_mod(x, cs);
    vstd::arithmetic::div_mod::lemma_mod_pos_bound(x, cs);
    let q = x / cs;
    let r = x % cs;
    assert(q * cs == cs * q) by (nonlinear_arith);
    assert(0 <= q) by (nonlinear_arith)
        requires x == cs * q + r, 0 <= r < cs, x >= 0, cs > 0;
    assert(q == 0 <==> len == 0) by (nonlinear_arith)
        requires x == cs * q + r, 0 <= r < cs, x == len + cs - 1, cs > 0, len >= 0, q >= 0;
}

/// How many clusters `len` bytes take at `cluster_size` bytes a cluster.
pub open spec fn clusters_for(len: int, cluster_size: int) -> int {
    (len + cluster_size - 1) / cluster_size
}

/// The part of the data that cluster `i` of a new file holds, before
/// padding: bytes `i cs .. (i + 1) cs`, cut at the end of the data.
pub open spec fn chunk(data: Seq<u8>, i: int, cs: int) -> Seq<u8> {
    data.subrange(i * cs, if (i + 1) * cs < data.len() { (i + 1) * cs } else { data.len() as int })
}

impl<D: StorageDriver> Fat12Volume<D> {
    /// The disk after the first `k` clusters of the list each get their chunk
    /// of the data, zero-padded to the cluster size.
    pub open spec fn clusters_written(self, disk: Map<u64, Seq<u8>>, cs: Seq<u16>, data: Seq<u8>, k: int) -> Map<u64, Seq<u8>>
        decreases k,
    {
        if k <= 0 {
            disk
        } else {
            put_region(self.clusters_written(disk, cs, data, k - 1), self.cluster_start(cs[k - 1] as int),
                spec_cluster_image(chunk(data, k - 1, self.cluster_size()), self.cluster_size()))
        }
    }

    /// Writing data clusters leaves every sector before the data region as
    /// it was.
    proof fn lemma_clusters_before_data(self, disk: Map<u64, Seq<u8>>, cs: Seq<u16>, data: Seq<u8>, k: int)
        requires
            self.inv(),
            0 <= k <= cs.len(),
            forall|j: int| 0 <= j < cs.len() ==> 2 <= #[trigger] cs[j] < 0xFF0,
        ensures
            forall|l: u64| l < self.geometry().data_start_sector ==> #[trigger] self.clusters_written(disk, cs, data, k).contains_key(l)
                == disk.contains_key(l),
            forall|l: u64| l < self.geometry().data_start_sector ==> #[trigger] self.clusters_written(disk, cs, data, k)[l]
                == disk[l],
        decreases k,
    {
        if k > 0 {
            self.lemma_clusters_before_data(disk, cs, data, k - 1);
            self.lemma_bounds();
            let c = cs[k - 1] as int;
            let spc = self.bpb().sectors_per_cluster as int;
            assert((c - 2) * spc <= 4093 * 255 && 0 <= (c - 2) * spc) by (nonlinear_arith)
                requires 2 <= c < 0xFF0, 0 <= spc <= 255;
            let img = spec_cluster_image(chunk(data, k - 1, self.cluster_size()), self.cluster_size());
            assert(img.len() / 512 == spc);
            law_region_read_after_write(self.clusters_written(disk, cs, data, k - 1), self.cluster_start(c), img);
        }
    }
}

/// The root directory entry that creating a file of that name with the data
/// on `before` adds: its first cluster is the first one allocated, its size
/// the data's length.
pub open spec fn created_file_entry<D: StorageDriver>(before: Fat12Volume<D>, name: Seq<u8>, data: Seq<u8>) -> DirectoryEntry {
    let n = clusters_for(data.len() as int, before.cluster_size());
    created_entry(name, allocated(before.fat(), n as nat).0[0], data.len() as u32)
}

/// `after` is what creating the file of that name (as text and as bytes)
/// with the data left of `before` where it succeeded: the clusters taken
/// and linked in the table, each holding its chunk of the data zero-padded,
/// the root directory region holding the entries listed before and the new
/// entry after them, zeros after that, and every copy of the table flushed.
pub open spec fn created_file<D: StorageDriver>(before: Fat12Volume<D>, after: Fat12Volume<D>, filename: Seq<char>,
    name: Seq<u8>, data: Seq<u8>) -> bool {
    let n = clusters_for(data.len() as int, before.cluster_size());
    let (cs, f, ok) = allocated(before.fat(), n as nat);
    let entry = created_file_entry(before, name, data);
    let entries = before.root_entries().push(entry);
    &&& before.initialized() && before.cluster_size() > 0 && data.len() > 0 && ok
    &&& after.same_mount(before)
    &&& after.fat() == linked(f, cs)
    &&& stored_name(name) == Ok::<Seq<u8>, &'static str>(entry.name@) && entry.fresh_file(cs[0], data.len() as u32)
    &&& before.looked_up(filename) is None
    &&& 32 * entries.len() <= before.root_size()
    &&& after.disk() == after.flushed(put_region(before.clusters_written(before.disk(), cs, data, n),
        before.geometry().root_dir_start_sector as int, root_region(entries, before.root_size())))
}

/// Creates a file in the root directory: allocates and links a chain of
/// clusters for the data in the cached table, writes the data cluster by
/// cluster, adds an entry for it to the root directory unless a file of that
/// name is there already, and flushes the table. Steps that succeeded stay
/// done when a later one fails.
#[verifier::rlimit(60)]
pub fn fat12_create_file<D: StorageDriver>(vol: &mut Fat12Volume<D>, filename: &str, data: &[u8]) -> (r: Result<(), &'static str>)
    requires
        data@.len() + old(vol).cluster_size() <= usize::MAX,
    ensures
        final(vol).inv(),
        final(vol).same_mount(*old(vol)),
        !old(vol).initialized() ==> r == Err::<(), &'static str>("FAT12 not initialized") && final(vol).fat() == old(vol).fat()
            && final(vol).disk() == old(vol).disk(),
        old(vol).initialized() && old(vol).cluster_size() == 0 ==> r == Err::<(), &'static str>("Invalid cluster size")
            && final(vol).fat() == old(vol).fat() && final(vol).disk() == old(vol).disk(),
        old(vol).initialized() && old(vol).cluster_size() > 0 && data@.len() == 0 ==> r == Err::<(), &'static str>(
            "Cannot create empty file",
        ) && final(vol).fat() == old(vol).fat() && final(vol).disk() == old(vol).disk(),
        r is Ok ==> created_file(*old(vol), *final(vol), filename@, filename.spec_bytes(), data@),
        r is Ok || r == Err::<(), &'static str>("File already exists") ==> upper_known(filename@),
        old(vol).initialized() && old(vol).cluster_size() > 0 && data@.len() > 0 ==> {
            let n = clusters_for(data@.len() as int, old(vol).cluster_size()) as nat;
            let (cs, f, ok) = allocated(old(vol).fat(), n);
            let written = old(vol).clusters_written(old(vol).disk(), cs, data@, n as int);
            let entries = old(vol).root_entries().push(created_entry(filename.spec_bytes(), cs[0], data@.len() as u32));
            &&& !ok ==> r == Err::<(), &'static str>("No free clusters") && final(vol).fat() == f
                && final(vol).disk() == old(vol).disk()
            &&& ok ==> final(vol).fat() == linked(f, cs)
            &&& ok ==> (r matches Err(m) ==> {
                ||| m == "Failed to write cluster" && exists|k: int| 0 <= k < n && same_outside(final(vol).disk(),
                    #[trigger] old(vol).clusters_written(old(vol).disk(), cs, data@, k), old(vol).cluster_start(cs[k] as int),
                    old(vol).bpb().sectors_per_cluster as int)
                ||| stored_name(filename.spec_bytes()) == Err::<Seq<u8>, &'static str>(m) && final(vol).disk() == written
                ||| m == "Failed to read root directory" && final(vol).disk() == written
                ||| m == "File already exists" && old(vol).looked_up(filename@) is Some && final(vol).disk() == written
                ||| m == "Root directory full" && 32 * entries.len() > old(vol).root_size() && final(vol).disk() == written
                ||| m == "Failed to write root directory" && same_outside(final(vol).disk(), written,
                    old(vol).geometry().root_dir_start_sector as int, old(vol).geometry().root_dir_sectors as int)
                ||| final(vol).flush_failure(put_region(written, old(vol).geometry().root_dir_start_sector as int,
                    root_region(entries, old(vol).root_size())), final(vol).disk(), m)
            })
        },
{
    proof {
        use_type_invariant(&vol.state);
        vol.lemma_bounds();
    }
    if !vol.state.initialized {
        return Err("FAT12 not initialized");
    }
    let cluster_size = vol.state.bpb.sectors_per_cluster as usize * 512;
    if cluster_size == 0 {
        return Err("Invalid cluster size");
    }
    let len = data.len();
    let num_clusters = (len + cluster_size - 1) / cluster_size;
    proof {
        lemma_cluster_count(len as int, cluster_size as int);
    }
    if num_clusters == 0 {
        return Err("Cannot create empty file");
    }
    let mut st = MountState::unmounted();
    std::mem::swap(&mut st, &mut vol.state);
    proof {
        use_type_invariant(&st);
    }
    let MountState { initialized, bpb, geometry, fat_cache: mut cache } = st;
    let clusters = match allocate_clusters(&mut cache, num_clusters) {
        Ok(cs) => cs,
        Err(m) => {
            vol.state = MountState { initialized, bpb, geometry, fat_cache: cache };
            proof {
                use_type_invariant(&vol.state);
            }
            return Err(m);
        },
    };
    link_clusters(&mut cache, &clusters);
    vol.state = MountState { initialized, bpb, geometry, fat_cache: cache };
    proof {
        use_type_invariant(&vol.state);
    }
    let ghost linked_fat = vol.fat();
    let mut i: usize = 0;
    #[verifier::loop_isolation(false)]
    while i < clusters.len()
        invariant
            i <= clusters@.len(),
            clusters@.len() == num_clusters,
            num_clusters * cluster_size < data@.len() + cluster_size,
            forall|k: int| 0 <= k < clusters@.len() ==> #[trigger] clusters@[k] >= 2 && clusters@[k] < 0xFF0,
            vol.same_mount(*old(vol)),
            vol.fat() == linked_fat,
            vol.inv(),
            vol.disk() == old(vol).clusters_written(old(vol).disk(), clusters@, data@, i as int),
        decreases clusters.len() - i,
    {
        assert((i + 1) * cluster_size <= num_clusters * cluster_size) by (nonlinear_arith)
            requires i < num_clusters;
        assert(i * cluster_size + cluster_size == (i + 1) * cluster_size) by (nonlinear_arith);
        let offset = i * cluster_size;
        let end = if offset + cluster_size < len { offset + cluster_size } else { len };
        assert(offset <= len) by (nonlinear_arith)
            requires offset == i * cluster_size, i < num_clusters, num_clusters * cluster_size < len + cluster_size,
                cluster_size > 0;
        assert(data@.subrange(offset as int, end as int) == chunk(data@, i as int, cluster_size as int));
        match write_cluster(vol, clusters[i], &data[offset..end]) {
            Ok(()) => {},
            Err(m) => {
                assert(same_outside(vol.disk(), old(vol).clusters_written(old(vol).disk(), clusters@, data@, i as int),
                    old(vol).cluster_start(clusters@[i as int] as int), old(vol).bpb().sectors_per_cluster as int));
                return Err(m);
            },
        }
        i = i + 1;
    }
    let ghost written = vol.disk();
    proof {
        old(vol).lemma_clusters_before_data(old(vol).disk(), clusters@, data@, clusters@.len() as int);
        lemma_region_same(written, old(vol).disk(), old(vol).geometry().root_dir_start_sector as int,
            old(vol).geometry().root_dir_sectors as int);
        assert(vol.root_entries() == old(vol).root_entries());
    }
    let entry = DirectoryEntry::new_file(filename, clusters[0], data.len() as u32)?;
    proof {
        lemma_created_entry(filename.spec_bytes(), clusters@[0], data@.len() as u32, entry);
    }
    let mut entries = read_root_entries(vol)?;
    if let Some(i) = find_entry_index(&entries, filename) {
        return Err("File already exists");
    }
    entries.push(entry);
    write_root_directory(vol, &entries)?;
    flush_fat(vol)?;
    Ok(())
}

/// Writing entries over the root directory region and reading it back lists
/// the entries before the first one whose name starts with a zero byte and
/// within the entry count, without deleted, long-name and volume-label ones,
/// in order; so all of them where each is one the listing shows and the
/// entry count has room for them.
pub proof fn law_root_directory_written_read_back<D: StorageDriver>(before: Fat12Volume<D>, after: Fat12Volume<D>,
    es: Seq<DirectoryEntry>)
    requires
        before.inv(),
        after.same_mount(before),
        32 * es.len() <= before.root_size(),
        after.disk() == put_region(before.disk(), before.geometry().root_dir_start_sector as int,
            root_region(es, before.root_size())),
    ensures
        after.root_entries() == listing_from(es, before.bpb().root_entry_count as int, 0),
        es.len() <= before.bpb().root_entry_count && (forall|k: int| 0 <= k < es.len() ==> #[trigger] listable(es[k]))
            ==> after.root_entries() == es,
{
    before.lemma_bounds();
    let rr = root_region(es, before.root_size());
    lemma_entries_bytes_len(es);
    assert(rr.len() % 512 == 0 && rr.len() / 512 == before.geometry().root_dir_sectors);
    law_region_read_after_write(before.disk(), before.geometry().root_dir_start_sector as int, rr);
    law_root_directory_listing(es, before.root_size(), before.bpb().root_entry_count as int);
    if es.len() <= before.bpb().root_entry_count && (forall|k: int| 0 <= k < es.len() ==> #[trigger] listable(es[k])) {
        law_root_directory_roundtrip(es, before.root_size(), before.bpb().root_entry_count as int);
        lemma_decode_records(es);
    }
}

/// A cluster written reads back as the bytes written over it: the data,
/// zero-padded (or cut) to the cluster size.
pub proof fn law_cluster_read_after_write<D: StorageDriver>(before: Fat12Volume<D>, after: Fat12Volume<D>, cluster: u16,
    data: Seq<u8>)
    requires
        before.inv(),
        data_cluster(cluster as int),
        after.same_mount(before),
        after.disk() == put_region(before.disk(), before.cluster_start(cluster as int),
            spec_cluster_image(data, before.cluster_size())),
    ensures
        after.cluster_data(cluster as int) == spec_cluster_image(data, before.cluster_size()),
{
    before.lemma_bounds();
    let c = cluster as int;
    let spc = before.bpb().sectors_per_cluster as int;
    assert((c - 2) * spc <= 4094 * 255 && 0 <= (c - 2) * spc) by (nonlinear_arith)
        requires 2 <= c < 0xFF7, 0 <= spc <= 255;
    let img = spec_cluster_image(data, before.cluster_size());
    assert(img.len() / 512 == spc);
    law_region_read_after_write(before.disk(), before.cluster_start(c), img);
}

/// Writing `k` copies of the table leaves every sector from the end of the
/// last copy on as it was.
proof fn lemma_fat_copies_after(disk: Map<u64, Seq<u8>>, start: int, size: int, fat: Seq<u8>, k: int)
    requires
        0 <= start,
        0 <= size,
        0 <= k,
        fat.len() == size * 512,
        start + k * size <= u64::MAX + 1,
    ensures
        forall|l: u64| start + k * size <= l ==> #[trigger] with_fat_copies(disk, start, size, fat, k)[l] == disk[l],
    decreases k,
{
    if k > 0 {
        assert((k - 1) * size + size == k * size && 0 <= (k - 1) * size) by (nonlinear_arith)
            requires k > 0, size >= 0;
        lemma_fat_copies_after(disk, start, size, fat, k - 1);
        let fl = fat.len() as int;
        assert(fl % 512 == 0 && fl / 512 == size) by (nonlinear_arith)
            requires fl == size * 512, size >= 0;
        law_region_read_after_write(with_fat_copies(disk, start, size, fat, k - 1), start + (k - 1) * size, fat);
    }
}

/// Distinct data clusters below 0xFF0 are fewer than the chain limit.
proof fn lemma_few_clusters(cs: Seq<u16>)
    requires
        forall|j: int| 0 <= j < cs.len() ==> 2 <= #[trigger] cs[j] < 0xFF0,
        forall|i: int, j: int| 0 <= i < j < cs.len() ==> cs[i] != cs[j],
    ensures
        cs.len() < CHAIN_LIMIT,
{
    let ints = cs.map_values(|c: u16| c as int);
    assert(ints.no_duplicates()) by {
        assert forall|i: int, j: int| 0 <= i < ints.len() && 0 <= j < ints.len() && i != j implies ints[i] != ints[j] by {
            if i < j {
                assert(cs[i] != cs[j]);
            } else {
                assert(cs[j] != cs[i]);
            }
        }
    }
    ints.unique_seq_to_set();
    let range = vstd::set_lib::set_int_range(2, 0xFF0);
    assert forall|x: int| ints.to_set().contains(x) implies range.contains(x) by {
        assert(ints.contains(x));
        let i = choose|i: int| 0 <= i < ints.len() && ints[i] == x;
        assert(2 <= cs[i] < 0xFF0);
    }
    vstd::set_lib::lemma_int_range(2, 0xFF0);
    vstd::set_lib::lemma_len_subset(ints.to_set(), range);
}

/// The padded chunks of the data, one after the other, are the data
/// zero-padded to their total size.
proof fn lemma_concat_images(blocks: Seq<Seq<u8>>, data: Seq<u8>, csz: int)
    requires
        csz > 0,
        blocks.len() == 0 || (blocks.len() - 1) * csz < data.len(),
        forall|k: int| 0 <= k < blocks.len() ==> #[trigger] blocks[k] == spec_cluster_image(chunk(data, k, csz), csz),
    ensures
        concat_blocks(blocks) == spec_cluster_image(data, blocks.len() * csz),
    decreases blocks.len(),
{
    let m = blocks.len() as int;
    if m == 0 {
        assert(spec_cluster_image(data, 0) =~= Seq::<u8>::empty());
    } else {
        let prev = blocks.drop_last();
        let p = (m - 1) * csz;
        assert(p + csz == m * csz && 0 <= p) by (nonlinear_arith)
            requires p == (m - 1) * csz, m >= 1, csz > 0;
        if m >= 2 {
            assert((m - 2) * csz < data.len()) by (nonlinear_arith)
                requires (m - 1) * csz < data.len(), csz > 0, m >= 2;
        }
        assert forall|k: int| 0 <= k < prev.len() implies #[trigger] prev[k] == spec_cluster_image(chunk(data, k, csz), csz) by {
            assert(prev[k] == blocks[k]);
        }
        lemma_concat_images(prev, data, csz);
        let last = blocks[m - 1];
        let ch = chunk(data, m - 1, csz);
        assert(m * csz == p + csz);
        assert(last == spec_cluster_image(ch, csz));
        let whole = spec_cluster_image(data, m * csz);
        assert(concat_blocks(blocks) == concat_blocks(prev) + last);
        assert forall|i: int| 0 <= i < m * csz implies #[trigger] (concat_blocks(prev) + last)[i] == whole[i] by {
            if i >= p {
                let j = i - p;
                assert(ch.len() == (if p + csz < data.len() { p + csz } else { data.len() as int }) - p);
                if j < ch.len() {
                    assert(ch[j] == data[p + j]);
                }
            }
        }
        assert(concat_blocks(blocks) =~= whole);
    }
}

impl<D: StorageDriver> Fat12Volume<D> {
    /// A cluster written keeps its bytes while the clusters after it in the
    /// list are written.
    proof fn lemma_cluster_held(self, disk: Map<u64, Seq<u8>>, cs: Seq<u16>, data: Seq<u8>, m: int, k: int)
        requires
            self.inv(),
            self.bpb().sectors_per_cluster > 0,
            0 <= k < m <= cs.len(),
            forall|j: int| 0 <= j < cs.len() ==> 2 <= #[trigger] cs[j] < 0xFF0,
            forall|i: int, j: int| 0 <= i < j < cs.len() ==> cs[i] != cs[j],
        ensures
            region_bytes(self.clusters_written(disk, cs, data, m), self.cluster_start(cs[k] as int),
                self.bpb().sectors_per_cluster as int) == spec_cluster_image(chunk(data, k, self.cluster_size()),
                self.cluster_size()),
        decreases m,
    {
        self.lemma_bounds();
        let spc = self.bpb().sectors_per_cluster as int;
        let prev = self.clusters_written(disk, cs, data, m - 1);
        let c = cs[m - 1] as int;
        let img = spec_cluster_image(chunk(data, m - 1, self.cluster_size()), self.cluster_size());
        assert(img.len() / 512 == spc);
        assert((c - 2) * spc <= 4093 * 255 && 0 <= (c - 2) * spc) by (nonlinear_arith)
            requires 2 <= c < 0xFF0, 0 <= spc <= 255;
        law_region_read_after_write(prev, self.cluster_start(c), img);
        if k < m - 1 {
            self.lemma_cluster_held(disk, cs, data, m - 1, k);
            let d = cs[k] as int;
            assert(d != c);
            assert((d - 2) * spc <= 4093 * 255 && 0 <= (d - 2) * spc) by (nonlinear_arith)
                requires 2 <= d < 0xFF0, 0 <= spc <= 255;
            assert((d - 2) * spc + spc <= (c - 2) * spc || (c - 2) * spc + spc <= (d - 2) * spc) by (nonlinear_arith)
                requires d + 1 <= c || c + 1 <= d, spc >= 0;
            lemma_region_same(self.clusters_written(disk, cs, data, m), prev, self.cluster_start(d), spc);
        }
    }
}

/// Creating a file and then reading it back by the same name gives the data
/// that was written, and the root directory records the data's length as
/// its size. This holds where the volume has at least one FAT (a flush with
/// none writes the table over the root directory), the root directory's
/// entry count leaves room for one more entry, the data's length fits the
/// 32-bit size field, and the name as set_name stores it is in use, not
/// marked deleted, and shows as the file name once both are upper-cased.
#[verifier::rlimit(100)]
pub proof fn law_created_file_reads_back<D: StorageDriver>(before: Fat12Volume<D>, after: Fat12Volume<D>,
    filename: Seq<char>, name: Seq<u8>, data: Seq<u8>)
    requires
        before.inv(),
        after.inv(),
        created_file(before, after, filename, name, data),
        before.bpb().num_fats >= 1,
        before.root_entries().len() < before.bpb().root_entry_count,
        data.len() <= u32::MAX,
        stored_name(name) matches Ok(n) && n[0] != SLOT_UNUSED && n[0] != SLOT_DELETED
            && unicode_uppercase(latin1(shown_name_bytes(n))) == unicode_uppercase(filename),
    ensures
        after.root_entries() == before.root_entries().push(created_file_entry(before, name, data)),
        names_of(after.root_entries()) == names_of(before.root_entries()).push(
            created_file_entry(before, name, data).shown_name(),
        ),
        after.looked_up(filename) == Some(created_file_entry(before, name, data)),
        created_file_entry(before, name, data).file_size == data.len(),
        after.read_back(filename) == Some(data),
{
    let len = data.len() as int;
    let csz = before.cluster_size();
    let spc = before.bpb().sectors_per_cluster as int;
    let n = clusters_for(len, csz);
    lemma_cluster_count(len, csz);
    let (cs, f, ok) = allocated(before.fat(), n as nat);
    lemma_allocated_in_table(before.fat(), n as nat);
    law_allocation_distinct(before.fat(), n as nat);
    lemma_few_clusters(cs);
    law_created_chain_followed(before.fat(), n as nat);
    before.lemma_bounds();
    after.lemma_bounds();
    let entry = created_entry(name, cs[0], data.len() as u32);
    let old_entries = before.root_entries();
    let entries = old_entries.push(entry);
    let count = before.bpb().root_entry_count as int;
    let rs = before.geometry().root_dir_start_sector as int;
    let rds = before.geometry().root_dir_sectors as int;
    let root_size = before.root_size();
    let w = before.clusters_written(before.disk(), cs, data, n);
    let rr = root_region(entries, root_size);
    let r = put_region(w, rs, rr);
    // the table copies lie below the root directory
    lemma_fat_copies_after(r, before.geometry().fat_start_sector as int, before.bpb().fat_size_16 as int, after.fat(),
        after.fat_copies());
    // the root directory region holds the old entries and the new one
    lemma_entries_bytes_len(entries);
    assert(rr.len() == root_size);
    assert(rr.len() % 512 == 0 && rr.len() / 512 == rds);
    law_region_read_after_write(w, rs, rr);
    lemma_region_same(after.disk(), r, rs, rds);
    assert(after.root_bytes() == rr);
    lemma_listed_decoded(before.root_bytes(), count);
    lemma_decode_records(old_entries);
    assert(entry.bytes()[0] == entry.name@[0]);
    assert(entry.bytes()[11] == entry.attributes);
    assert(0x20u8 & 0x08u8 == 0) by (bit_vector);
    assert(listable(entry));
    assert forall|k: int| 0 <= k < entries.len() implies #[trigger] listable(entries[k]) by {
        if k < old_entries.len() {
            assert(entries[k] == old_entries[k]);
        }
    }
    law_root_directory_roundtrip(entries, root_size, count);
    lemma_decode_records(entries);
    assert(after.root_entries() == entries);
    // the new entry is the one the name finds
    assert(entry.named());
    assert(name_matches(entry, filename));
    lemma_first_match_push(old_entries, entry, filename, 0);
    assert(after.looked_up(filename) == Some(entry));
    assert(entries.drop_last() =~= old_entries);
    assert(names_of(entries) == names_of(old_entries).push(entry.shown_name()));
    // its clusters hold the data
    let blocks = after.chain_data(cs);
    assert forall|k: int| 0 <= k < blocks.len() implies #[trigger] blocks[k] == spec_cluster_image(chunk(data, k, csz), csz) by {
        let c = cs[k] as int;
        assert(2 <= cs[k] < 0xFF0);
        assert((c - 2) * spc <= 4093 * 255 && 0 <= (c - 2) * spc) by (nonlinear_arith)
            requires 2 <= c < 0xFF0, 0 <= spc <= 255;
        lemma_region_same(after.disk(), w, before.cluster_start(c), spc);
        before.lemma_cluster_held(before.disk(), cs, data, n, k);
    }
    assert((n - 1) * csz < len) by (nonlinear_arith)
        requires n * csz < len + csz, csz > 0;
    lemma_concat_images(blocks, data, csz);
    assert(len <= n * csz);
    assert(file_bytes(blocks, len) =~= data);
}

/// Two file names that upper-case alike find the same entry of the root
/// directory, and reading either gives the same bytes.
pub proof fn law_lookup_by_upper_case<D: StorageDriver>(vol: Fat12Volume<D>, f: Seq<char>, g: Seq<char>)
    requires
        unicode_uppercase(f) == unicode_uppercase(g),
    ensures
        vol.looked_up(f) == vol.looked_up(g),
        vol.read_back(f) == vol.read_back(g),
{
    lemma_first_match_alike(vol.root_entries(), f, g, 0);
}

/// ASCII file names that differ only in the case of their letters upper-case
/// alike, where upper-casing is known to act on them as on ASCII text (as
/// each lookup states of the name it was given).
pub proof fn law_ascii_names_alike(f: Seq<char>, g: Seq<char>)
    requires
        ascii_chars(f),
        ascii_chars(g),
        upper_known(f),
        upper_known(g),
        ascii_upper_chars(f) == ascii_upper_chars(g),
    ensures
        unicode_uppercase(f) == unicode_uppercase(g),
{
}

proof fn lemma_names_of_contains(es: Seq<DirectoryEntry>, k: int)
    requires
        0 <= k < es.len(),
        es[k].named(),
    ensures
        names_of(es).contains(es[k].shown_name()),
    decreases es.len(),
{
    let init = es.drop_last();
    if k == es.len() - 1 {
        let ns = names_of(init).push(es.last().shown_name());
        assert(ns[ns.len() - 1] == es[k].shown_name());
    } else {
        assert(init[k] == es[k]);
        lemma_names_of_contains(init, k);
        let j = choose|j: int| 0 <= j < names_of(init).len() && names_of(init)[j] == es[k].shown_name();
        if es.last().named() {
            assert(names_of(es)[j] == names_of(init)[j]);
        }
    }
}

/// Every entry in use in the root directory before the first unused slot and
/// within the entry count that is not deleted, not a long-name fragment and
/// not a volume label (a subdirectory as well as a file) is listed, and its
/// shown name is among the names the file list gives.
pub proof fn law_root_lists_named_entries<D: StorageDriver>(vol: Fat12Volume<D>, i: int, e: DirectoryEntry)
    requires
        0 <= i < slot_limit(vol.root_bytes().len() as int, vol.bpb().root_entry_count as int),
        forall|k: int| 0 <= k <= i ==> #[trigger] slot(vol.root_bytes(), k)[0] != 0x00,
        slot(vol.root_bytes(), i) == e.bytes(),
        e.named(),
    ensures
        vol.root_entries().contains(e),
        names_of(vol.root_entries()).contains(e.shown_name()),
{
    let data = vol.root_bytes();
    let count = vol.bpb().root_entry_count as int;
    assert(e.bytes()[0] == e.name@[0]);
    assert(e.bytes()[11] == e.attributes);
    law_listing_keeps_slot(data, count, i);
    let rs = listed_entries(data, count);
    let k = choose|k: int| 0 <= k < rs.len() && rs[k] == e.bytes();
    let d = decoded_entry(e.bytes());
    assert(d.bytes() == e.bytes());
    law_entry_bytes_determine_entry(d, e);
    assert(vol.root_entries()[k] == e);
    lemma_names_of_contains(vol.root_entries(), k);
}

} // verus!
