//! The root directory region: the entries it lists, its bytes when written
//! back, and lookups by name.
use vstd::prelude::*;
use crate::dir_entry::{law_entry_bytes_determine_entry, lemma_record_has_entry, DirectoryEntry, DIR_ENTRY_SIZE, SLOT_UNUSED, SLOT_DELETED, ATTR_LONG_NAME, ATTR_VOLUME_ID};
use crate::text::{unicode_uppercase, str_to_uppercase, upper_known};

verus! {

/// The 32 bytes of slot `i`.
pub open spec fn slot(data: Seq<u8>, i: int) -> Seq<u8> {
    data.subrange(32 * i, 32 * i + 32)
}

/// How many slots are looked at: the entry count the boot sector gives, but
/// no more than the bytes hold.
pub open spec fn slot_limit(data_len: int, count: int) -> int {
    if count < data_len / 32 {
        count
    } else {
        data_len / 32
    }
}

/// A slot that the listing keeps: not deleted, not a long-name fragment,
/// not the volume label.
pub open spec fn kept_slot(b: Seq<u8>) -> bool {
    b[0] != SLOT_DELETED && b[11] != ATTR_LONG_NAME && b[11] & ATTR_VOLUME_ID == 0
}

/// The slots listed from slot `i` on: the scan stops at the first unused
/// slot or at the limit, and skips the slots it does not keep.
pub open spec fn listed_from(data: Seq<u8>, count: int, i: int) -> Seq<Seq<u8>>
    decreases slot_limit(data.len() as int, count) - i,
{
    if i < 0 || i >= slot_limit(data.len() as int, count) || slot(data, i)[0] == SLOT_UNUSED {
        seq![]
    } else if kept_slot(slot(data, i)) {
        seq![slot(data, i)] + listed_from(data, count, i + 1)
    } else {
        listed_from(data, count, i + 1)
    }
}

/// The entries of a root directory region, as 32-byte records.
pub open spec fn listed_entries(data: Seq<u8>, count: int) -> Seq<Seq<u8>> {
    listed_from(data, count, 0)
}

/// The 32-byte records of a list of entries.
pub open spec fn entry_records(es: Seq<DirectoryEntry>) -> Seq<Seq<u8>> {
    es.map_values(|e: DirectoryEntry| e.bytes())
}

/// The bytes of a list of entries, one after the other.
pub open spec fn entries_bytes(es: Seq<DirectoryEntry>) -> Seq<u8>
    decreases es.len(),
{
    if es.len() == 0 {
        seq![]
    } else {
        entries_bytes(es.drop_last()) + es.last().bytes()
    }
}

/// The root directory region holding the given entries first and zeros after.
pub open spec fn root_region(es: Seq<DirectoryEntry>, size: int) -> Seq<u8> {
    entries_bytes(es) + Seq::new((size - 32 * es.len()) as nat, |i: int| 0u8)
}

/// The entry's shown name and the file name agree once both are upper-cased.
pub open spec fn name_matches(e: DirectoryEntry, filename: Seq<char>) -> bool {
    e.named() && unicode_uppercase(e.shown_name()) == unicode_uppercase(filename)
}

/// The entry whose 32 bytes on disk are `b`.
pub open spec fn decoded_entry(b: Seq<u8>) -> DirectoryEntry {
    choose|e: DirectoryEntry| e.bytes() == b
}

/// The entries that 32-byte records describe, in order.
pub open spec fn decoded_entries(rs: Seq<Seq<u8>>) -> Seq<DirectoryEntry> {
    rs.map_values(|b: Seq<u8>| decoded_entry(b))
}

/// Records read back describe the entries they were made of.
pub proof fn lemma_decode_records(es: Seq<DirectoryEntry>)
    ensures
        decoded_entries(entry_records(es)) == es,
{
    assert forall|k: int| 0 <= k < es.len() implies #[trigger] decoded_entries(entry_records(es))[k] == es[k] by {
        let b = es[k].bytes();
        assert(entry_records(es)[k] == b);
        assert(es[k].bytes() == b);
        let d = decoded_entry(b);
        assert(d.bytes() == b);
        law_entry_bytes_determine_entry(d, es[k]);
    }
    assert(decoded_entries(entry_records(es)) =~= es);
}

/// Index of the first entry from `i` on whose name matches, if any.
pub open spec fn first_match_from(es: Seq<DirectoryEntry>, filename: Seq<char>, i: int) -> Option<int>
    decreases es.len() - i,
{
    if i < 0 || i >= es.len() {
        None
    } else if name_matches(es[i], filename) {
        Some(i)
    } else {
        first_match_from(es, filename, i + 1)
    }
}

/// Index of the first entry whose name matches, if any.
pub open spec fn first_match(es: Seq<DirectoryEntry>, filename: Seq<char>) -> Option<int> {
    first_match_from(es, filename, 0)
}

/// Reads the entries of a root directory region: slot by slot up to the
/// entry count (and the end of the bytes), stopping at the first unused slot
/// and leaving out deleted, long-name and volume-label slots.
pub fn parse_root_directory(data: &[u8], entry_count: usize) -> (r: Vec<DirectoryEntry>)
    ensures
        entry_records(r@) == listed_entries(data@, entry_count as int),
{
    let limit = if entry_count < data.len() / DIR_ENTRY_SIZE { entry_count } else { data.len() / DIR_ENTRY_SIZE };
    let ghost whole = listed_entries(data@, entry_count as int);
    let mut out: Vec<DirectoryEntry> = Vec::new();
    let mut i: usize = 0;
    while i < limit
        invariant
            limit == slot_limit(data@.len() as int, entry_count as int),
            whole == listed_entries(data@, entry_count as int),
            i <= limit,
            entry_records(out@) + listed_from(data@, entry_count as int, i as int) == whole,
        decreases limit - i,
    {
        let dlen = data.len();
        assert(i * 32 + 32 <= dlen) by (nonlinear_arith)
            requires i < limit, limit <= dlen / 32;
        let offset = i * DIR_ENTRY_SIZE;
        let rec = &data[offset..offset + DIR_ENTRY_SIZE];
        assert(rec@ == slot(data@, i as int));
        if rec[0] == SLOT_UNUSED {
            assert(listed_from(data@, entry_count as int, i as int) =~= Seq::<Seq<u8>>::empty());
            assert(entry_records(out@) =~= whole);
            return out;
        }
        let entry = DirectoryEntry::from_bytes(rec);
        let ghost before = out@;
        if !entry.is_deleted() && !entry.is_lfn() && !entry.is_volume_id() {
            out.push(entry);
            assert(entry_records(out@) =~= entry_records(before)
                + seq![rec@]);
        }
        i = i + 1;
    }
    assert(listed_from(data@, entry_count as int, i as int) =~= Seq::<Seq<u8>>::empty());
    assert(entry_records(out@) =~= whole);
    out
}

/// The listing has at most as many entries as the region has slots.
pub proof fn lemma_listed_len(data: Seq<u8>, count: int, i: int)
    requires
        0 <= i,
    ensures
        listed_from(data, count, i).len() <= if slot_limit(data.len() as int, count) > i {
            slot_limit(data.len() as int, count) - i
        } else {
            0
        },
    decreases slot_limit(data.len() as int, count) - i,
{
    if i < slot_limit(data.len() as int, count) {
        lemma_listed_len(data, count, i + 1);
    }
}

/// The bytes of a root directory region of `size` bytes holding the given
/// entries first and zeros after, or nothing where they do not fit.
pub fn serialize_root_directory(entries: &Vec<DirectoryEntry>, size: usize) -> (r: Option<Vec<u8>>)
    ensures
        match r {
            Some(v) => 32 * entries@.len() <= size && v@ == root_region(entries@, size as int) && v@.len() == size,
            None => 32 * entries@.len() > size,
        },
{
    if entries.len() > size / DIR_ENTRY_SIZE {
        return None;
    }
    let mut out: Vec<u8> = Vec::new();
    let mut i: usize = 0;
    while i < entries.len()
        invariant
            i <= entries@.len(),
            entries@.len() <= size / 32,
            out@ == entries_bytes(entries@.subrange(0, i as int)),
            out@.len() == 32 * i,
        decreases entries.len() - i,
    {
        let b = entries[i].to_bytes();
        out.append(&mut b.clone());
        proof {
            assert(entries@.subrange(0, i + 1).drop_last() =~= entries@.subrange(0, i as int));
            lemma_entry_bytes_len(entries@[i as int]);
        }
        i = i + 1;
    }
    assert(entries@.subrange(0, entries@.len() as int) =~= entries@);
    let ghost body = out@;
    while out.len() < size
        invariant
            body.len() <= out@.len() <= size,
            out@.subrange(0, body.len() as int) == body,
            forall|k: int| body.len() <= k < out@.len() ==> out@[k] == 0u8,
        decreases size - out.len(),
    {
        out.push(0u8);
    }
    assert(out@ =~= root_region(entries@, size as int));
    Some(out)
}

proof fn lemma_entry_bytes_len(e: DirectoryEntry)
    ensures
        e.bytes().len() == 32,
{
}

/// Index of the first entry whose shown name matches the file name once both
/// are upper-cased.
pub fn find_entry_index(entries: &Vec<DirectoryEntry>, filename: &str) -> (r: Option<usize>)
    ensures
        match r {
            Some(i) => first_match(entries@, filename@) == Some(i as int) && i < entries@.len(),
            None => first_match(entries@, filename@) is None,
        },
        upper_known(filename@),
{
    let wanted = str_to_uppercase(filename);
    let mut i: usize = 0;
    while i < entries.len()
        invariant
            i <= entries@.len(),
            wanted@ == unicode_uppercase(filename@),
            upper_known(filename@),
            first_match(entries@, filename@) == first_match_from(entries@, filename@, i as int),
        decreases entries.len() - i,
    {
        if let Ok(name) = entries[i].get_name() {
            let upper = str_to_uppercase(name.as_str());
            if upper == wanted {
                return Some(i);
            }
        }
        i = i + 1;
    }
    None
}

proof fn lemma_entries_bytes(es: Seq<DirectoryEntry>, i: int)
    requires
        0 <= i < es.len(),
    ensures
        entries_bytes(es).len() == 32 * es.len(),
        entries_bytes(es).subrange(32 * i, 32 * i + 32) == es[i].bytes(),
    decreases es.len(),
{
    let init = es.drop_last();
    lemma_entries_bytes_len(init);
    lemma_entry_bytes_len(es.last());
    if i < es.len() - 1 {
        lemma_entries_bytes(init, i);
        assert(entries_bytes(es).subrange(32 * i, 32 * i + 32) =~= entries_bytes(init).subrange(32 * i, 32 * i + 32));
    } else {
        assert(entries_bytes(es).subrange(32 * i, 32 * i + 32) =~= es.last().bytes());
    }
}

pub proof fn lemma_entries_bytes_len(es: Seq<DirectoryEntry>)
    ensures
        entries_bytes(es).len() == 32 * es.len(),
    decreases es.len(),
{
    if es.len() > 0 {
        lemma_entries_bytes_len(es.drop_last());
        lemma_entry_bytes_len(es.last());
    }
}

/// A slot that the directory listing shows: in use, not deleted, not a
/// long-name fragment, not the volume label.
pub open spec fn listable(e: DirectoryEntry) -> bool {
    e.bytes()[0] != SLOT_UNUSED && kept_slot(e.bytes())
}

proof fn lemma_listed_region(es: Seq<DirectoryEntry>, size: int, count: int, i: int)
    requires
        0 <= i <= es.len(),
        es.len() <= count,
        32 * es.len() <= size,
        forall|k: int| 0 <= k < es.len() ==> #[trigger] listable(es[k]),
    ensures
        listed_from(root_region(es, size), count, i) == entry_records(es).subrange(i, es.len() as int),
    decreases es.len() - i,
{
    let data = root_region(es, size);
    lemma_entries_bytes_len(es);
    assert(data.len() == size);
    assert(32 * es.len() <= 32 * (size / 32)) by (nonlinear_arith)
        requires 32 * es.len() <= size, size >= 0;
    if i < es.len() {
        lemma_entries_bytes(es, i);
        assert(slot(data, i) =~= es[i].bytes());
        assert(listable(es[i]));
        lemma_listed_region(es, size, count, i + 1);
        assert(entry_records(es).subrange(i, es.len() as int) =~= seq![es[i].bytes()]
            + entry_records(es).subrange(i + 1, es.len() as int));
    } else {
        if i < slot_limit(size, count) {
            assert(32 * i + 32 <= size) by (nonlinear_arith)
                requires i < size / 32, size >= 0;
            assert(slot(data, i)[0] == data[32 * i]);
        }
        assert(entry_records(es).subrange(i, es.len() as int) =~= Seq::<Seq<u8>>::empty());
    }
}

/// Writing entries back over the root directory region and reading the
/// region again lists the same entries, in order, where each of them is one
/// that the listing shows and the region and the entry count have room for
/// them all.
pub proof fn law_root_directory_roundtrip(es: Seq<DirectoryEntry>, size: int, count: int)
    requires
        es.len() <= count,
        32 * es.len() <= size,
        forall|k: int| 0 <= k < es.len() ==> #[trigger] listable(es[k]),
    ensures
        listed_entries(root_region(es, size), count) == entry_records(es),
{
    lemma_listed_region(es, size, count, 0);
    assert(entry_records(es).subrange(0, es.len() as int) =~= entry_records(es));
}

/// Every record the scan lists from slot `i` on is a whole 32-byte slot that
/// is in use and kept.
proof fn lemma_listed_records(data: Seq<u8>, count: int, i: int)
    requires
        0 <= i,
    ensures
        forall|k: int| 0 <= k < listed_from(data, count, i).len() ==> {
            let b = #[trigger] listed_from(data, count, i)[k];
            b.len() == 32 && b[0] != SLOT_UNUSED && kept_slot(b)
        },
    decreases slot_limit(data.len() as int, count) - i,
{
    let lim = slot_limit(data.len() as int, count);
    if i < lim && slot(data, i)[0] != SLOT_UNUSED {
        lemma_listed_records(data, count, i + 1);
        let dl = data.len() as int;
        assert(32 * i + 32 <= dl) by (nonlinear_arith)
            requires i < lim, lim <= dl / 32, dl >= 0;
        assert(slot(data, i).len() == 32);
        let rest = listed_from(data, count, i + 1);
        if kept_slot(slot(data, i)) {
            assert forall|k: int| 0 <= k < listed_from(data, count, i).len() implies {
                let b = #[trigger] listed_from(data, count, i)[k];
                b.len() == 32 && b[0] != SLOT_UNUSED && kept_slot(b)
            } by {
                if k > 0 {
                    assert(listed_from(data, count, i)[k] == rest[k - 1]);
                }
            }
        }
    }
}

/// The entries a listing describes give back its records, and each of them
/// is one the listing shows.
pub proof fn lemma_listed_decoded(data: Seq<u8>, count: int)
    ensures
        entry_records(decoded_entries(listed_entries(data, count))) == listed_entries(data, count),
        forall|k: int| 0 <= k < decoded_entries(listed_entries(data, count)).len() ==> #[trigger] listable(
            decoded_entries(listed_entries(data, count))[k],
        ),
{
    let rs = listed_entries(data, count);
    lemma_listed_records(data, count, 0);
    assert forall|k: int| 0 <= k < rs.len() implies #[trigger] decoded_entries(rs)[k].bytes() == rs[k] by {
        lemma_record_has_entry(rs[k]);
    }
    assert(entry_records(decoded_entries(rs)) =~= rs);
    assert forall|k: int| 0 <= k < decoded_entries(rs).len() implies #[trigger] listable(decoded_entries(rs)[k]) by {
        assert(decoded_entries(rs)[k].bytes() == rs[k]);
    }
}

/// Where no entry of a list matches the name, the first match in the list
/// with one more matching entry at its end is that entry.
pub proof fn lemma_first_match_push(es: Seq<DirectoryEntry>, x: DirectoryEntry, filename: Seq<char>, i: int)
    requires
        0 <= i <= es.len(),
        first_match_from(es, filename, i) is None,
        name_matches(x, filename),
    ensures
        first_match_from(es.push(x), filename, i) == Some(es.len() as int),
    decreases es.len() - i,
{
    if i < es.len() {
        assert(es.push(x)[i] == es[i]);
        lemma_first_match_push(es, x, filename, i + 1);
    } else {
        assert(es.push(x)[i] == x);
    }
}

/// The entries a root directory region holding `es` first (and zeros after)
/// lists, from entry `i` on: the scan stops at the first entry whose name
/// starts with a zero byte, at the entry count or at the end of `es`, and
/// leaves out deleted, long-name and volume-label entries.
pub open spec fn listing_from(es: Seq<DirectoryEntry>, count: int, i: int) -> Seq<DirectoryEntry>
    decreases es.len() - i,
{
    if i < 0 || i >= es.len() || i >= count || es[i].bytes()[0] == SLOT_UNUSED {
        seq![]
    } else if kept_slot(es[i].bytes()) {
        seq![es[i]] + listing_from(es, count, i + 1)
    } else {
        listing_from(es, count, i + 1)
    }
}

proof fn lemma_listing_region(es: Seq<DirectoryEntry>, size: int, count: int, i: int)
    requires
        0 <= i <= es.len(),
        32 * es.len() <= size,
    ensures
        listed_from(root_region(es, size), count, i) == entry_records(listing_from(es, count, i)),
    decreases es.len() - i,
{
    let data = root_region(es, size);
    lemma_entries_bytes_len(es);
    assert(data.len() == size);
    assert(32 * es.len() <= 32 * (size / 32)) by (nonlinear_arith)
        requires 32 * es.len() <= size, size >= 0;
    if i < es.len() {
        lemma_entries_bytes(es, i);
        assert(slot(data, i) =~= es[i].bytes());
        lemma_listing_region(es, size, count, i + 1);
        let rest = listing_from(es, count, i + 1);
        if i < count && es[i].bytes()[0] != SLOT_UNUSED && kept_slot(es[i].bytes()) {
            assert(entry_records(seq![es[i]] + rest) =~= seq![es[i].bytes()] + entry_records(rest));
        }
    } else {
        if i < slot_limit(size, count) {
            assert(32 * i + 32 <= size) by (nonlinear_arith)
                requires i < size / 32, size >= 0;
            assert(slot(data, i)[0] == data[32 * i]);
        }
        assert(entry_records(listing_from(es, count, i)) =~= Seq::<Seq<u8>>::empty());
    }
}

/// Writing any entries back over the root directory region and reading the
/// region again lists the entries before the first one whose name starts
/// with a zero byte and within the entry count, leaving out deleted,
/// long-name and volume-label entries, in order; where the region has room
/// for them all.
pub proof fn law_root_directory_listing(es: Seq<DirectoryEntry>, size: int, count: int)
    requires
        32 * es.len() <= size,
    ensures
        decoded_entries(listed_entries(root_region(es, size), count)) == listing_from(es, count, 0),
{
    lemma_listing_region(es, size, count, 0);
    lemma_decode_records(listing_from(es, count, 0));
}

/// Names that upper-case alike match the same entries, so the first match
/// is the same for both.
pub proof fn lemma_first_match_alike(es: Seq<DirectoryEntry>, f: Seq<char>, g: Seq<char>, i: int)
    requires
        unicode_uppercase(f) == unicode_uppercase(g),
    ensures
        first_match_from(es, f, i) == first_match_from(es, g, i),
    decreases es.len() - i,
{
    if 0 <= i < es.len() {
        lemma_first_match_alike(es, f, g, i + 1);
    }
}

proof fn lemma_listing_keeps_slot_from(data: Seq<u8>, count: int, i: int, j: int)
    requires
        0 <= j <= i < slot_limit(data.len() as int, count),
        forall|k: int| 0 <= k <= i ==> #[trigger] slot(data, k)[0] != SLOT_UNUSED,
        slot(data, i)[0] != 0xE5,
        slot(data, i)[11] != 0x0F,
        slot(data, i)[11] & 0x08 == 0,
    ensures
        listed_from(data, count, j).contains(slot(data, i)),
    decreases i - j,
{
    assert(slot(data, j)[0] != SLOT_UNUSED);
    if j == i {
        assert(listed_from(data, count, j)[0] == slot(data, i));
    } else {
        lemma_listing_keeps_slot_from(data, count, i, j + 1);
        let rest = listed_from(data, count, j + 1);
        let k = choose|k: int| 0 <= k < rest.len() && rest[k] == slot(data, i);
        if kept_slot(slot(data, j)) {
            assert(listed_from(data, count, j)[k + 1] == rest[k]);
        }
    }
}

/// The listing of a root directory region keeps every slot before the first
/// unused one and within the entry count that is not deleted (first byte
/// 0xE5), not a long-name fragment (attributes 0x0F) and not a volume label
/// (attribute bit 0x08): files and subdirectories (attribute 0x10) alike.
pub proof fn law_listing_keeps_slot(data: Seq<u8>, count: int, i: int)
    requires
        0 <= i < slot_limit(data.len() as int, count),
        forall|k: int| 0 <= k <= i ==> #[trigger] slot(data, k)[0] != 0x00,
        slot(data, i)[0] != 0xE5,
        slot(data, i)[11] != 0x0F,
        slot(data, i)[11] & 0x08 == 0,
    ensures
        listed_entries(data, count).contains(slot(data, i)),
{
    lemma_listing_keeps_slot_from(data, count, i, 0);
}

/// A slot the listing keeps is one in use that is neither deleted, nor a
/// long-name fragment, nor a volume label.
pub proof fn law_listing_only_such_slots(data: Seq<u8>, count: int)
    ensures
        forall|k: int| 0 <= k < listed_entries(data, count).len() ==> {
            let b = #[trigger] listed_entries(data, count)[k];
            b.len() == 32 && b[0] != 0x00 && b[0] != 0xE5 && b[11] != 0x0F && b[11] & 0x08 == 0
        },
{
    lemma_listed_records(data, count, 0);
}

} // verus!
