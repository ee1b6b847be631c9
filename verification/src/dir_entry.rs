//! The 32-byte FAT directory entry: its flags, its 8.3 name, and its
//! little-endian layout on disk.
use vstd::prelude::*;
use vstd::string::StringSliceAdditionalSpecFns;
use crate::text::{latin1, ascii_upper, latin1_string, to_ascii_uppercase};

verus! {

/// Byte value of the space that pads 8.3 names.
pub const SPACE: u8 = 32;

/// Byte value of the dot between name and extension.
pub const DOT: u8 = 46;

/// First name byte of a slot that was never used.
pub const SLOT_UNUSED: u8 = 0x00;

/// First name byte of a deleted entry.
pub const SLOT_DELETED: u8 = 0xE5;

/// Attribute value of a long-file-name fragment.
pub const ATTR_LONG_NAME: u8 = 0x0F;

/// Attribute bit of a subdirectory.
pub const ATTR_DIRECTORY: u8 = 0x10;

/// Attribute bit of the volume label.
pub const ATTR_VOLUME_ID: u8 = 0x08;

/// Attribute value given to newly created files (archive).
pub const ATTR_ARCHIVE: u8 = 0x20;

/// Size of one directory entry on disk.
pub const DIR_ENTRY_SIZE: usize = 32;

/// One entry of a FAT directory, field for field as it lies on disk.
#[derive(Clone, Copy, Debug)]
pub struct DirectoryEntry {
    pub name: [u8; 11],
    pub attributes: u8,
    pub reserved: u8,
    pub creation_time_tenth: u8,
    pub creation_time: u16,
    pub creation_date: u16,
    pub last_access_date: u16,
    pub first_cluster_high: u16,
    pub last_mod_time: u16,
    pub last_mod_date: u16,
    pub first_cluster: u16,
    pub file_size: u32,
}

// ----- the name as get_name shows it -----

/// Index of the first space among the first eight name bytes, starting at
/// `i`, or 8 where there is none.
pub open spec fn base_len_from(name: Seq<u8>, i: int) -> int
    decreases 8 - i,
{
    if i >= 8 || name[i] == SPACE {
        i
    } else {
        base_len_from(name, i + 1)
    }
}

/// A byte as a one-element sequence, or nothing where it is a space.
pub open spec fn non_space(b: u8) -> Seq<u8> {
    if b == SPACE {
        seq![]
    } else {
        seq![b]
    }
}

/// The non-space bytes among name bytes 8 up to `i`, in order.
pub open spec fn ext_upto(name: Seq<u8>, i: int) -> Seq<u8>
    decreases i,
{
    if i <= 8 {
        seq![]
    } else {
        ext_upto(name, i - 1) + non_space(name[i - 1])
    }
}

/// The bytes of the 8.3 name as shown: the base up to its first space, then,
/// where the extension holds a non-space byte, a dot and those bytes.
pub open spec fn shown_name_bytes(name: Seq<u8>) -> Seq<u8> {
    let base = name.subrange(0, base_len_from(name, 0));
    let ext = ext_upto(name, 11);
    if ext.len() > 0 {
        base + seq![DOT] + ext
    } else {
        base
    }
}

// ----- the name as set_name stores it -----

/// Index of the first dot in `s` at or after `i`, or -1.
pub open spec fn first_dot_from(s: Seq<u8>, i: int) -> int
    decreases s.len() - i,
{
    if i >= s.len() || i < 0 {
        -1
    } else if s[i] == DOT {
        i
    } else {
        first_dot_from(s, i + 1)
    }
}

/// How `split('.')` cuts a file name into name and extension: the whole
/// name where it holds no dot, the two sides of the dot where it holds one,
/// and nothing where it holds more.
pub open spec fn filename_parts(s: Seq<u8>) -> Option<(Seq<u8>, Seq<u8>)> {
    let p = first_dot_from(s, 0);
    if p < 0 {
        Some((s, seq![]))
    } else {
        let rest = s.subrange(p + 1, s.len() as int);
        if first_dot_from(rest, 0) < 0 {
            Some((s.subrange(0, p), rest))
        } else {
            None
        }
    }
}

/// `part` upper-cased and padded with spaces to `width` bytes.
pub open spec fn padded_upper(part: Seq<u8>, width: nat) -> Seq<u8> {
    Seq::new(width, |i: int| if i < part.len() { ascii_upper(part[i]) } else { SPACE })
}

/// The 11 name bytes stored for a file name, or the error set_name gives.
pub open spec fn stored_name(s: Seq<u8>) -> Result<Seq<u8>, &'static str> {
    match filename_parts(s) {
        None => Err("Invalid filename format"),
        Some((base, ext)) => if base.len() > 8 || ext.len() > 3 {
            Err("Filename too long")
        } else {
            Ok(padded_upper(base, 8) + padded_upper(ext, 3))
        },
    }
}

// ----- on-disk layout -----

pub open spec fn le16_bytes(v: u16) -> Seq<u8> {
    seq![(v % 256) as u8, (v / 256) as u8]
}

pub open spec fn le32_bytes(v: u32) -> Seq<u8> {
    seq![(v % 256) as u8, ((v / 256) % 256) as u8, ((v / 65536) % 256) as u8, (v / 16777216) as u8]
}

impl DirectoryEntry {
    /// All fields but the name are equal.
    pub open spec fn same_but_name(self, other: DirectoryEntry) -> bool {
        &&& self.attributes == other.attributes
        &&& self.reserved == other.reserved
        &&& self.creation_time_tenth == other.creation_time_tenth
        &&& self.creation_time == other.creation_time
        &&& self.creation_date == other.creation_date
        &&& self.last_access_date == other.last_access_date
        &&& self.first_cluster_high == other.first_cluster_high
        &&& self.last_mod_time == other.last_mod_time
        &&& self.last_mod_date == other.last_mod_date
        &&& self.first_cluster == other.first_cluster
        &&& self.file_size == other.file_size
    }

    /// The 32 bytes of the entry on disk.
    pub open spec fn bytes(self) -> Seq<u8> {
        self.name@ + seq![self.attributes, self.reserved, self.creation_time_tenth]
            + le16_bytes(self.creation_time) + le16_bytes(self.creation_date)
            + le16_bytes(self.last_access_date) + le16_bytes(self.first_cluster_high)
            + le16_bytes(self.last_mod_time) + le16_bytes(self.last_mod_date)
            + le16_bytes(self.first_cluster) + le32_bytes(self.file_size)
    }

    pub open spec fn empty_slot(self) -> bool {
        self.name@[0] == SLOT_UNUSED
    }

    pub open spec fn deleted(self) -> bool {
        self.name@[0] == SLOT_DELETED
    }

    pub open spec fn long_name(self) -> bool {
        self.attributes == ATTR_LONG_NAME
    }

    pub open spec fn directory(self) -> bool {
        self.attributes & ATTR_DIRECTORY != 0
    }

    pub open spec fn volume_label(self) -> bool {
        self.attributes & ATTR_VOLUME_ID != 0
    }

    /// An entry that get_name accepts: in use, not deleted, not a long-name
    /// fragment and not the volume label.
    pub open spec fn named(self) -> bool {
        !self.empty_slot() && !self.deleted() && !self.long_name() && !self.volume_label()
    }

    /// The characters get_name gives for a named entry.
    pub open spec fn shown_name(self) -> Seq<char> {
        latin1(shown_name_bytes(self.name@))
    }

    /// The name slot is unused (first byte zero).
    pub fn is_empty(&self) -> (r: bool)
        ensures
            r == self.empty_slot(),
    {
        self.name[0] == SLOT_UNUSED
    }

    /// The entry was deleted (first byte 0xE5).
    pub fn is_deleted(&self) -> (r: bool)
        ensures
            r == self.deleted(),
    {
        self.name[0] == SLOT_DELETED
    }

    /// The entry is a long-file-name fragment (attributes 0x0F).
    pub fn is_lfn(&self) -> (r: bool)
        ensures
            r == self.long_name(),
    {
        self.attributes == ATTR_LONG_NAME
    }

    /// The entry describes a subdirectory (attribute bit 0x10).
    pub fn is_directory(&self) -> (r: bool)
        ensures
            r == self.directory(),
    {
        (self.attributes & ATTR_DIRECTORY) != 0
    }

    /// The entry is the volume label (attribute bit 0x08).
    pub fn is_volume_id(&self) -> (r: bool)
        ensures
            r == self.volume_label(),
    {
        (self.attributes & ATTR_VOLUME_ID) != 0
    }

    /// The bytes of the shown name: the base up to its first space, then a
    /// dot and the non-space extension bytes where there are any.
    fn name_bytes(&self) -> (r: Vec<u8>)
        ensures
            r@ == shown_name_bytes(self.name@),
    {
        let mut out: Vec<u8> = Vec::new();
        let mut i: usize = 0;
        while i < 8 && self.name[i] != SPACE
            invariant
                i <= 8,
                out@ == self.name@.subrange(0, i as int),
                base_len_from(self.name@, 0) == base_len_from(self.name@, i as int),
            decreases 8 - i,
        {
            out.push(self.name[i]);
            proof {
                assert(self.name@.subrange(0, i + 1) =~= self.name@.subrange(0, i as int).push(self.name@[i as int]));
            }
            i = i + 1;
        }
        assert(base_len_from(self.name@, i as int) == i);
        let base_end = i;
        let mut has_ext = false;
        let mut j: usize = 8;
        while j < 11
            invariant
                8 <= j <= 11,
                base_end == base_len_from(self.name@, 0),
                has_ext == (ext_upto(self.name@, j as int).len() > 0),
                out@ == if has_ext {
                    self.name@.subrange(0, base_end as int) + seq![DOT] + ext_upto(self.name@, j as int)
                } else {
                    self.name@.subrange(0, base_end as int)
                },
            decreases 11 - j,
        {
            let b = self.name[j];
            if b != SPACE {
                if !has_ext {
                    out.push(DOT);
                    has_ext = true;
                }
                out.push(b);
            }
            proof {
                assert(ext_upto(self.name@, j + 1) == ext_upto(self.name@, j as int) + non_space(self.name@[j as int]));
                if b != SPACE {
                    assert(out@ =~= self.name@.subrange(0, base_end as int) + seq![DOT] + ext_upto(self.name@, j + 1));
                } else {
                    assert(ext_upto(self.name@, j + 1) =~= ext_upto(self.name@, j as int));
                }
            }
            j = j + 1;
        }
        out
    }

    /// Stores a file name in 8.3 form: the part before the dot upper-cased in
    /// the first eight bytes, the part after it in the last three, both padded
    /// with spaces. A name with two or more dots, or a part too long, is
    /// refused and the entry is left as it was.
    pub fn set_name(&mut self, filename: &str) -> (r: Result<(), &'static str>)
        ensures
            match stored_name(filename.spec_bytes()) {
                Ok(n) => r is Ok && final(self).name@ == n && final(self).same_but_name(*old(self)),
                Err(m) => r == Err::<(), &'static str>(m) && *final(self) == *old(self),
            },
    {
        let bytes = filename.as_bytes();
        let len = bytes.len();
        let (name_part, ext_part): (&[u8], &[u8]) = match find_dot(bytes) {
            None => (bytes, &bytes[0..0]),
            Some(p) => {
                let rest = &bytes[p + 1..len];
                if find_dot(rest).is_some() {
                    return Err("Invalid filename format");
                }
                (&bytes[0..p], rest)
            },
        };
        proof {
            assert(bytes@.subrange(0, len as int) =~= bytes@);
            assert(filename_parts(bytes@) == Some((name_part@, ext_part@)));
        }
        if name_part.len() > 8 || ext_part.len() > 3 {
            return Err("Filename too long");
        }
        let mut n: [u8; 11] = [SPACE; 11];
        let mut i: usize = 0;
        while i < name_part.len()
            invariant
                i <= name_part@.len() <= 8,
                forall|k: int| 0 <= k < 11 ==> #[trigger] n@[k] == if k < i { ascii_upper(name_part@[k]) } else { SPACE },
            decreases name_part.len() - i,
        {
            n[i] = to_ascii_uppercase(name_part[i]);
            i = i + 1;
        }
        let mut j: usize = 0;
        while j < ext_part.len()
            invariant
                j <= ext_part@.len() <= 3,
                name_part@.len() <= 8,
                forall|k: int| 0 <= k < 8 ==> #[trigger] n@[k] == if k < name_part@.len() { ascii_upper(name_part@[k]) } else { SPACE },
                forall|k: int| 8 <= k < 11 ==> #[trigger] n@[k] == if k - 8 < j { ascii_upper(ext_part@[k - 8]) } else { SPACE },
            decreases ext_part.len() - j,
        {
            n[8 + j] = to_ascii_uppercase(ext_part[j]);
            j = j + 1;
        }
        assert(n@ =~= padded_upper(name_part@, 8) + padded_upper(ext_part@, 3));
        self.name = n;
        Ok(())
    }

    /// A new file entry (archive attribute, all times zero) for the given
    /// name, first cluster and size; the name is stored as set_name stores it.
    pub fn new_file(name: &str, first_cluster: u16, size: u32) -> (r: Result<Self, &'static str>)
        ensures
            match stored_name(name.spec_bytes()) {
                Ok(n) => r matches Ok(e) && e.name@ == n && e.fresh_file(first_cluster, size),
                Err(m) => r == Err::<DirectoryEntry, &'static str>(m),
            },
    {
        let mut entry = DirectoryEntry {
            name: [SPACE; 11],
            attributes: ATTR_ARCHIVE,
            reserved: 0,
            creation_time_tenth: 0,
            creation_time: 0,
            creation_date: 0,
            last_access_date: 0,
            first_cluster_high: 0,
            last_mod_time: 0,
            last_mod_date: 0,
            first_cluster,
            file_size: size,
        };
        match entry.set_name(name) {
            Ok(()) => Ok(entry),
            Err(m) => Err(m),
        }
    }

    /// The entry's 32 bytes as they lie on disk.
    pub fn to_bytes(&self) -> (r: Vec<u8>)
        ensures
            r@ == self.bytes(),
    {
        let mut out: Vec<u8> = Vec::new();
        let mut i: usize = 0;
        while i < 11
            invariant
                i <= 11,
                out@ == self.name@.subrange(0, i as int),
            decreases 11 - i,
        {
            out.push(self.name[i]);
            proof {
                assert(self.name@.subrange(0, i + 1) =~= self.name@.subrange(0, i as int).push(self.name@[i as int]));
            }
            i = i + 1;
        }
        out.push(self.attributes);
        out.push(self.reserved);
        out.push(self.creation_time_tenth);
        push_le16(&mut out, self.creation_time);
        push_le16(&mut out, self.creation_date);
        push_le16(&mut out, self.last_access_date);
        push_le16(&mut out, self.first_cluster_high);
        push_le16(&mut out, self.last_mod_time);
        push_le16(&mut out, self.last_mod_date);
        push_le16(&mut out, self.first_cluster);
        push_le32(&mut out, self.file_size);
        assert(out@ =~= self.bytes());
        out
    }

    /// The entry described by 32 bytes on disk.
    pub fn from_bytes(b: &[u8]) -> (r: DirectoryEntry)
        requires
            b@.len() == DIR_ENTRY_SIZE,
        ensures
            r.bytes() == b@,
    {
        let mut n: [u8; 11] = [0u8; 11];
        let mut i: usize = 0;
        while i < 11
            invariant
                i <= 11,
                b@.len() == 32,
                forall|k: int| 0 <= k < i ==> #[trigger] n@[k] == b@[k],
            decreases 11 - i,
        {
            n[i] = b[i];
            i = i + 1;
        }
        let r = DirectoryEntry {
            name: n,
            attributes: b[11],
            reserved: b[12],
            creation_time_tenth: b[13],
            creation_time: read_le16(b, 14),
            creation_date: read_le16(b, 16),
            last_access_date: read_le16(b, 18),
            first_cluster_high: read_le16(b, 20),
            last_mod_time: read_le16(b, 22),
            last_mod_date: read_le16(b, 24),
            first_cluster: read_le16(b, 26),
            file_size: read_le32(b, 28),
        };
        assert(r.bytes() =~= b@);
        r
    }

    /// The 8.3 name as text ("NAME.EXT", or "NAME" where the extension is
    /// blank), or an error for unused, deleted, long-name and label entries.
    pub fn get_name(&self) -> (r: Result<String, &'static str>)
        ensures
            match r {
                Ok(s) => self.named() && s@ == self.shown_name(),
                Err(m) => !self.named() && m == "Invalid entry",
            },
    {
        if self.is_empty() || self.is_deleted() || self.is_lfn() || self.is_volume_id() {
            return Err("Invalid entry");
        }
        let bytes = self.name_bytes();
        Ok(latin1_string(&bytes))
    }
}


impl DirectoryEntry {
    /// Archive attribute, every time and reserved field zero, and the given
    /// first cluster and size.
    pub open spec fn fresh_file(self, first_cluster: u16, size: u32) -> bool {
        &&& self.attributes == ATTR_ARCHIVE
        &&& self.reserved == 0
        &&& self.creation_time_tenth == 0
        &&& self.creation_time == 0
        &&& self.creation_date == 0
        &&& self.last_access_date == 0
        &&& self.first_cluster_high == 0
        &&& self.last_mod_time == 0
        &&& self.last_mod_date == 0
        &&& self.first_cluster == first_cluster
        &&& self.file_size == size
    }
}

/// Index of the first dot in the bytes, if any.
fn find_dot(s: &[u8]) -> (r: Option<usize>)
    ensures
        match r {
            Some(p) => first_dot_from(s@, 0) == p && p < s@.len(),
            None => first_dot_from(s@, 0) == -1,
        },
{
    let mut i: usize = 0;
    while i < s.len()
        invariant
            i <= s@.len(),
            first_dot_from(s@, 0) == first_dot_from(s@, i as int),
        decreases s.len() - i,
    {
        if s[i] == DOT {
            return Some(i);
        }
        i = i + 1;
    }
    None
}

pub(crate) fn push_le16(out: &mut Vec<u8>, v: u16)
    ensures
        final(out)@ == old(out)@ + le16_bytes(v),
{
    out.push((v % 256) as u8);
    out.push((v / 256) as u8);
    assert(final(out)@ =~= old(out)@ + le16_bytes(v));
}

pub(crate) fn push_le32(out: &mut Vec<u8>, v: u32)
    ensures
        final(out)@ == old(out)@ + le32_bytes(v),
{
    out.push((v % 256) as u8);
    out.push(((v / 256) % 256) as u8);
    out.push(((v / 65536) % 256) as u8);
    out.push((v / 16777216) as u8);
    assert(final(out)@ =~= old(out)@ + le32_bytes(v));
}

pub(crate) fn read_le16(b: &[u8], off: usize) -> (r: u16)
    requires
        off + 2 <= b@.len(),
    ensures
        le16_bytes(r) == b@.subrange(off as int, off + 2),
{
    let lo = b[off];
    let hi = b[off + 1];
    let r = (lo as u16) + (hi as u16) * 256;
    assert(r % 256 == lo && r / 256 == hi) by (nonlinear_arith)
        requires r == lo + hi * 256, lo < 256, hi < 256;
    assert(le16_bytes(r) =~= b@.subrange(off as int, off + 2));
    r
}

pub(crate) fn read_le32(b: &[u8], off: usize) -> (r: u32)
    requires
        off + 4 <= b@.len(),
    ensures
        le32_bytes(r) == b@.subrange(off as int, off + 4),
{
    let b0 = b[off];
    let b1 = b[off + 1];
    let b2 = b[off + 2];
    let b3 = b[off + 3];
    let r = (b0 as u32) + (b1 as u32) * 256 + (b2 as u32) * 65536 + (b3 as u32) * 16777216;
    assert(r % 256 == b0 && (r / 256) % 256 == b1 && (r / 65536) % 256 == b2 && r / 16777216 == b3)
        by (nonlinear_arith)
        requires r == b0 + b1 * 256 + b2 * 65536 + b3 * 16777216, b0 < 256, b1 < 256, b2 < 256, b3 < 256;
    assert(le32_bytes(r) =~= b@.subrange(off as int, off + 4));
    r
}

proof fn lemma_le16_injective(a: u16, b: u16)
    requires
        le16_bytes(a) == le16_bytes(b),
    ensures
        a == b,
{
    assert(le16_bytes(a)[0] == le16_bytes(b)[0]);
    assert(le16_bytes(a)[1] == le16_bytes(b)[1]);
    assert(a == (a / 256) * 256 + a % 256) by (nonlinear_arith);
    assert(b == (b / 256) * 256 + b % 256) by (nonlinear_arith);
}

proof fn lemma_le32_injective(a: u32, b: u32)
    requires
        le32_bytes(a) == le32_bytes(b),
    ensures
        a == b,
{
    assert(le32_bytes(a)[0] == le32_bytes(b)[0]);
    assert(le32_bytes(a)[1] == le32_bytes(b)[1]);
    assert(le32_bytes(a)[2] == le32_bytes(b)[2]);
    assert(le32_bytes(a)[3] == le32_bytes(b)[3]);
    assert(a == (a / 16777216) * 16777216 + ((a / 65536) % 256) * 65536 + ((a / 256) % 256) * 256 + a % 256)
        by (nonlinear_arith);
    assert(b == (b / 16777216) * 16777216 + ((b / 65536) % 256) * 65536 + ((b / 256) % 256) * 256 + b % 256)
        by (nonlinear_arith);
}

/// The 16-bit value stored little-endian at `off`.
pub open spec fn le16_at(b: Seq<u8>, off: int) -> u16 {
    (b[off] + b[off + 1] * 256) as u16
}

/// The 32-bit value stored little-endian at `off`.
pub open spec fn le32_at(b: Seq<u8>, off: int) -> u32 {
    (b[off] + b[off + 1] * 256 + b[off + 2] * 65536 + b[off + 3] * 16777216) as u32
}

proof fn lemma_le16_at(b: Seq<u8>, off: int)
    requires
        0 <= off,
        off + 2 <= b.len(),
    ensures
        le16_bytes(le16_at(b, off)) == b.subrange(off, off + 2),
{
    let lo = b[off] as int;
    let hi = b[off + 1] as int;
    let x = lo + hi * 256;
    assert(0 <= x < 65536) by (nonlinear_arith)
        requires 0 <= lo < 256, 0 <= hi < 256, x == lo + hi * 256;
    let r = le16_at(b, off);
    assert(r == x);
    assert(x % 256 == lo && x / 256 == hi) by (nonlinear_arith)
        requires x == lo + hi * 256, 0 <= lo < 256, 0 <= hi < 256;
    assert(le16_bytes(r) =~= b.subrange(off, off + 2));
}

proof fn lemma_le32_at(b: Seq<u8>, off: int)
    requires
        0 <= off,
        off + 4 <= b.len(),
    ensures
        le32_bytes(le32_at(b, off)) == b.subrange(off, off + 4),
{
    let b0 = b[off] as int;
    let b1 = b[off + 1] as int;
    let b2 = b[off + 2] as int;
    let b3 = b[off + 3] as int;
    let x = b0 + b1 * 256 + b2 * 65536 + b3 * 16777216;
    assert(0 <= x < 4294967296) by (nonlinear_arith)
        requires 0 <= b0 < 256, 0 <= b1 < 256, 0 <= b2 < 256, 0 <= b3 < 256, x == b0 + b1 * 256 + b2 * 65536 + b3 * 16777216;
    let r = le32_at(b, off);
    assert(r == x);
    assert(x % 256 == b0 && (x / 256) % 256 == b1 && (x / 65536) % 256 == b2 && x / 16777216 == b3)
        by (nonlinear_arith)
        requires x == b0 + b1 * 256 + b2 * 65536 + b3 * 16777216, 0 <= b0 < 256, 0 <= b1 < 256, 0 <= b2 < 256, 0 <= b3 < 256;
    assert(le32_bytes(r) =~= b.subrange(off, off + 4));
}

/// Any 32 bytes are the bytes of some entry.
pub proof fn lemma_record_has_entry(b: Seq<u8>)
    requires
        b.len() == 32,
    ensures
        exists|e: DirectoryEntry| e.bytes() == b,
{
    let e = DirectoryEntry {
        name: [b[0], b[1], b[2], b[3], b[4], b[5], b[6], b[7], b[8], b[9], b[10]],
        attributes: b[11],
        reserved: b[12],
        creation_time_tenth: b[13],
        creation_time: le16_at(b, 14),
        creation_date: le16_at(b, 16),
        last_access_date: le16_at(b, 18),
        first_cluster_high: le16_at(b, 20),
        last_mod_time: le16_at(b, 22),
        last_mod_date: le16_at(b, 24),
        first_cluster: le16_at(b, 26),
        file_size: le32_at(b, 28),
    };
    lemma_le16_at(b, 14);
    lemma_le16_at(b, 16);
    lemma_le16_at(b, 18);
    lemma_le16_at(b, 20);
    lemma_le16_at(b, 22);
    lemma_le16_at(b, 24);
    lemma_le16_at(b, 26);
    lemma_le32_at(b, 28);
    assert(e.name@ =~= b.subrange(0, 11));
    assert(e.bytes() =~= b);
}

/// An entry is determined by its 32 bytes on disk: two entries with the same
/// bytes are the same entry, so reading back what `to_bytes` wrote with
/// `from_bytes` gives the entry that was written.
pub proof fn law_entry_bytes_determine_entry(e1: DirectoryEntry, e2: DirectoryEntry)
    requires
        e1.bytes() == e2.bytes(),
    ensures
        e1 == e2,
{
    let b1 = e1.bytes();
    let b2 = e2.bytes();
    assert(b1.subrange(0, 11) =~= e1.name@);
    assert(b2.subrange(0, 11) =~= e2.name@);
    assert(e1.name =~= e2.name);
    assert(b1.subrange(14, 16) =~= le16_bytes(e1.creation_time));
    assert(b2.subrange(14, 16) =~= le16_bytes(e2.creation_time));
    lemma_le16_injective(e1.creation_time, e2.creation_time);
    assert(b1.subrange(16, 18) =~= le16_bytes(e1.creation_date));
    assert(b2.subrange(16, 18) =~= le16_bytes(e2.creation_date));
    lemma_le16_injective(e1.creation_date, e2.creation_date);
    assert(b1.subrange(18, 20) =~= le16_bytes(e1.last_access_date));
    assert(b2.subrange(18, 20) =~= le16_bytes(e2.last_access_date));
    lemma_le16_injective(e1.last_access_date, e2.last_access_date);
    assert(b1.subrange(20, 22) =~= le16_bytes(e1.first_cluster_high));
    assert(b2.subrange(20, 22) =~= le16_bytes(e2.first_cluster_high));
    lemma_le16_injective(e1.first_cluster_high, e2.first_cluster_high);
    assert(b1.subrange(22, 24) =~= le16_bytes(e1.last_mod_time));
    assert(b2.subrange(22, 24) =~= le16_bytes(e2.last_mod_time));
    lemma_le16_injective(e1.last_mod_time, e2.last_mod_time);
    assert(b1.subrange(24, 26) =~= le16_bytes(e1.last_mod_date));
    assert(b2.subrange(24, 26) =~= le16_bytes(e2.last_mod_date));
    lemma_le16_injective(e1.last_mod_date, e2.last_mod_date);
    assert(b1.subrange(26, 28) =~= le16_bytes(e1.first_cluster));
    assert(b2.subrange(26, 28) =~= le16_bytes(e2.first_cluster));
    lemma_le16_injective(e1.first_cluster, e2.first_cluster);
    assert(b1.subrange(28, 32) =~= le32_bytes(e1.file_size));
    assert(b2.subrange(28, 32) =~= le32_bytes(e2.file_size));
    lemma_le32_injective(e1.file_size, e2.file_size);
    assert(b1[11] == b2[11]);
    assert(b1[12] == b2[12]);
    assert(b1[13] == b2[13]);
}

proof fn lemma_base_len(name: Seq<u8>, base: Seq<u8>, i: int)
    requires
        name.len() == 11,
        base.len() <= 8,
        0 <= i <= base.len(),
        forall|k: int| 0 <= k < base.len() ==> #[trigger] name[k] != SPACE,
        base.len() < 8 ==> name[base.len() as int] == SPACE,
    ensures
        base_len_from(name, i) == base.len(),
    decreases base.len() - i,
{
    if i < base.len() {
        lemma_base_len(name, base, i + 1);
    }
}

proof fn lemma_ext_upto(name: Seq<u8>, ext: Seq<u8>, i: int)
    requires
        name.len() == 11,
        ext.len() <= 3,
        8 <= i <= 11,
        forall|k: int| 0 <= k < ext.len() ==> name[8 + k] == #[trigger] ascii_upper(ext[k]) && ext[k] != SPACE,
        forall|k: int| 8 + ext.len() <= k < 11 ==> #[trigger] name[k] == SPACE,
    ensures
        ext_upto(name, i) =~= if i - 8 <= ext.len() {
            ext.subrange(0, i - 8).map_values(|b: u8| ascii_upper(b))
        } else {
            ext.map_values(|b: u8| ascii_upper(b))
        },
    decreases i,
{
    if i > 8 {
        lemma_ext_upto(name, ext, i - 1);
        if i - 8 <= ext.len() {
            assert(name[8 + (i - 9)] == ascii_upper(ext[i - 9]));
            assert(ascii_upper(ext[i - 9]) != SPACE);
        }
    }
}

/// Storing a file name and showing it again gives the name upper-cased,
/// byte for byte, where set_name accepts it, no byte of it is a space, and a
/// dot in it has at least one byte after it. The shown name is what get_name
/// returns for an entry that is in use (not deleted, not a long-name fragment,
/// not the volume label).
pub proof fn law_name_roundtrip(filename: Seq<u8>, e: DirectoryEntry)
    requires
        stored_name(filename) is Ok,
        e.name@ == stored_name(filename)->Ok_0,
        forall|k: int| 0 <= k < filename.len() ==> #[trigger] filename[k] != SPACE,
        first_dot_from(filename, 0) >= 0 ==> first_dot_from(filename, 0) < filename.len() - 1,
    ensures
        shown_name_bytes(e.name@) == filename.map_values(|b: u8| ascii_upper(b)),
        e.shown_name() == latin1(filename.map_values(|b: u8| ascii_upper(b))),
{
    let (base, ext) = filename_parts(filename)->Some_0;
    let name = e.name@;
    let p = first_dot_from(filename, 0);
    lemma_first_dot_bounds(filename, 0);
    if p >= 0 {
        assert(base =~= filename.subrange(0, p));
        assert(ext =~= filename.subrange(p + 1, filename.len() as int));
    } else {
        assert(base =~= filename);
    }
    assert forall|k: int| 0 <= k < base.len() implies #[trigger] name[k] != SPACE by {
        assert(base[k] == filename[k]);
    }
    lemma_base_len(name, base, 0);
    assert forall|k: int| 0 <= k < ext.len() implies name[8 + k] == #[trigger] ascii_upper(ext[k]) && ext[k] != SPACE by {
        assert(ext[k] == filename[p + 1 + k]);
    }
    lemma_ext_upto(name, ext, 11);
    assert(name.subrange(0, base.len() as int) =~= base.map_values(|b: u8| ascii_upper(b)));
    assert(ext.subrange(0, ext.len() as int) =~= ext);
    if p >= 0 {
        assert(ext.len() > 0);
        assert(filename =~= base + seq![DOT] + ext);
        assert(ascii_upper(DOT) == DOT);
        assert(filename.map_values(|b: u8| ascii_upper(b)) =~= base.map_values(|b: u8| ascii_upper(b)) + seq![DOT]
            + ext.map_values(|b: u8| ascii_upper(b)));
    } else {
        assert(ext =~= Seq::<u8>::empty());
    }
}

proof fn lemma_first_dot_bounds(s: Seq<u8>, i: int)
    requires
        0 <= i,
    ensures
        first_dot_from(s, i) == -1 || (i <= first_dot_from(s, i) < s.len() && s[first_dot_from(s, i)] == DOT
            && forall|k: int| i <= k < first_dot_from(s, i) ==> s[k] != DOT),
        first_dot_from(s, i) == -1 ==> forall|k: int| i <= k < s.len() ==> s[k] != DOT,
    decreases s.len() - i,
{
    if i < s.len() && s[i] != DOT {
        lemma_first_dot_bounds(s, i + 1);
    }
}

} // verus!
