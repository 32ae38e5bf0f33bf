//! The file-table metadata layout that a volume-backed filesystem stores
//! at the front of the logical volume: a fixed header followed by a fixed
//! table of file entries.

use vstd::prelude::*;

use crate::stripe::Stripe;
use crate::volume::Volume;

verus! {

/// The inode of the filesystem root.
pub const ROOT_ID: u64 = 1;

/// The first inode used for regular files.
pub const FILE_ID_BASE: u64 = 2;

/// The default disk image length in bytes.
pub const DEFAULT_DISK_LEN: u64 = 1024;

/// The default stripe chunk size in bytes.
pub const DEFAULT_CHUNK_SIZE: usize = 4;

/// The on-disk magic, the bytes of `RAIDFS1` and a trailing zero.
pub const MAGIC: [u8; 8] = [82u8, 65u8, 73u8, 68u8, 70u8, 83u8, 49u8, 0u8];

/// The on-disk format version.
pub const VERSION: u8 = 1;

/// The maximum filename length in bytes.
pub const NAME_LEN: usize = 64;

/// The maximum number of entries in the table.
pub const MAX_FILES: usize = 128;

/// The byte size of the metadata header.
pub const HEADER_SIZE: usize = 32;

/// The byte size of each file entry.
pub const ENTRY_SIZE: usize = 88;

/// The total size of the header and entry table.
pub const TABLE_SIZE: usize = HEADER_SIZE + ENTRY_SIZE * MAX_FILES;

/// The flag requesting direct IO on opened handles.
pub const OPEN_DIRECT_IO: u32 = 1;

/// The block size reported to statfs callers.
pub const STATFS_BLOCK_SIZE: u32 = 512;

/// The control file name exposed in the root directory.
pub const CTL_NAME: &'static str = ".raidctl";

/// The inode number of the control file, after the file range.
pub const CTL_INO: u64 = 131;

/// The fixed size of the control file in bytes.
pub const CTL_SIZE: u64 = 4096;

/// What a filename decodes to; file names are stored as bytes and decoded
/// leniently.
pub uninterp spec fn lossy_chars(b: Seq<u8>) -> Seq<char>;

/// Relies on String::from_utf8_lossy: the decoded text depends on the
/// bytes alone, and valid UTF-8 input decodes to exactly its characters.
#[verifier::external_body]
fn bytes_to_string_lossy(b: &[u8]) -> (r: String)
    ensures
        r@ == lossy_chars(b@),
        vstd::utf8::valid_utf8(b@) ==> r@ == vstd::utf8::decode_utf8(b@),
{
    String::from_utf8_lossy(b).into_owned()
}

/// Relies on str::as_bytes: the encoded bytes of the string.
#[verifier::external_body]
fn str_bytes(s: &String) -> (r: Vec<u8>)
    ensures
        r@ == vstd::utf8::encode_utf8(s@),
{
    s.as_bytes().to_vec()
}

/// `Header` is the table header: the next free data offset.
#[derive(Clone, Debug)]
pub struct Header {
    pub next_free: u64,
}

/// `Entry` is one file-table slot.
#[derive(Clone, Debug)]
pub struct Entry {
    pub name: String,
    pub offset: u64,
    pub size: u64,
    pub used: bool,
}

/// The byte layout of an entry: a used flag, the offset and size in
/// little-endian, and the name bytes clipped to the name field.
pub open spec fn spec_entry_bytes(used: bool, offset: u64, size: u64, name: Seq<u8>) -> Seq<
    u8,
> {
    Seq::new(
        ENTRY_SIZE as nat,
        |i: int|
            {
                if i == 0 {
                    if used {
                        1u8
                    } else {
                        0u8
                    }
                } else if 8 <= i < 16 {
                    vstd::bytes::spec_u64_to_le_bytes(offset)[i - 8]
                } else if 16 <= i < 24 {
                    vstd::bytes::spec_u64_to_le_bytes(size)[i - 16]
                } else if 24 <= i < 24 + NAME_LEN && i - 24 < name.len() {
                    name[i - 24]
                } else {
                    0u8
                }
            },
    )
}

/// The length of the stored name inside a name field, scanning from `k`:
/// it runs to the first zero byte, or to the end of the field.
pub open spec fn spec_name_len(f: Seq<u8>, k: int) -> int
    decreases f.len() - k,
{
    if k < 0 || k >= f.len() {
        f.len() as int
    } else if f[k] == 0 {
        k
    } else {
        spec_name_len(f, k + 1)
    }
}

proof fn lemma_name_len(f: Seq<u8>, k: int, e: int)
    requires
        0 <= k <= e <= f.len(),
        forall|q: int| k <= q < e ==> f[q] != 0,
        e == f.len() || f[e] == 0,
    ensures
        spec_name_len(f, k) == e,
    decreases e - k,
{
    if k < e {
        lemma_name_len(f, k + 1, e);
    }
}

impl Entry {
    /// `empty` returns an unused zeroed slot.
    pub fn empty() -> (r: Self)
        ensures
            r.name@.len() == 0,
            r.offset == 0,
            r.size == 0,
            !r.used,
    {
        Entry { name: String::new(), offset: 0, size: 0, used: false }
    }

    /// `to_bytes` encodes the slot; a name longer than the name field is
    /// clipped.
    pub fn to_bytes(&self) -> (r: Vec<u8>)
        ensures
            r@ == spec_entry_bytes(self.used, self.offset, self.size, vstd::utf8::encode_utf8(self.name@)),
            r@.len() == ENTRY_SIZE,
    {
        let ghost target = spec_entry_bytes(
            self.used,
            self.offset,
            self.size,
            vstd::utf8::encode_utf8(self.name@),
        );
        let mut buf: Vec<u8> = Vec::new();
        let flag: u8 = if self.used {
            1
        } else {
            0
        };
        buf.push(flag);
        let mut i: usize = 1;
        while i < 8
            invariant
                1 <= i <= 8,
                buf@.len() == i,
                target == spec_entry_bytes(
                    self.used,
                    self.offset,
                    self.size,
                    vstd::utf8::encode_utf8(self.name@),
                ),
                buf@ == target.take(i as int),
            decreases 8 - i,
        {
            buf.push(0u8);
            proof {
                assert(target.take(i + 1) =~= target.take(i as int).push(target[i as int]));
            }
            i = i + 1;
        }
        let off_b = vstd::bytes::u64_to_le_bytes(self.offset);
        let mut k: usize = 0;
        while k < 8
            invariant
                k <= 8,
                buf@.len() == 8 + k,
                off_b@ == vstd::bytes::spec_u64_to_le_bytes(self.offset),
                off_b@.len() == 8,
                target == spec_entry_bytes(
                    self.used,
                    self.offset,
                    self.size,
                    vstd::utf8::encode_utf8(self.name@),
                ),
                buf@ == target.take(8 + k),
            decreases 8 - k,
        {
            buf.push(off_b[k]);
            proof {
                assert(target.take(8 + k + 1) =~= target.take(8 + k).push(
                    target[8 + k as int],
                ));
            }
            k = k + 1;
        }
        let size_b = vstd::bytes::u64_to_le_bytes(self.size);
        let mut k2: usize = 0;
        while k2 < 8
            invariant
                k2 <= 8,
                buf@.len() == 16 + k2,
                size_b@ == vstd::bytes::spec_u64_to_le_bytes(self.size),
                size_b@.len() == 8,
                target == spec_entry_bytes(
                    self.used,
                    self.offset,
                    self.size,
                    vstd::utf8::encode_utf8(self.name@),
                ),
                buf@ == target.take(16 + k2),
            decreases 8 - k2,
        {
            buf.push(size_b[k2]);
            proof {
                assert(target.take(16 + k2 + 1) =~= target.take(16 + k2).push(
                    target[16 + k2 as int],
                ));
            }
            k2 = k2 + 1;
        }
        let name_b = str_bytes(&self.name);
        let max: usize = if name_b.len() <= NAME_LEN {
            name_b.len()
        } else {
            NAME_LEN
        };
        let mut k3: usize = 0;
        while k3 < max
            invariant
                k3 <= max,
                max <= NAME_LEN,
                max <= name_b@.len(),
                max == (if name_b@.len() <= NAME_LEN {
                    name_b@.len() as int
                } else {
                    NAME_LEN as int
                }),
                name_b@ == vstd::utf8::encode_utf8(self.name@),
                buf@.len() == 24 + k3,
                target == spec_entry_bytes(
                    self.used,
                    self.offset,
                    self.size,
                    vstd::utf8::encode_utf8(self.name@),
                ),
                buf@ == target.take(24 + k3),
            decreases max - k3,
        {
            buf.push(name_b[k3]);
            proof {
                assert(target.take(24 + k3 + 1) =~= target.take(24 + k3).push(
                    target[24 + k3 as int],
                ));
            }
            k3 = k3 + 1;
        }
        let mut k4: usize = 24 + max;
        while k4 < ENTRY_SIZE
            invariant
                24 + max <= k4 <= ENTRY_SIZE,
                max == (if name_b@.len() <= NAME_LEN {
                    name_b@.len() as int
                } else {
                    NAME_LEN as int
                }),
                name_b@ == vstd::utf8::encode_utf8(self.name@),
                buf@.len() == k4,
                target == spec_entry_bytes(
                    self.used,
                    self.offset,
                    self.size,
                    vstd::utf8::encode_utf8(self.name@),
                ),
                buf@ == target.take(k4 as int),
            decreases ENTRY_SIZE - k4,
        {
            buf.push(0u8);
            proof {
                assert(target.take(k4 + 1) =~= target.take(k4 as int).push(
                    target[k4 as int],
                ));
            }
            k4 = k4 + 1;
        }
        proof {
            assert(target.take(ENTRY_SIZE as int) =~= target);
        }
        buf
    }

    /// `from_bytes` decodes a slot: the used flag is byte zero, offset and
    /// size are little-endian, and the name is the name field up to its
    /// first zero byte, decoded leniently.
    pub fn from_bytes(buf: &[u8]) -> (r: Self)
        requires
            buf@.len() >= 24 + NAME_LEN,
        ensures
            r.used == (buf@[0] == 1),
            r.offset == vstd::bytes::spec_u64_from_le_bytes(buf@.subrange(8, 16)),
            r.size == vstd::bytes::spec_u64_from_le_bytes(buf@.subrange(16, 24)),
            ({
                let field = buf@.subrange(24, 24 + NAME_LEN);
                let name_bytes = field.take(spec_name_len(field, 0));
                &&& r.name@ == lossy_chars(name_bytes)
                &&& (vstd::utf8::valid_utf8(name_bytes) ==> r.name@ == vstd::utf8::decode_utf8(
                    name_bytes,
                ))
            }),
    {
        let used = buf[0] == 1;
        let offset = vstd::bytes::u64_from_le_bytes(vstd::slice::slice_subrange(buf, 8, 16));
        let size = vstd::bytes::u64_from_le_bytes(vstd::slice::slice_subrange(buf, 16, 24));
        let mut end: usize = 0;
        while end < NAME_LEN && buf[24 + end] != 0
            invariant
                end <= NAME_LEN,
                buf@.len() >= 24 + NAME_LEN,
                forall|q: int| 0 <= q < end ==> #[trigger] buf@[24 + q] != 0,
            decreases NAME_LEN - end,
        {
            end = end + 1;
        }
        proof {
            let field = buf@.subrange(24, 24 + NAME_LEN);
            assert forall|q: int| 0 <= q < end implies field[q] != 0 by {
                assert(field[q] == buf@[24 + q]);
            }
            assert(end == NAME_LEN || field[end as int] == 0) by {
                if end < NAME_LEN {
                    assert(field[end as int] == buf@[24 + end]);
                }
            }
            lemma_name_len(field, 0, end as int);
            assert(field.take(end as int) =~= buf@.subrange(24, 24 + end));
        }
        let name_b = vstd::slice::slice_subrange(buf, 24, 24 + end);
        let name = bytes_to_string_lossy(name_b);
        Entry { name, offset, size, used }
    }
}

/// `FsState` holds the mutable state of the table filesystem: the backing
/// volume, the parsed header, and the entry table.
pub struct FsState<const D: usize, const N: usize, T: Stripe<D, N>> {
    pub volume: Volume<D, N, T>,
    pub header: Header,
    pub entries: Vec<Entry>,
}

/// `data_start` is the first logical byte past the metadata table.
pub fn data_start() -> (r: u64)
    ensures
        r == TABLE_SIZE,
{
    TABLE_SIZE as u64
}

/// `header_bytes` encodes a header: the magic, the version, the next free
/// offset in little-endian, and the table capacity.
pub fn header_bytes(header: &Header) -> (r: Vec<u8>)
    ensures
        r@.len() == HEADER_SIZE,
        r@.subrange(0, 8) == MAGIC@,
        r@[8] == VERSION,
        r@.subrange(16, 24) == vstd::bytes::spec_u64_to_le_bytes(header.next_free),
        vstd::bytes::spec_u32_from_le_bytes(r@.subrange(24, 28)) == MAX_FILES,
{
    let mut buf: Vec<u8> = Vec::new();
    let mut i: usize = 0;
    while i < 8
        invariant
            i <= 8,
            buf@.len() == i,
            forall|q: int| 0 <= q < i ==> buf@[q] == MAGIC@[q],
        decreases 8 - i,
    {
        buf.push(MAGIC[i]);
        i = i + 1;
    }
    buf.push(VERSION);
    while buf.len() < 16
        invariant
            9 <= buf@.len() <= 16,
            forall|q: int| 0 <= q < 8 ==> buf@[q] == MAGIC@[q],
            buf@[8] == VERSION,
        decreases 16 - buf@.len(),
    {
        buf.push(0u8);
    }
    let nf = vstd::bytes::u64_to_le_bytes(header.next_free);
    let mut k: usize = 0;
    while k < 8
        invariant
            k <= 8,
            buf@.len() == 16 + k,
            nf@ == vstd::bytes::spec_u64_to_le_bytes(header.next_free),
            nf@.len() == 8,
            forall|q: int| 0 <= q < 8 ==> buf@[q] == MAGIC@[q],
            buf@[8] == VERSION,
            forall|q: int| 0 <= q < k ==> buf@[16 + q] == nf@[q],
        decreases 8 - k,
    {
        buf.push(nf[k]);
        k = k + 1;
    }
    let mf = vstd::bytes::u32_to_le_bytes(MAX_FILES as u32);
    let mut k2: usize = 0;
    while k2 < 4
        invariant
            k2 <= 4,
            buf@.len() == 24 + k2,
            mf@ == vstd::bytes::spec_u32_to_le_bytes(MAX_FILES as u32),
            mf@.len() == 4,
            forall|q: int| 0 <= q < 8 ==> buf@[q] == MAGIC@[q],
            buf@[8] == VERSION,
            forall|q: int| 0 <= q < 8 ==> buf@[16 + q] == nf@[q],
            forall|q: int| 0 <= q < k2 ==> buf@[24 + q] == mf@[q],
        decreases 4 - k2,
    {
        buf.push(mf[k2]);
        k2 = k2 + 1;
    }
    while buf.len() < HEADER_SIZE
        invariant
            28 <= buf@.len() <= HEADER_SIZE,
            forall|q: int| 0 <= q < 8 ==> buf@[q] == MAGIC@[q],
            buf@[8] == VERSION,
            forall|q: int| 0 <= q < 8 ==> buf@[16 + q] == nf@[q],
            forall|q: int| 0 <= q < 4 ==> buf@[24 + q] == mf@[q],
        decreases HEADER_SIZE - buf@.len(),
    {
        buf.push(0u8);
    }
    proof {
        assert(buf@.subrange(0, 8) =~= MAGIC@);
        assert(buf@.subrange(16, 24) =~= nf@);
        assert(buf@.subrange(24, 28) =~= mf@);
        vstd::bytes::lemma_auto_spec_u32_to_from_le_bytes();
    }
    buf
}

/// `parse_header` accepts a buffer exactly when it is long enough and
/// carries the magic, the version, and the table capacity; it returns the
/// stored next-free offset.
pub fn parse_header(buf: &[u8]) -> (r: Option<Header>)
    ensures
        r is Some <==> (buf@.len() >= HEADER_SIZE && buf@.subrange(0, 8) == MAGIC@ && buf@[8]
            == VERSION && vstd::bytes::spec_u32_from_le_bytes(buf@.subrange(24, 28))
            == MAX_FILES),
        r matches Some(h) ==> h.next_free == vstd::bytes::spec_u64_from_le_bytes(
            buf@.subrange(16, 24),
        ),
{
    if buf.len() < HEADER_SIZE {
        return None;
    }
    let mut i: usize = 0;
    while i < 8
        invariant
            i <= 8,
            buf@.len() >= HEADER_SIZE,
            forall|q: int| 0 <= q < i ==> buf@[q] == MAGIC@[q],
        decreases 8 - i,
    {
        if buf[i] != MAGIC[i] {
            proof {
                assert(buf@.subrange(0, 8)[i as int] != MAGIC@[i as int]);
            }
            return None;
        }
        i = i + 1;
    }
    proof {
        assert(buf@.subrange(0, 8) =~= MAGIC@);
    }
    if buf[8] != VERSION {
        return None;
    }
    let mf = vstd::bytes::u32_from_le_bytes(vstd::slice::slice_subrange(buf, 24, 28));
    if mf as usize != MAX_FILES {
        return None;
    }
    let next_free = vstd::bytes::u64_from_le_bytes(vstd::slice::slice_subrange(buf, 16, 24));
    Some(Header { next_free })
}

/// `inode_for` maps a table index to its inode.
pub fn inode_for(index: usize) -> (r: u64)
    requires
        index <= MAX_FILES,
    ensures
        r == FILE_ID_BASE + index,
{
    FILE_ID_BASE + (index as u64)
}

/// `index_for_inode` maps an inode back to its table index; inodes below
/// the file range or past the table have none.
pub fn index_for_inode(ino: u64) -> (r: Option<usize>)
    ensures
        r is Some <==> FILE_ID_BASE <= ino < FILE_ID_BASE + MAX_FILES,
        r matches Some(idx) ==> idx == ino - FILE_ID_BASE,
{
    if ino < FILE_ID_BASE {
        None
    } else {
        let idx = ino - FILE_ID_BASE;
        if idx < MAX_FILES as u64 {
            Some(idx as usize)
        } else {
            None
        }
    }
}

/// `is_valid_name` accepts a name that is non-empty, is not a dot
/// directory, and has no path separator.
pub fn is_valid_name(name: &str) -> (r: bool)
    ensures
        r == (name@.len() > 0 && name@ != crate::checksum_fs::seg_dot() && name@
            != crate::checksum_fs::seg_dotdot() && (forall|q: int|
            0 <= q < name@.len() ==> name@[q] != '/')),
{
    let chars = crate::checksum_fs::str_chars(name);
    if chars.len() == 0 {
        return false;
    }
    if chars.len() == 1 && chars[0] == '.' {
        proof {
            assert(name@ =~= crate::checksum_fs::seg_dot());
        }
        return false;
    }
    if chars.len() == 2 && chars[0] == '.' && chars[1] == '.' {
        proof {
            assert(name@ =~= crate::checksum_fs::seg_dotdot());
        }
        return false;
    }
    let mut q: usize = 0;
    while q < chars.len()
        invariant
            q <= chars@.len(),
            chars@ == name@,
            forall|t: int| 0 <= t < q ==> name@[t] != '/',
        decreases chars@.len() - q,
    {
        if chars[q] == '/' {
            return false;
        }
        q = q + 1;
    }
    proof {
        if name@ == crate::checksum_fs::seg_dot() {
            assert(name@.len() == 1 && name@[0] == '.');
        }
        if name@ == crate::checksum_fs::seg_dotdot() {
            assert(name@.len() == 2 && name@[0] == '.' && name@[1] == '.');
        }
    }
    true
}

/// Addition that sticks at the largest value instead of wrapping.
pub open spec fn spec_sat_add(a: u64, b: u64) -> u64 {
    if a + b > u64::MAX {
        u64::MAX
    } else {
        (a + b) as u64
    }
}

/// `WritePlan` is the bookkeeping outcome of an accepted file write: where
/// the bytes go, any gap to zero-fill first, and the updated sizes.
#[derive(Clone, Copy, PartialEq, Eq, Structural, Debug)]
pub struct WritePlan {
    /// Logical offset of the zero-fill gap (meaningful when `gap_len > 0`).
    pub gap_offset: u64,
    /// Bytes to zero between the old end of the file and the write start.
    pub gap_len: u64,
    /// Logical offset the payload itself goes to.
    pub abs_offset: u64,
    /// The entry's size after the write.
    pub new_size: u64,
    /// The table's next free offset after the write, when the entry is the
    /// last allocation and may grow.
    pub new_next_free: Option<u64>,
}

/// `plan_entry_write` decides whether a write of `len` bytes at file
/// offset `offset` fits an entry at `entry_offset` with `entry_size`
/// bytes: only the last allocation may grow, and nothing may grow past
/// the capacity.
pub fn plan_entry_write(
    entry_offset: u64,
    entry_size: u64,
    next_free: u64,
    capacity: u64,
    offset: u64,
    len: u64,
) -> (r: Option<WritePlan>)
    requires
        entry_offset + 1 <= u64::MAX,
        entry_offset <= next_free,
    ensures
        ({
            let end_offset = spec_sat_add(offset, len);
            let new_size = if entry_size >= end_offset {
                entry_size
            } else {
                end_offset
            };
            let allocated: u64 = if entry_size >= 1 {
                entry_size
            } else {
                1
            };
            let is_last = entry_offset + allocated == next_free;
            let new_allocated: u64 = if new_size >= 1 {
                new_size
            } else {
                1
            };
            let new_end = spec_sat_add(entry_offset, new_allocated);
            &&& (r is Some <==> !(new_end > capacity || (!is_last && new_size > entry_size)))
            &&& (r matches Some(p) ==> ({
                &&& p.gap_offset == spec_sat_add(entry_offset, entry_size)
                &&& p.gap_len == (if offset > entry_size {
                    offset - entry_size
                } else {
                    0
                })
                &&& p.abs_offset == spec_sat_add(entry_offset, offset)
                &&& p.new_size == new_size
                &&& p.new_next_free == (if is_last {
                    Some(new_end)
                } else {
                    Option::<u64>::None
                })
            }))
        }),
{
    let end_offset = if len <= u64::MAX - offset {
        offset + len
    } else {
        u64::MAX
    };
    let new_size = if entry_size >= end_offset {
        entry_size
    } else {
        end_offset
    };
    let allocated: u64 = if entry_size >= 1 {
        entry_size
    } else {
        1
    };
    let is_last = allocated <= u64::MAX - entry_offset && entry_offset + allocated
        == next_free;
    let new_allocated: u64 = if new_size >= 1 {
        new_size
    } else {
        1
    };
    let new_end = if new_allocated <= u64::MAX - entry_offset {
        entry_offset + new_allocated
    } else {
        u64::MAX
    };
    if new_end > capacity || (!is_last && new_size > entry_size) {
        return None;
    }
    let gap_len = if offset > entry_size {
        offset - entry_size
    } else {
        0
    };
    let gap_offset = if entry_size <= u64::MAX - entry_offset {
        entry_offset + entry_size
    } else {
        u64::MAX
    };
    let abs_offset = if offset <= u64::MAX - entry_offset {
        entry_offset + offset
    } else {
        u64::MAX
    };
    Some(
        WritePlan {
            gap_offset,
            gap_len,
            abs_offset,
            new_size,
            new_next_free: if is_last {
                Some(new_end)
            } else {
                None
            },
        },
    )
}

/// `plan_entry_read` clips a read of `size` bytes at file offset `offset`
/// to the entry's size and places it in the volume: it returns the
/// logical offset and the number of bytes to read.
pub fn plan_entry_read(entry_offset: u64, entry_size: u64, offset: u64, size: u32) -> (r: (
    u64,
    u64,
))
    requires
        entry_offset + entry_size <= u64::MAX,
    ensures
        r.1 == (if offset < entry_size {
            if size <= entry_size - offset {
                size as int
            } else {
                entry_size - offset
            }
        } else {
            0
        }),
        offset < entry_size ==> r.0 == entry_offset + offset,
{
    if offset >= entry_size {
        return (entry_offset, 0);
    }
    let available = entry_size - offset;
    let to_read = if (size as u64) <= available {
        size as u64
    } else {
        available
    };
    (entry_offset + offset, to_read)
}

/// `find_entry_named` returns the index of the first used entry with the
/// given name.
pub fn find_entry_named(entries: &Vec<Entry>, name: &String) -> (r: Option<usize>)
    ensures
        r matches Some(idx) ==> idx < entries@.len() && entries@[idx as int].used && entries@[
            idx as int].name@ == name@,
        r is None ==> forall|q: int|
            0 <= q < entries@.len() ==> !((#[trigger] entries@[q]).used && entries@[q].name@
                == name@),
{
    let mut j: usize = 0;
    while j < entries.len()
        invariant
            j <= entries@.len(),
            forall|q: int|
                0 <= q < j ==> !((#[trigger] entries@[q]).used && entries@[q].name@ == name@),
        decreases entries@.len() - j,
    {
        if entries[j].used && entries[j].name.eq(name) {
            return Some(j);
        }
        j = j + 1;
    }
    None
}

/// `find_unused_slot` returns the index of the first unused entry.
pub fn find_unused_slot(entries: &Vec<Entry>) -> (r: Option<usize>)
    ensures
        r matches Some(idx) ==> idx < entries@.len() && !entries@[idx as int].used && (forall|
            q: int,
        |
            0 <= q < idx ==> (#[trigger] entries@[q]).used),
        r is None ==> forall|q: int| 0 <= q < entries@.len() ==> (#[trigger] entries@[q]).used,
{
    let mut j: usize = 0;
    while j < entries.len()
        invariant
            j <= entries@.len(),
            forall|q: int| 0 <= q < j ==> (#[trigger] entries@[q]).used,
        decreases entries@.len() - j,
    {
        if !entries[j].used {
            return Some(j);
        }
        j = j + 1;
    }
    None
}

/// `save_header_and_entry` writes the header and a single entry back to
/// the volume's metadata table.
pub fn save_header_and_entry<const D: usize, const N: usize, T: Stripe<D, N>>(
    state: &mut FsState<D, N, T>,
    index: usize,
)
    requires
        old(state).volume.wf(),
        index < old(state).entries@.len(),
        index < MAX_FILES,
    ensures
        final(state).volume.wf(),
        final(state).header == old(state).header,
        final(state).entries == old(state).entries,
{
    let hb = header_bytes(&state.header);
    state.volume.write_bytes(0, hb.as_slice());
    let eb = state.entries[index].to_bytes();
    let entry_offset: u64 = (HEADER_SIZE as u64) + (index as u64) * (ENTRY_SIZE as u64);
    proof {
        assert(index * ENTRY_SIZE < MAX_FILES * ENTRY_SIZE) by (nonlinear_arith)
            requires
                index < MAX_FILES,
        ;
    }
    state.volume.write_bytes(entry_offset, eb.as_slice());
}

} // verus!
