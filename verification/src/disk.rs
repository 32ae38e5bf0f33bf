//! One disk image: a memory-mapped byte region with length, operational
//! state, and an `untrusted` flag meaning "contents may not be
//! authoritative".
//!
//! The mapped region is the only storage this layer knows about.  Opening a
//! file image, renaming a failed image on the host file system, and the
//! hard-link check for removed images belong to the callers that own the
//! host paths; they hand a ready mapping in through `from_region`.

use vstd::prelude::*;

use crate::bits::zero_bytes;
use memmap2::MmapMut;

verus! {

#[verifier::external_type_specification]
#[verifier::external_body]
pub struct ExMmapMut(MmapMut);

/// The bytes a mapped region holds.
pub uninterp spec fn region_bytes(m: MmapMut) -> Seq<u8>;

/// `s` with the bytes at `[off, off + d.len())` replaced by `d`.
pub open spec fn splice_bytes(s: Seq<u8>, off: int, d: Seq<u8>) -> Seq<u8> {
    Seq::new(
        s.len(),
        |i: int|
            if off <= i < off + d.len() {
                d[i - off]
            } else {
                s[i]
            },
    )
}

/// Relies on memmap2::MmapMut::map_anon: a fresh anonymous mapping holds
/// `len` bytes, all zero.  Fails only when the operating system refuses
/// the mapping.
#[verifier::external_body]
fn region_create(len: usize) -> (r: Option<MmapMut>)
    ensures
        r is Some ==> region_bytes(r->0) == zero_bytes(len as nat),
{
    MmapMut::map_anon(len).ok()
}

/// Relies on memmap2's Deref for MmapMut: the region is a byte slice whose
/// length is the mapped length.
#[verifier::external_body]
fn region_len(m: &MmapMut) -> (r: usize)
    ensures
        r == region_bytes(*m).len(),
{
    m.len()
}

/// Relies on memmap2's Deref for MmapMut: reading the region yields the
/// mapped bytes.
#[verifier::external_body]
fn region_read(m: &MmapMut, off: usize, len: usize) -> (r: Vec<u8>)
    requires
        off + len <= region_bytes(*m).len(),
    ensures
        r@ == region_bytes(*m).subrange(off as int, off as int + len as int),
{
    m[off..off + len].to_vec()
}

/// Relies on memmap2's DerefMut for MmapMut: writing through the region
/// slice replaces exactly the written bytes.
#[verifier::external_body]
fn region_write(m: &mut MmapMut, off: usize, data: &[u8])
    requires
        off + data@.len() <= region_bytes(*old(m)).len(),
    ensures
        region_bytes(*final(m)) == splice_bytes(region_bytes(*old(m)), off as int, data@),
{
    m[off..off + data.len()].copy_from_slice(data);
}

/// The error cases of creating or replacing a disk image.
#[derive(Clone, Copy, PartialEq, Eq, Structural, Debug)]
pub enum DiskError {
    /// The requested length does not fit the platform's addressable size.
    Unaddressable,
    /// The operating system refused the mapping.
    MapFailed,
}

/// `Disk` is one disk image of a fixed length.  While operational it owns
/// a mapped region of that length; failing the disk drops the region.
pub struct Disk {
    pub map: Option<MmapMut>,
    pub len: u64,
    /// The image is physically present but its contents may be stale
    /// (freshly created or just replaced); cleared by a full chunk write
    /// or by a rebuild pass.
    pub needs_rebuild: bool,
}

impl Disk {
    /// Length, mapping presence, and mapped length agree.
    pub open spec fn inv(self) -> bool {
        self.map matches Some(m) ==> region_bytes(m).len() == self.len && self.len <= usize::MAX
    }

    /// The disk length in bytes.
    pub open spec fn spec_len(self) -> u64 {
        self.len
    }

    /// Whether the disk currently has a mapped region.
    pub open spec fn spec_operational(self) -> bool {
        self.map is Some
    }



    /// The bytes the disk holds; a disk without a mapping reads as zeros.
    pub open spec fn contents(self) -> Seq<u8> {
        match self.map {
            Some(m) => region_bytes(m),
            None => zero_bytes(self.len as nat),
        }
    }

    /// `create` makes an operational, zero-filled, untrusted disk of
    /// length `len`, as a freshly preallocated image is zero-filled and
    /// not yet authoritative.
    pub fn create(len: u64) -> (r: Result<Disk, DiskError>)
        ensures
            r matches Ok(d) ==> ({
                &&& d.inv()
                &&& d.spec_len() == len
                &&& d.spec_operational()
                &&& d.needs_rebuild
                &&& d.contents() == zero_bytes(len as nat)
            }),
            len > usize::MAX ==> r == Result::<Disk, DiskError>::Err(DiskError::Unaddressable),
    {
        if len > usize::MAX as u64 {
            return Err(DiskError::Unaddressable);
        }
        match region_create(len as usize) {
            Some(m) => {
                proof {
                    assert(region_bytes(m).len() == len);
                }
                Ok(Disk { map: Some(m), len, needs_rebuild: true })
            },
            None => Err(DiskError::MapFailed),
        }
    }

    /// `from_region` wraps an existing mapping (for example one that a
    /// caller mapped from a file image) into a disk.
    pub fn from_region(m: MmapMut, untrusted: bool) -> (r: Disk)
        requires
            region_bytes(m).len() <= u64::MAX,
        ensures
            r.inv(),
            r.spec_len() == region_bytes(m).len(),
            r.spec_operational(),
            r.needs_rebuild == untrusted,
            r.contents() == region_bytes(m),
    {
        let l = region_len(&m);
        Disk { map: Some(m), len: l as u64, needs_rebuild: untrusted }
    }

    /// `len` returns the disk length in bytes.
    pub fn len(&self) -> (r: u64)
        ensures
            r == self.spec_len(),
    {
        self.len
    }

    /// `is_empty` reports whether the disk has length zero.
    pub fn is_empty(&self) -> (r: bool)
        ensures
            r == (self.spec_len() == 0),
    {
        self.len == 0
    }

    /// `is_operational` reports whether the mapping exists.
    pub fn is_operational(&self) -> (r: bool)
        ensures
            r == self.spec_operational(),
    {
        self.map.is_some()
    }

    /// `is_missing` reports the disk as missing from the array's point of
    /// view: it has no mapping.  (Watching the host file system for an
    /// unlinked image is the image owner's job.)
    pub fn is_missing(&self) -> (r: bool)
        ensures
            r == !self.spec_operational(),
    {
        !self.map.is_some()
    }

    /// `fail` simulates a hot-remove: the mapping is dropped, so the array
    /// stops using this disk.  (Renaming the image on the host file system
    /// is the image owner's job.)
    pub fn fail(&mut self)
        ensures
            final(self).inv(),
            !final(self).spec_operational(),
            final(self).spec_len() == old(self).spec_len(),
            final(self).needs_rebuild == old(self).needs_rebuild,
    {
        self.map = None;
    }

    /// `replace` simulates a hot-swap: a fresh zero-filled region of the
    /// original length replaces the image, and the contents must be
    /// rebuilt, so the disk becomes untrusted.  On failure the disk is
    /// unchanged.
    pub fn replace(&mut self) -> (r: Result<(), DiskError>)
        requires
            old(self).inv(),
        ensures
            final(self).inv(),
            final(self).spec_len() == old(self).spec_len(),
            r is Ok ==> ({
                &&& final(self).spec_operational()
                &&& final(self).needs_rebuild
                &&& final(self).contents() == zero_bytes(old(self).spec_len() as nat)
            }),
            r is Err ==> *final(self) == *old(self),
            old(self).spec_len() > usize::MAX ==> r == Result::<(), DiskError>::Err(
                DiskError::Unaddressable,
            ),
    {
        if self.len > usize::MAX as u64 {
            return Err(DiskError::Unaddressable);
        }
        match region_create(self.len as usize) {
            Some(m) => {
                self.map = Some(m);
                self.needs_rebuild = true;
                Ok(())
            },
            None => Err(DiskError::MapFailed),
        }
    }

    /// How many bytes an access of `want` bytes at `off` touches: the
    /// range is clipped to the disk end, and a disk without a mapping
    /// transfers nothing.
    pub open spec fn spec_io_len(self, off: u64, want: nat) -> nat {
        if self.spec_operational() && off < self.spec_len() {
            if off + want <= self.spec_len() {
                want
            } else {
                (self.spec_len() - off) as nat
            }
        } else {
            0
        }
    }

    /// `read_at` copies `min(buf.len(), len - off)` bytes from offset
    /// `off` into the front of `buf` if the disk is operational and `off`
    /// is inside the disk; otherwise it copies nothing.  It returns the
    /// number of bytes copied.
    pub fn read_at(&self, off: u64, buf: &mut [u8]) -> (r: usize)
        requires
            self.inv(),
        ensures
            r == self.spec_io_len(off, old(buf)@.len()),
            final(buf)@.len() == old(buf)@.len(),
            forall|i: int|
                0 <= i < old(buf)@.len() ==> final(buf)@[i] == (if i < r {
                    self.contents()[off + i]
                } else {
                    old(buf)@[i]
                }),
    {
        let ghost want = buf@.len();
        if self.map.is_none() {
            return 0;
        }
        if off >= self.len {
            return 0;
        }
        let off_u: usize = off as usize;
        let avail: u64 = self.len - off;
        let cnt: usize = if (buf.len() as u64) <= avail {
            buf.len()
        } else {
            avail as usize
        };
        proof {
            assert(off + cnt <= self.len);
            assert(self.contents().len() == self.len);
            assert(cnt == self.spec_io_len(off, buf@.len()));
        }
        let chunk: Vec<u8> = match &self.map {
            Some(m) => region_read(m, off_u, cnt),
            None => Vec::new(),
        };
        let mut i: usize = 0;
        while i < cnt
            invariant
                i <= cnt,
                cnt <= buf@.len(),
                chunk@.len() == cnt,
                buf@.len() == want,
                off + cnt <= self.contents().len(),
                chunk@ == self.contents().subrange(off as int, off + cnt),
                forall|j: int| 0 <= j < i ==> #[trigger] buf@[j] == self.contents()[off + j],
                forall|j: int| i <= j < want ==> #[trigger] buf@[j] == old(buf)@[j],
            decreases cnt - i,
        {
            buf[i] = chunk[i];
            i = i + 1;
        }
        cnt
    }

    /// `write_at` copies `min(data.len(), len - off)` bytes from the front
    /// of `data` to offset `off` if the disk is operational and `off` is
    /// inside the disk; otherwise it copies nothing.  It returns the
    /// number of bytes copied.  The untrusted flag is left alone: clearing
    /// it on a full write is the array's decision.
    pub fn write_at(&mut self, off: u64, data: &[u8]) -> (r: usize)
        requires
            old(self).inv(),
        ensures
            final(self).inv(),
            r == old(self).spec_io_len(off, data@.len()),
            final(self).spec_len() == old(self).spec_len(),
            final(self).spec_operational() == old(self).spec_operational(),
            final(self).needs_rebuild == old(self).needs_rebuild,
            final(self).contents() == splice_bytes(
                old(self).contents(),
                off as int,
                data@.take(r as int),
            ),
    {
        if self.map.is_none() {
            proof {
                assert(final(self).contents() =~= splice_bytes(
                    old(self).contents(),
                    off as int,
                    data@.take(0),
                ));
            }
            return 0;
        }
        if off >= self.len {
            proof {
                assert(final(self).contents() =~= splice_bytes(
                    old(self).contents(),
                    off as int,
                    data@.take(0),
                ));
            }
            return 0;
        }
        let off_u: usize = off as usize;
        let avail: u64 = self.len - off;
        let cnt: usize = if (data.len() as u64) <= avail {
            data.len()
        } else {
            avail as usize
        };
        proof {
            assert(off + cnt <= old(self).spec_len());
            assert(old(self).contents().len() == old(self).spec_len());
            assert(cnt == old(self).spec_io_len(off, data@.len()));
        }
        let part: &[u8] = vstd::slice::slice_subrange(data, 0, cnt);
        match &mut self.map {
            Some(m) => {
                region_write(m, off_u, part);
            },
            None => {},
        }
        proof {
            assert(final(self).contents() =~= splice_bytes(
                old(self).contents(),
                off as int,
                data@.take(cnt as int),
            ));
        }
        cnt
    }
}

} // verus!
