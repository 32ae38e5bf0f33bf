//! A small RAID storage engine: fixed-width byte buffers, stripe layouts
//! (striping, mirroring, single parity), a disk array with transparent
//! reconstruction, and a byte-addressable logical volume on top.

pub mod array;
pub mod bits;
pub mod checksum_fs;
pub mod disk;
pub mod mapper;
pub mod metrics;
pub mod table_fs;
pub mod raid0;
pub mod raid1;
pub mod raid3;
pub mod stripe;
pub mod volume;
