//! The fixed geometry of the volume and the byte offsets that follow from it.
//!
//! The volume starts with the reserved sectors, followed by the copies of the
//! file allocation table, the root directory and the data region. Cluster `c`
//! occupies one sector of the data region, `c` sectors after its start.

use vstd::prelude::*;

verus! {

/// Bytes in one sector.
pub const BYTES_PER_SECTOR: usize = 512;

/// Sectors in one cluster.
pub const SECTORS_PER_CLUSTER: usize = 1;

/// Sectors before the first copy of the file allocation table.
pub const RESERVED_SECTORS: usize = 1;

/// Copies of the file allocation table.
pub const NUMBER_FATS: usize = 2;

/// Slots in the root directory.
pub const ROOT_ENTRIES: usize = 224;

/// Sectors of a standard 1.44 MB volume.
pub const TOTAL_SECTORS: usize = 2880;

/// Sectors in one copy of the file allocation table.
pub const SECTORS_PER_FAT: usize = 9;

/// Bits in one entry of the file allocation table.
pub const BITS_PER_FAT_ENTRY: usize = 12;

/// Bytes in one directory entry.
pub const BYTES_PER_DIRECTORY_ENTRY: usize = 32;

/// Bytes in one copy of the file allocation table.
pub open spec fn fat_copy_len() -> int {
    SECTORS_PER_FAT * BYTES_PER_SECTOR
}

/// Entries that one copy of the file allocation table holds.
pub open spec fn fat_entry_count() -> int {
    fat_copy_len() * 8 / (BITS_PER_FAT_ENTRY as int)
}

/// Directory entries that one cluster holds.
pub open spec fn entries_per_cluster() -> int {
    (SECTORS_PER_CLUSTER * BYTES_PER_SECTOR) as int / (BYTES_PER_DIRECTORY_ENTRY as int)
}

/// Byte offset of the first copy of the file allocation table.
pub open spec fn fat_region_start() -> int {
    RESERVED_SECTORS * BYTES_PER_SECTOR
}

/// Byte offset of the root directory.
pub open spec fn root_region_start() -> int {
    fat_region_start() + NUMBER_FATS * fat_copy_len()
}

/// Byte offset of the data region.
pub open spec fn data_region_start() -> int {
    root_region_start() + ROOT_ENTRIES * BYTES_PER_DIRECTORY_ENTRY
}

/// Byte offset of the first byte of cluster `cluster`.
pub open spec fn cluster_start(cluster: int) -> int {
    data_region_start() + cluster * (SECTORS_PER_CLUSTER * BYTES_PER_SECTOR)
}

/// Whether a buffer of `len` bytes holds the reserved sectors, both copies of
/// the file allocation table and the root directory.
pub open spec fn holds_volume(len: nat) -> bool {
    len >= data_region_start()
}

/// How many clusters, counted from cluster 0, a buffer of `len` bytes holds
/// in full and the file allocation table can address.
pub open spec fn cluster_limit(len: nat) -> int {
    if len < data_region_start() {
        0
    } else {
        let whole = (len - data_region_start()) / ((SECTORS_PER_CLUSTER * BYTES_PER_SECTOR) as int);
        if whole < fat_entry_count() {
            whole
        } else {
            fat_entry_count()
        }
    }
}

/// Whether `cluster` can hold data in a buffer of `len` bytes: clusters 0 and
/// 1 are reserved, and the cluster has to lie in the buffer in full.
pub open spec fn is_data_cluster(len: nat, cluster: int) -> bool {
    2 <= cluster < cluster_limit(len)
}

/// The numbers that the geometry comes to.
pub proof fn lemma_geometry()
    ensures
        fat_copy_len() == 4608,
        fat_entry_count() == 3072,
        entries_per_cluster() == 16,
        fat_region_start() == 512,
        root_region_start() == 9728,
        data_region_start() == 16896,
        forall|c: int| cluster_start(c) == 16896 + 512 * c,
{
}

/// A data cluster lies in the buffer in full, behind the root directory.
pub proof fn lemma_data_cluster_in_buffer(len: nat, cluster: int)
    requires
        is_data_cluster(len, cluster),
    ensures
        holds_volume(len),
        cluster < fat_entry_count(),
        data_region_start() <= cluster_start(cluster),
        cluster_start(cluster) + BYTES_PER_SECTOR <= len,
{
}

/// Byte offset at which the first copy of the file allocation table starts.
#[verifier::when_used_as_spec(fat_region_start_usize)]
pub fn fat_region_offset() -> (offset: usize)
    ensures
        offset == fat_region_start(),
{
    RESERVED_SECTORS * BYTES_PER_SECTOR
}

/// Byte offset at which the root directory starts, behind the last copy of
/// the file allocation table.
#[verifier::when_used_as_spec(root_region_start_usize)]
pub fn root_region_offset() -> (offset: usize)
    ensures
        offset == root_region_start(),
{
    (RESERVED_SECTORS + NUMBER_FATS * SECTORS_PER_FAT) * BYTES_PER_SECTOR
}

/// Byte offset at which the data region starts, behind the root directory.
#[verifier::when_used_as_spec(data_region_start_usize)]
pub fn data_region_offset() -> (offset: usize)
    ensures
        offset == data_region_start(),
{
    (RESERVED_SECTORS + NUMBER_FATS * SECTORS_PER_FAT) * BYTES_PER_SECTOR + ROOT_ENTRIES
        * BYTES_PER_DIRECTORY_ENTRY
}

/// `fat_region_start` as a machine integer.
pub open spec fn fat_region_start_usize() -> usize {
    fat_region_start() as usize
}

/// `root_region_start` as a machine integer.
pub open spec fn root_region_start_usize() -> usize {
    root_region_start() as usize
}

/// `data_region_start` as a machine integer.
pub open spec fn data_region_start_usize() -> usize {
    data_region_start() as usize
}

/// How many clusters a buffer of `len` bytes holds: `cluster_limit` computed.
pub fn cluster_count(len: usize) -> (count: usize)
    ensures
        count == cluster_limit(len as nat),
{
    let data: usize = data_region_offset();
    if len < data {
        0
    } else {
        let whole: usize = (len - data) / (SECTORS_PER_CLUSTER * BYTES_PER_SECTOR);
        let entries: usize = SECTORS_PER_FAT * BYTES_PER_SECTOR * 8 / BITS_PER_FAT_ENTRY;
        if whole < entries {
            whole
        } else {
            entries
        }
    }
}

/// Byte offset of the first byte of cluster `entry`.
pub fn get_cluster_from_entry(entry: usize) -> (offset: usize)
    requires
        cluster_start(entry as int) <= usize::MAX,
    ensures
        offset == cluster_start(entry as int),
{
    proof {
        lemma_geometry();
    }
    (RESERVED_SECTORS + (SECTORS_PER_FAT * NUMBER_FATS) + entry) * BYTES_PER_SECTOR + ROOT_ENTRIES
        * BYTES_PER_DIRECTORY_ENTRY
}

} // verus!
