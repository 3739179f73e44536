//! Entry regions: the places where directory entries are stored.
//!
//! The root directory is a fixed array of slots behind the file allocation
//! table. A subdirectory keeps its slots in the clusters of a chain, sixteen
//! to a cluster. Both are numbered from slot 0 in the order in which they are
//! stored.

use vstd::prelude::*;
use crate::bios_parameter_block::{
    BYTES_PER_DIRECTORY_ENTRY, BYTES_PER_SECTOR, cluster_start, data_region_offset,
    entries_per_cluster, get_cluster_from_entry, holds_volume, is_data_cluster,
    lemma_data_cluster_in_buffer, lemma_geometry, ROOT_ENTRIES, root_region_offset,
    root_region_start,
};
use crate::cluster_chain::{cluster_chain, follow_chain, lemma_chain_is_linked};
use crate::dir_entry::is_free_marker;
use crate::fat_section_util::{is_end_of_chain, marks_end_of_chain};

verus! {

/// A place that holds directory entries.
#[derive(Clone, Copy, Debug, PartialEq, Eq, Structural)]
pub enum EntryRegion {
    /// The root directory.
    Root,
    /// The subdirectory whose chain starts at `first_cluster`.
    Subdirectory { first_cluster: usize },
}

/// The clusters that hold the slots of the region: none for the root
/// directory, the chain of a subdirectory.
pub open spec fn region_chain(image: Seq<u8>, region: EntryRegion) -> Seq<usize> {
    match region {
        EntryRegion::Root => Seq::empty(),
        EntryRegion::Subdirectory { first_cluster } => match cluster_chain(image, first_cluster) {
            Some(chain) => chain,
            None => Seq::empty(),
        },
    }
}

/// Whether the image holds the region: the root directory of an image that
/// holds the volume, or a subdirectory whose chain ends and has a cluster.
pub open spec fn region_is_valid(image: Seq<u8>, region: EntryRegion) -> bool {
    match region {
        EntryRegion::Root => holds_volume(image.len()),
        EntryRegion::Subdirectory { first_cluster } => cluster_chain(image, first_cluster) is Some
            && !is_end_of_chain(first_cluster as int),
    }
}

/// How many slots the region has.
pub open spec fn slot_count(image: Seq<u8>, region: EntryRegion) -> int {
    match region {
        EntryRegion::Root => ROOT_ENTRIES as int,
        EntryRegion::Subdirectory { .. } => region_chain(image, region).len() * entries_per_cluster(),
    }
}

/// Byte offset of slot `slot` of the region.
pub open spec fn slot_start(image: Seq<u8>, region: EntryRegion, slot: int) -> int {
    match region {
        EntryRegion::Root => root_region_start() + slot * BYTES_PER_DIRECTORY_ENTRY,
        EntryRegion::Subdirectory { .. } => cluster_start(
            region_chain(image, region)[slot / entries_per_cluster()] as int,
        ) + (slot % entries_per_cluster()) * BYTES_PER_DIRECTORY_ENTRY,
    }
}

/// The record in slot `slot` of the region.
pub open spec fn slot_bytes(image: Seq<u8>, region: EntryRegion, slot: int) -> Seq<u8> {
    image.subrange(
        slot_start(image, region, slot),
        slot_start(image, region, slot) + BYTES_PER_DIRECTORY_ENTRY,
    )
}

/// Whether slot `slot` of the region is free: never used, or deleted.
pub open spec fn slot_is_free(image: Seq<u8>, region: EntryRegion, slot: int) -> bool {
    is_free_marker(image[slot_start(image, region, slot)])
}

/// Whether none of the slots below `limit` is free.
pub open spec fn no_free_slot_below(image: Seq<u8>, region: EntryRegion, limit: int) -> bool {
    forall|slot: int| 0 <= slot < limit ==> !#[trigger] slot_is_free(image, region, slot)
}

/// Whether `slot` is the first free slot of the region.
pub open spec fn is_first_free_slot(image: Seq<u8>, region: EntryRegion, slot: int) -> bool {
    &&& 0 <= slot < slot_count(image, region)
    &&& slot_is_free(image, region, slot)
    &&& no_free_slot_below(image, region, slot)
}

/// Whether the region has no free slot.
pub open spec fn directory_is_full(image: Seq<u8>, region: EntryRegion) -> bool {
    no_free_slot_below(image, region, slot_count(image, region))
}

/// The first free slot of a region that is not full.
pub open spec fn first_free_slot(image: Seq<u8>, region: EntryRegion) -> int {
    choose|slot: int| is_first_free_slot(image, region, slot)
}

/// The slots below `limit` that are in use, in rising order.
pub open spec fn used_slots_below(image: Seq<u8>, region: EntryRegion, limit: int) -> Seq<int>
    decreases limit,
{
    if limit <= 0 {
        Seq::empty()
    } else if slot_is_free(image, region, limit - 1) {
        used_slots_below(image, region, limit - 1)
    } else {
        used_slots_below(image, region, limit - 1).push(limit - 1)
    }
}

/// The slots of the region that are in use, in rising order.
pub open spec fn used_slots(image: Seq<u8>, region: EntryRegion) -> Seq<int> {
    used_slots_below(image, region, slot_count(image, region))
}

/// A slot of a valid region lies in the image in full: in the root directory,
/// or in a cluster of the subdirectory's chain.
pub proof fn lemma_slot_in_buffer(image: Seq<u8>, region: EntryRegion, slot: int)
    requires
        region_is_valid(image, region),
        0 <= slot < slot_count(image, region),
    ensures
        holds_volume(image.len()),
        root_region_start() <= slot_start(image, region, slot),
        slot_start(image, region, slot) + BYTES_PER_DIRECTORY_ENTRY <= image.len(),
        region is Root ==> slot_start(image, region, slot) + BYTES_PER_DIRECTORY_ENTRY
            <= cluster_start(0),
        region is Subdirectory ==> {
            let cluster = region_chain(image, region)[slot / entries_per_cluster()] as int;
            &&& 0 <= slot / entries_per_cluster() < region_chain(image, region).len()
            &&& is_data_cluster(image.len(), cluster)
            &&& cluster_start(cluster) <= slot_start(image, region, slot)
            &&& slot_start(image, region, slot) + BYTES_PER_DIRECTORY_ENTRY <= cluster_start(
                cluster,
            ) + BYTES_PER_SECTOR
        },
{
    lemma_geometry();
    match region {
        EntryRegion::Root => {},
        EntryRegion::Subdirectory { first_cluster } => {
            lemma_chain_is_linked(image, first_cluster, 3072);
            let chain = region_chain(image, region);
            let cluster = chain[slot / 16];
            assert(is_data_cluster(image.len(), cluster as int));
            lemma_data_cluster_in_buffer(image.len(), cluster as int);
        },
    }
}

/// The first free slot of a region is the only slot that is the first free
/// one.
pub proof fn lemma_first_free_slot(image: Seq<u8>, region: EntryRegion, slot: int)
    requires
        is_first_free_slot(image, region, slot),
    ensures
        first_free_slot(image, region) == slot,
        !directory_is_full(image, region),
{
    let chosen = first_free_slot(image, region);
    assert(is_first_free_slot(image, region, chosen));
    if chosen < slot {
        assert(!slot_is_free(image, region, chosen));
    } else if slot < chosen {
        assert(!slot_is_free(image, region, slot));
    }
}

/// What the list of slots in use holds: every slot below `limit` that is
/// not free, once, in rising order, and nothing else.
pub proof fn lemma_used_slots_below(image: Seq<u8>, region: EntryRegion, limit: int)
    ensures
        forall|i: int|
            0 <= i < used_slots_below(image, region, limit).len() ==> 0 <= (
            #[trigger] used_slots_below(image, region, limit)[i]) < limit && !slot_is_free(
                image,
                region,
                used_slots_below(image, region, limit)[i],
            ),
        forall|i: int, j: int|
            0 <= i < j < used_slots_below(image, region, limit).len() ==> used_slots_below(
                image,
                region,
                limit,
            )[i] < used_slots_below(image, region, limit)[j],
        forall|slot: int|
            0 <= slot < limit && !#[trigger] slot_is_free(image, region, slot)
                ==> used_slots_below(image, region, limit).contains(slot),
        used_slots_below(image, region, limit).len() <= if limit < 0 {
            0
        } else {
            limit
        },
    decreases limit,
{
    if limit > 0 {
        lemma_used_slots_below(image, region, limit - 1);
        let rest = used_slots_below(image, region, limit - 1);
        let list = used_slots_below(image, region, limit);
        if !slot_is_free(image, region, limit - 1) {
            assert(list == rest.push(limit - 1));
            assert forall|slot: int|
                0 <= slot < limit && !#[trigger] slot_is_free(image, region, slot) implies list.contains(
                slot,
            ) by {
                if slot == limit - 1 {
                    assert(list[rest.len() as int] == slot);
                } else {
                    let i = choose|i: int| 0 <= i < rest.len() && rest[i] == slot;
                    assert(list[i] == slot);
                }
            }
        }
    }
}

/// The slots in use depend on nothing but the first bytes of the slots.
pub proof fn lemma_used_slots_kept(
    before: Seq<u8>,
    after: Seq<u8>,
    region: EntryRegion,
    limit: int,
)
    requires
        forall|slot: int|
            0 <= slot < limit ==> #[trigger] slot_is_free(after, region, slot) == slot_is_free(
                before,
                region,
                slot,
            ),
    ensures
        used_slots_below(after, region, limit) == used_slots_below(before, region, limit),
    decreases limit,
{
    if limit > 0 {
        lemma_used_slots_kept(before, after, region, limit - 1);
        assert(slot_is_free(after, region, limit - 1) == slot_is_free(before, region, limit - 1));
    }
}

/// Hands back the clusters that hold the slots of the region, or `None`
/// where the image does not hold the region.
pub fn region_clusters(bytes: &Vec<u8>, region: EntryRegion) -> (clusters: Option<Vec<usize>>)
    ensures
        match clusters {
            Some(chain) => region_is_valid(bytes@, region) && chain@ == region_chain(
                bytes@,
                region,
            ),
            None => !region_is_valid(bytes@, region),
        },
{
    match region {
        EntryRegion::Root => {
            if bytes.len() >= data_region_offset() {
                Some(Vec::new())
            } else {
                None
            }
        },
        EntryRegion::Subdirectory { first_cluster } => {
            if marks_end_of_chain(first_cluster) {
                None
            } else {
                follow_chain(bytes, first_cluster)
            }
        },
    }
}

/// How many slots a region with these clusters has.
pub(crate) fn count_slots(clusters: &Vec<usize>, region: EntryRegion) -> (count: usize)
    requires
        clusters.len() <= 3072,
    ensures
        count == match region {
            EntryRegion::Root => ROOT_ENTRIES as int,
            EntryRegion::Subdirectory { .. } => clusters.len() * entries_per_cluster(),
        },
{
    let per_cluster: usize = BYTES_PER_SECTOR / BYTES_PER_DIRECTORY_ENTRY;
    assert(per_cluster == 16);
    match region {
        EntryRegion::Root => ROOT_ENTRIES,
        EntryRegion::Subdirectory { .. } => clusters.len() * per_cluster,
    }
}

/// Byte offset of slot `slot` of a region with these clusters.
pub(crate) fn slot_offset(bytes: &Vec<u8>, clusters: &Vec<usize>, region: EntryRegion, slot: usize) -> (at:
    usize)
    requires
        region_is_valid(bytes@, region),
        clusters@ == region_chain(bytes@, region),
        slot < slot_count(bytes@, region),
    ensures
        at == slot_start(bytes@, region, slot as int),
        at + BYTES_PER_DIRECTORY_ENTRY <= bytes.len(),
{
    proof {
        lemma_geometry();
        lemma_slot_in_buffer(bytes@, region, slot as int);
    }
    match region {
        EntryRegion::Root => root_region_offset() + slot * BYTES_PER_DIRECTORY_ENTRY,
        EntryRegion::Subdirectory { .. } => {
            let per_cluster: usize = BYTES_PER_SECTOR / BYTES_PER_DIRECTORY_ENTRY;
            let cluster: usize = clusters[slot / per_cluster];
            get_cluster_from_entry(cluster) + (slot % per_cluster) * BYTES_PER_DIRECTORY_ENTRY
        },
    }
}

} // verus!
