//! What growing a subdirectory and adding an entry change in an image.

use vstd::prelude::*;
use crate::bios_parameter_block::{
    BYTES_PER_DIRECTORY_ENTRY, BYTES_PER_SECTOR, cluster_start, entries_per_cluster,
    fat_entry_count, fat_region_start, is_data_cluster, lemma_data_cluster_in_buffer,
    lemma_geometry, NUMBER_FATS, root_region_start,
};
use crate::buffer::with_bytes_at;
use crate::cluster_chain::{
    chain_data, cluster_bytes, cluster_chain, is_linked, lemma_bytes_keep_table,
    lemma_chain_data_kept, lemma_chain_distinct, lemma_chain_is_linked, lemma_chain_kept,
    lemma_cluster_written, lemma_entry_keeps_clusters, lemma_linked_is_chain,
    lemma_same_table_same_chain,
};
use crate::dir_entry::is_free_marker;
use crate::directories::{
    can_append, is_first_slot_named, name_is_absent, named_slot, next_free_slot, slot_has_name,
    with_appended_entry, with_grown_chain, zero_cluster,
};
use crate::entry_region::{
    directory_is_full, EntryRegion, first_free_slot, is_first_free_slot, lemma_first_free_slot,
    lemma_slot_in_buffer, lemma_used_slots_below, no_free_slot_below, region_chain,
    region_is_valid, slot_bytes, slot_count, slot_is_free, slot_start, used_slots,
};
use crate::fat_section_util::{
    END_OF_CHAIN, fat_copy_entry, fat_entry, lemma_write_effect, with_fat_entry,
};
use crate::free_clusters::{
    free_clusters, is_free_cluster, lemma_free_clusters, lemma_free_clusters_are,
};

verus! {

/// What growing a chain changes: the table entries of the two clusters and
/// the bytes of the added one, and nothing else.
pub proof fn lemma_grown_chain(image: Seq<u8>, last: int, added: int)
    requires
        is_data_cluster(image.len(), last),
        is_data_cluster(image.len(), added),
        last != added,
    ensures
        with_grown_chain(image, last, added).len() == image.len(),
        fat_entry(with_grown_chain(image, last, added), last) == added,
        fat_copy_entry(with_grown_chain(image, last, added), 1, last) == added,
        fat_entry(with_grown_chain(image, last, added), added) == END_OF_CHAIN,
        fat_copy_entry(with_grown_chain(image, last, added), 1, added) == END_OF_CHAIN,
        forall|copy: int, index: int|
            0 <= copy < NUMBER_FATS && 0 <= index < fat_entry_count() && index != last && index
                != added ==> #[trigger] fat_copy_entry(
                with_grown_chain(image, last, added),
                copy,
                index,
            ) == fat_copy_entry(image, copy, index),
        cluster_bytes(with_grown_chain(image, last, added), added) == zero_cluster(),
        forall|other: int|
            is_data_cluster(image.len(), other) && other != added ==> #[trigger] cluster_bytes(
                with_grown_chain(image, last, added),
                other,
            ) == cluster_bytes(image, other),
        forall|at: int|
            0 <= at < image.len() && !(fat_region_start() <= at < root_region_start()) && !(
            cluster_start(added) <= at < cluster_start(added) + BYTES_PER_SECTOR)
                ==> #[trigger] with_grown_chain(image, last, added)[at] == image[at],
{
    lemma_geometry();
    lemma_data_cluster_in_buffer(image.len(), added);
    let zeroed = with_bytes_at(image, cluster_start(added), zero_cluster());
    let linked = with_fat_entry(zeroed, last, added);
    let grown = with_fat_entry(linked, added, END_OF_CHAIN as int);
    lemma_bytes_keep_table(image, cluster_start(added), zero_cluster());
    lemma_cluster_written(image, added, zero_cluster());
    lemma_write_effect(zeroed, last, added);
    lemma_entry_keeps_clusters(zeroed, last, added);
    lemma_write_effect(linked, added, END_OF_CHAIN as int);
    lemma_entry_keeps_clusters(linked, added, END_OF_CHAIN as int);
    assert(fat_copy_entry(linked, 0, last) == added);
    assert(fat_copy_entry(linked, 1, last) == added);
    assert forall|copy: int, index: int|
        0 <= copy < NUMBER_FATS && 0 <= index < fat_entry_count() && index != last && index
            != added implies #[trigger] fat_copy_entry(grown, copy, index) == fat_copy_entry(
        image,
        copy,
        index,
    ) by {
        assert(fat_copy_entry(zeroed, copy, index) == fat_copy_entry(image, copy, index));
        assert(fat_copy_entry(linked, copy, index) == fat_copy_entry(zeroed, copy, index));
    }
    assert forall|other: int|
        is_data_cluster(image.len(), other) && other != added implies #[trigger] cluster_bytes(
        grown,
        other,
    ) == cluster_bytes(image, other) by {
        assert(cluster_bytes(linked, other) == cluster_bytes(zeroed, other));
        assert(cluster_bytes(grown, other) == cluster_bytes(linked, other));
    }
    assert(cluster_bytes(linked, added) == cluster_bytes(zeroed, added));
    assert(cluster_bytes(grown, added) == cluster_bytes(linked, added));
    assert forall|at: int|
        0 <= at < image.len() && !(fat_region_start() <= at < root_region_start()) && !(
        cluster_start(added) <= at < cluster_start(added) + BYTES_PER_SECTOR)
            implies #[trigger] grown[at] == image[at] by {
        assert(zeroed[at] == image[at]);
        assert(linked[at] == zeroed[at]);
    }
}

/// What growing a subdirectory by the free cluster `added` comes to: the
/// chain of the directory has one more cluster, the slots that it had are as
/// they were, and the sixteen new slots are free.
pub proof fn lemma_directory_grown(image: Seq<u8>, region: EntryRegion, added: int)
    requires
        region is Subdirectory,
        region_is_valid(image, region),
        is_free_cluster(image, added),
    ensures
        ({
            let grown = with_grown_chain(image, region_chain(image, region).last() as int, added);
            &&& grown.len() == image.len()
            &&& region_is_valid(grown, region)
            &&& region_chain(grown, region) == region_chain(image, region).push(added as usize)
            &&& slot_count(grown, region) == slot_count(image, region) + entries_per_cluster()
            &&& forall|slot: int|
                0 <= slot < slot_count(image, region) ==> #[trigger] slot_start(grown, region, slot)
                    == slot_start(image, region, slot) && slot_bytes(grown, region, slot)
                    == slot_bytes(image, region, slot) && slot_is_free(grown, region, slot)
                    == slot_is_free(image, region, slot)
            &&& forall|slot: int|
                slot_count(image, region) <= slot < slot_count(grown, region)
                    ==> #[trigger] slot_is_free(grown, region, slot)
            &&& directory_is_full(image, region) ==> is_first_free_slot(
                grown,
                region,
                slot_count(image, region),
            )
        }),
{
    lemma_geometry();
    let first = region->first_cluster;
    let chain = region_chain(image, region);
    let last = chain.last() as int;
    let grown = with_grown_chain(image, last, added);
    let longer = chain.push(added as usize);
    lemma_chain_is_linked(image, first, 3072);
    lemma_chain_distinct(image, first, 3072);
    assert(is_data_cluster(image.len(), chain[chain.len() - 1] as int));
    lemma_grown_chain(image, last, added);
    assert(is_linked(grown, longer)) by {
        assert forall|i: int| 0 <= i < longer.len() implies is_data_cluster(
            grown.len(),
            #[trigger] longer[i] as int,
        ) by {
            if i < chain.len() {
                assert(is_data_cluster(image.len(), chain[i] as int));
            }
        }
        assert forall|i: int| 0 <= i < longer.len() - 1 implies fat_entry(
            grown,
            #[trigger] longer[i] as int,
        ) == longer[i + 1] by {
            assert(is_data_cluster(image.len(), chain[i] as int));
            if i < chain.len() - 1 {
                assert(chain[i] != chain[chain.len() - 1]);
                assert(fat_entry(image, chain[i] as int) != 0);
                assert(fat_copy_entry(grown, 0, chain[i] as int) == fat_copy_entry(
                    image,
                    0,
                    chain[i] as int,
                ));
                assert(longer[i + 1] == chain[i + 1]);
            }
        }
    }
    lemma_linked_is_chain(grown, longer, 3072);
    assert(longer[0] == chain[0]);
    assert(region_chain(grown, region) == longer);
    assert forall|slot: int| 0 <= slot < slot_count(image, region) implies #[trigger] slot_start(
        grown,
        region,
        slot,
    ) == slot_start(image, region, slot) && slot_bytes(grown, region, slot) == slot_bytes(
        image,
        region,
        slot,
    ) && slot_is_free(grown, region, slot) == slot_is_free(image, region, slot) by {
        lemma_slot_in_buffer(image, region, slot);
        let cluster = chain[slot / 16];
        assert(longer[slot / 16] == cluster);
        assert(fat_entry(image, cluster as int) != 0);
        assert(slot_bytes(grown, region, slot) =~= slot_bytes(image, region, slot));
    }
    assert forall|slot: int|
        slot_count(image, region) <= slot < slot_count(grown, region) implies #[trigger] slot_is_free(
        grown,
        region,
        slot,
    ) by {
        assert(slot / 16 == chain.len());
        assert(longer[slot / 16] == added as usize);
        let at = slot_start(grown, region, slot);
        lemma_data_cluster_in_buffer(image.len(), added);
        assert(cluster_bytes(grown, added)[at - cluster_start(added)] == grown[at]);
        assert(zero_cluster()[at - cluster_start(added)] == 0u8);
    }
    if directory_is_full(image, region) {
        assert(slot_is_free(grown, region, slot_count(image, region)));
        assert forall|slot: int| 0 <= slot < slot_count(image, region) implies !#[trigger] slot_is_free(
            grown,
            region,
            slot,
        ) by {
            assert(slot_start(grown, region, slot) == slot_start(image, region, slot));
            assert(!slot_is_free(image, region, slot));
        }
    }
}

/// Two slots of a region do not overlap.
pub proof fn lemma_slots_apart(image: Seq<u8>, region: EntryRegion, slot: int, other: int)
    requires
        region_is_valid(image, region),
        0 <= slot < slot_count(image, region),
        0 <= other < slot_count(image, region),
        other != slot,
    ensures
        slot_start(image, region, slot) + BYTES_PER_DIRECTORY_ENTRY <= slot_start(
            image,
            region,
            other,
        ) || slot_start(image, region, other) + BYTES_PER_DIRECTORY_ENTRY <= slot_start(
            image,
            region,
            slot,
        ),
{
    lemma_geometry();
    match region {
        EntryRegion::Root => {},
        EntryRegion::Subdirectory { first_cluster } => {
            lemma_chain_distinct(image, first_cluster, 3072);
            let chain = region_chain(image, region);
            if slot / 16 != other / 16 {
                assert(chain[slot / 16] != chain[other / 16]);
            }
        },
    }
}

/// What writing a record into a slot changes: the bytes of that slot, and
/// nothing else. The table, the chains and the other slots are as they were.
pub proof fn lemma_entry_written(image: Seq<u8>, region: EntryRegion, slot: int, record: Seq<u8>)
    requires
        region_is_valid(image, region),
        0 <= slot < slot_count(image, region),
        record.len() == BYTES_PER_DIRECTORY_ENTRY,
    ensures
        ({
            let after = with_bytes_at(image, slot_start(image, region, slot), record);
            &&& after.len() == image.len()
            &&& forall|copy: int, index: int|
                0 <= copy < NUMBER_FATS && 0 <= index < fat_entry_count()
                    ==> #[trigger] fat_copy_entry(after, copy, index) == fat_copy_entry(
                    image,
                    copy,
                    index,
                )
            &&& region_is_valid(after, region)
            &&& region_chain(after, region) == region_chain(image, region)
            &&& slot_count(after, region) == slot_count(image, region)
            &&& slot_bytes(after, region, slot) == record
            &&& forall|other: int|
                0 <= other < slot_count(image, region) && other != slot ==> #[trigger] slot_bytes(
                    after,
                    region,
                    other,
                ) == slot_bytes(image, region, other) && slot_is_free(after, region, other)
                    == slot_is_free(image, region, other)
            &&& forall|at: int|
                0 <= at < image.len() && !(slot_start(image, region, slot) <= at < slot_start(
                    image,
                    region,
                    slot,
                ) + BYTES_PER_DIRECTORY_ENTRY) ==> #[trigger] after[at] == image[at]
        }),
{
    lemma_geometry();
    let at = slot_start(image, region, slot);
    let after = with_bytes_at(image, at, record);
    lemma_slot_in_buffer(image, region, slot);
    lemma_bytes_keep_table(image, at, record);
    match region {
        EntryRegion::Root => {},
        EntryRegion::Subdirectory { first_cluster } => {
            lemma_same_table_same_chain(image, after, first_cluster, 3072);
        },
    }
    assert(region_chain(after, region) == region_chain(image, region));
    assert(slot_bytes(after, region, slot) =~= record);
    assert forall|other: int|
        0 <= other < slot_count(image, region) && other != slot implies #[trigger] slot_bytes(
        after,
        region,
        other,
    ) == slot_bytes(image, region, other) && slot_is_free(after, region, other) == slot_is_free(
        image,
        region,
        other,
    ) by {
        lemma_slot_in_buffer(image, region, other);
        lemma_slots_apart(image, region, slot, other);
        assert(slot_bytes(after, region, other) =~= slot_bytes(image, region, other));
    }
}

/// Below a free slot of a region there is a first free slot, or the slot is
/// the first itself.
pub proof fn lemma_first_free_exists(image: Seq<u8>, region: EntryRegion, slot: int) -> (first:
    int)
    requires
        0 <= slot < slot_count(image, region),
        slot_is_free(image, region, slot),
    ensures
        is_first_free_slot(image, region, first),
        first_free_slot(image, region) == first,
    decreases slot,
{
    if no_free_slot_below(image, region, slot) {
        lemma_first_free_slot(image, region, slot);
        slot
    } else {
        let lower = choose|lower: int| 0 <= lower < slot && slot_is_free(image, region, lower);
        lemma_first_free_exists(image, region, lower)
    }
}

/// What adding an entry to a region changes: the slot that the entry goes
/// to, and, where the region grows, the table entries of its last cluster
/// and of the cluster that it grows by. The other slots of the region, the
/// clusters in use outside the region with their table entries, and the
/// reserved sectors are as they were.
pub proof fn lemma_entry_appended(image: Seq<u8>, region: EntryRegion, record: Seq<u8>)
    requires
        region_is_valid(image, region),
        can_append(image, region),
        record.len() == BYTES_PER_DIRECTORY_ENTRY,
    ensures
        ({
            let after = with_appended_entry(image, region, record);
            let slot = next_free_slot(image, region);
            &&& after.len() == image.len()
            &&& region_is_valid(after, region)
            &&& region_chain(after, region) == if directory_is_full(image, region) {
                region_chain(image, region).push(free_clusters(image)[0])
            } else {
                region_chain(image, region)
            }
            &&& 0 <= slot < slot_count(after, region)
            &&& slot_count(image, region) <= slot_count(after, region)
            &&& slot_bytes(after, region, slot) == record
            &&& forall|other: int|
                0 <= other < slot_count(image, region) && other != slot ==> #[trigger] slot_bytes(
                    after,
                    region,
                    other,
                ) == slot_bytes(image, region, other) && slot_is_free(after, region, other)
                    == slot_is_free(image, region, other)
            &&& forall|copy: int, index: int|
                0 <= copy < NUMBER_FATS && 0 <= index < fat_entry_count() && !is_free_cluster(
                    image,
                    index,
                ) && !region_chain(image, region).contains(index as usize)
                    ==> #[trigger] fat_copy_entry(after, copy, index) == fat_copy_entry(
                    image,
                    copy,
                    index,
                )
            &&& forall|cluster: int|
                is_data_cluster(image.len(), cluster) && !is_free_cluster(image, cluster)
                    && !region_chain(image, region).contains(cluster as usize)
                    ==> #[trigger] cluster_bytes(after, cluster) == cluster_bytes(image, cluster)
            &&& forall|at: int| 0 <= at < fat_region_start() ==> #[trigger] after[at] == image[at]
        }),
{
    lemma_geometry();
    let after = with_appended_entry(image, region, record);
    let slot = next_free_slot(image, region);
    let held = region_chain(image, region);
    if directory_is_full(image, region) {
        let first = region->first_cluster;
        lemma_free_clusters(image);
        lemma_chain_is_linked(image, first, 3072);
        let added = free_clusters(image)[0] as int;
        let last = held.last() as int;
        assert(is_free_cluster(image, free_clusters(image)[0] as int));
        assert(is_data_cluster(image.len(), held[held.len() - 1] as int));
        let grown = with_grown_chain(image, last, added);
        lemma_directory_grown(image, region, added);
        lemma_grown_chain(image, last, added);
        lemma_entry_written(grown, region, slot, record);
        lemma_slot_in_buffer(grown, region, slot);
        assert(slot / 16 == held.len());
        assert(region_chain(grown, region)[slot / 16] == added as usize);
        assert forall|other: int|
            0 <= other < slot_count(image, region) && other != slot implies #[trigger] slot_bytes(
            after,
            region,
            other,
        ) == slot_bytes(image, region, other) && slot_is_free(after, region, other) == slot_is_free(
            image,
            region,
            other,
        ) by {
            assert(slot_start(grown, region, other) == slot_start(image, region, other));
            assert(slot_bytes(after, region, other) == slot_bytes(grown, region, other));
        }
        assert forall|copy: int, index: int|
            0 <= copy < NUMBER_FATS && 0 <= index < fat_entry_count() && !is_free_cluster(
                image,
                index,
            ) && !held.contains(index as usize) implies #[trigger] fat_copy_entry(
            after,
            copy,
            index,
        ) == fat_copy_entry(image, copy, index) by {
            assert(held[held.len() - 1] == last as usize);
            assert(fat_copy_entry(grown, copy, index) == fat_copy_entry(image, copy, index));
        }
        assert forall|cluster: int|
            is_data_cluster(image.len(), cluster) && !is_free_cluster(image, cluster)
                && !held.contains(cluster as usize) implies #[trigger] cluster_bytes(after, cluster)
            == cluster_bytes(image, cluster) by {
            lemma_data_cluster_in_buffer(image.len(), cluster);
            assert(cluster_bytes(grown, cluster) == cluster_bytes(image, cluster));
            assert(cluster_bytes(after, cluster) =~= cluster_bytes(grown, cluster));
        }
        assert forall|at: int| 0 <= at < fat_region_start() implies #[trigger] after[at]
            == image[at] by {
            assert(grown[at] == image[at]);
        }
    } else {
        let free = choose|free: int|
            0 <= free < slot_count(image, region) && slot_is_free(image, region, free);
        let first = lemma_first_free_exists(image, region, free);
        lemma_entry_written(image, region, slot, record);
        lemma_slot_in_buffer(image, region, slot);
        assert forall|cluster: int|
            is_data_cluster(image.len(), cluster) && !is_free_cluster(image, cluster)
                && !held.contains(cluster as usize) implies #[trigger] cluster_bytes(after, cluster)
            == cluster_bytes(image, cluster) by {
            lemma_data_cluster_in_buffer(image.len(), cluster);
            if region is Subdirectory {
                assert(held[slot / 16] != cluster as usize);
            }
            assert(cluster_bytes(after, cluster) =~= cluster_bytes(image, cluster));
        }
    }
}

/// What adding an entry to a region does to the table: nothing where the
/// region has a free slot; where it grows, the last cluster of the region is
/// linked to the first free cluster, which gets the end-of-chain value, and
/// every other entry is as it was.
pub proof fn lemma_appended_table(image: Seq<u8>, region: EntryRegion, record: Seq<u8>)
    requires
        region_is_valid(image, region),
        can_append(image, region),
        record.len() == BYTES_PER_DIRECTORY_ENTRY,
    ensures
        ({
            let after = with_appended_entry(image, region, record);
            let added = free_clusters(image)[0] as int;
            let last = region_chain(image, region).last() as int;
            let grows = directory_is_full(image, region);
            &&& after.len() == image.len()
            &&& forall|copy: int, index: int|
                0 <= copy < NUMBER_FATS && 0 <= index < fat_entry_count() && !(grows && (index
                    == added || index == last)) ==> #[trigger] fat_copy_entry(after, copy, index)
                    == fat_copy_entry(image, copy, index)
            &&& grows ==> is_free_cluster(image, added) && is_data_cluster(image.len(), last)
                && forall|copy: int|
                0 <= copy < NUMBER_FATS ==> #[trigger] fat_copy_entry(after, copy, added)
                    == END_OF_CHAIN && fat_copy_entry(after, copy, last) == added
        }),
{
    lemma_geometry();
    let after = with_appended_entry(image, region, record);
    let slot = next_free_slot(image, region);
    let held = region_chain(image, region);
    if directory_is_full(image, region) {
        let first = region->first_cluster;
        lemma_free_clusters(image);
        lemma_chain_is_linked(image, first, 3072);
        let added = free_clusters(image)[0] as int;
        let last = held.last() as int;
        assert(is_free_cluster(image, free_clusters(image)[0] as int));
        assert(is_data_cluster(image.len(), held[held.len() - 1] as int));
        let grown = with_grown_chain(image, last, added);
        lemma_directory_grown(image, region, added);
        lemma_grown_chain(image, last, added);
        lemma_entry_written(grown, region, slot, record);
        assert forall|copy: int|
            0 <= copy < NUMBER_FATS implies #[trigger] fat_copy_entry(after, copy, added)
            == END_OF_CHAIN && fat_copy_entry(after, copy, last) == added by {
            assert(fat_copy_entry(after, copy, added) == fat_copy_entry(grown, copy, added));
            assert(fat_copy_entry(after, copy, last) == fat_copy_entry(grown, copy, last));
        }
        assert forall|copy: int, index: int|
            0 <= copy < NUMBER_FATS && 0 <= index < fat_entry_count() && !(index == added || index
                == last) implies #[trigger] fat_copy_entry(after, copy, index) == fat_copy_entry(
            image,
            copy,
            index,
        ) by {
            assert(fat_copy_entry(grown, copy, index) == fat_copy_entry(image, copy, index));
        }
    } else {
        let free = choose|free: int|
            0 <= free < slot_count(image, region) && slot_is_free(image, region, free);
        let first = lemma_first_free_exists(image, region, free);
        lemma_entry_written(image, region, slot, record);
    }
}

/// The first slot that holds a name is the only one that is the first.
pub proof fn lemma_named_slot(image: Seq<u8>, region: EntryRegion, slot: int, name: Seq<u8>)
    requires
        is_first_slot_named(image, region, slot, name),
    ensures
        named_slot(image, region, name) == slot,
        !name_is_absent(image, region, name),
{
    let chosen = named_slot(image, region, name);
    assert(is_first_slot_named(image, region, chosen, name));
    if chosen < slot {
        assert(!slot_has_name(image, region, chosen, name));
    } else if slot < chosen {
        assert(!slot_has_name(image, region, slot, name));
    }
}

/// A free cluster is no cluster of a region.
pub proof fn lemma_free_not_in_region(image: Seq<u8>, region: EntryRegion, cluster: int)
    requires
        region_is_valid(image, region),
        is_free_cluster(image, cluster),
    ensures
        !region_chain(image, region).contains(cluster as usize),
{
    let held = region_chain(image, region);
    if region is Subdirectory {
        lemma_chain_is_linked(image, region->first_cluster, 3072);
    }
    if held.contains(cluster as usize) {
        let j = choose|j: int| 0 <= j < held.len() && held[j] == cluster as usize;
        assert(fat_entry(image, held[j] as int) != 0);
    }
}

/// Adding an entry to a region changes no chain that shares no cluster with
/// the region, nor its data.
pub proof fn lemma_appended_keeps_chain(
    image: Seq<u8>,
    region: EntryRegion,
    record: Seq<u8>,
    first: usize,
)
    requires
        region_is_valid(image, region),
        can_append(image, region),
        record.len() == BYTES_PER_DIRECTORY_ENTRY,
        cluster_chain(image, first) is Some,
        forall|i: int|
            0 <= i < cluster_chain(image, first).unwrap().len() ==> !region_chain(
                image,
                region,
            ).contains(#[trigger] cluster_chain(image, first).unwrap()[i]),
    ensures
        cluster_chain(with_appended_entry(image, region, record), first) == cluster_chain(
            image,
            first,
        ),
        chain_data(
            with_appended_entry(image, region, record),
            cluster_chain(image, first).unwrap(),
        ) == chain_data(image, cluster_chain(image, first).unwrap()),
{
    lemma_geometry();
    let after = with_appended_entry(image, region, record);
    lemma_entry_appended(image, region, record);
    lemma_chain_is_linked(image, first, 3072);
    let held = cluster_chain(image, first).unwrap();
    assert forall|i: int| 0 <= i < held.len() implies fat_entry(after, #[trigger] held[i] as int)
        == fat_entry(image, held[i] as int) && cluster_bytes(after, held[i] as int)
        == cluster_bytes(image, held[i] as int) by {
        assert(is_data_cluster(image.len(), held[i] as int));
        assert(fat_entry(image, held[i] as int) != 0);
        assert(!region_chain(image, region).contains(held[i]));
        assert(fat_copy_entry(after, 0, held[i] as int) == fat_copy_entry(
            image,
            0,
            held[i] as int,
        ));
    }
    lemma_chain_kept(image, after, first, 3072);
    lemma_chain_data_kept(image, after, held);
}

/// The record that was added to a region stands in the slot that was the
/// next free one, and is listed unless it begins with a byte that marks a
/// free slot.
pub proof fn lemma_slot_appended(image: Seq<u8>, region: EntryRegion, record: Seq<u8>)
    requires
        region_is_valid(image, region),
        can_append(image, region),
        record.len() == BYTES_PER_DIRECTORY_ENTRY,
    ensures
        ({
            let after = with_appended_entry(image, region, record);
            let slot = next_free_slot(image, region);
            &&& region_is_valid(after, region)
            &&& 0 <= slot < slot_count(after, region)
            &&& slot_bytes(after, region, slot) == record
            &&& !is_free_marker(record[0]) ==> used_slots(after, region).contains(slot)
        }),
{
    let after = with_appended_entry(image, region, record);
    let slot = next_free_slot(image, region);
    lemma_entry_appended(image, region, record);
    if !is_free_marker(record[0]) {
        lemma_used_slots_below(after, region, slot_count(after, region));
        lemma_slot_in_buffer(after, region, slot);
        assert(slot_bytes(after, region, slot)[0] == after[slot_start(after, region, slot)]);
        assert(!slot_is_free(after, region, slot));
    }
}

/// Adding an entry to a region takes no free cluster, but for the first one
/// where the region grows.
pub proof fn lemma_appended_takes_clusters(image: Seq<u8>, region: EntryRegion, record: Seq<u8>)
    requires
        region_is_valid(image, region),
        can_append(image, region),
        record.len() == BYTES_PER_DIRECTORY_ENTRY,
    ensures
        free_clusters(with_appended_entry(image, region, record)) == if directory_is_full(
            image,
            region,
        ) {
            free_clusters(image).skip(1)
        } else {
            free_clusters(image)
        },
{
    lemma_geometry();
    let after = with_appended_entry(image, region, record);
    let all = free_clusters(image);
    lemma_appended_table(image, region, record);
    lemma_free_clusters(image);
    if directory_is_full(image, region) {
        let added = all[0];
        let last = region_chain(image, region).last();
        let left = all.skip(1);
        lemma_chain_is_linked(image, region->first_cluster, 3072);
        assert(fat_entry(image, region_chain(image, region)[region_chain(image, region).len()
            - 1] as int) != 0);
        assert forall|i: int| 0 <= i < left.len() implies is_free_cluster(
            after,
            (#[trigger] left[i]) as int,
        ) by {
            assert(left[i] == all[i + 1]);
            assert(is_free_cluster(image, all[i + 1] as int));
            assert(all[0] < all[i + 1]);
            assert(fat_copy_entry(after, 0, left[i] as int) == fat_copy_entry(
                image,
                0,
                left[i] as int,
            ));
        }
        assert forall|i: int, j: int| 0 <= i < j < left.len() implies left[i] < left[j] by {
            assert(left[i] == all[i + 1] && left[j] == all[j + 1]);
        }
        assert forall|cluster: int| #[trigger] is_free_cluster(after, cluster) implies left.contains(
            cluster as usize,
        ) by {
            assert(fat_copy_entry(after, 0, added as int) == END_OF_CHAIN);
            assert(fat_copy_entry(after, 0, last as int) == added);
            assert(is_free_cluster(image, all[0] as int));
            assert(fat_copy_entry(after, 0, cluster) == fat_copy_entry(image, 0, cluster));
            assert(is_free_cluster(image, cluster));
            let at = choose|i: int| 0 <= i < all.len() && all[i] == cluster as usize;
            assert(left[at - 1] == cluster as usize);
        }
        lemma_free_clusters_are(after, left);
    } else {
        assert forall|i: int| 0 <= i < all.len() implies is_free_cluster(
            after,
            (#[trigger] all[i]) as int,
        ) by {
            assert(is_free_cluster(image, all[i] as int));
            assert(fat_copy_entry(after, 0, all[i] as int) == fat_copy_entry(
                image,
                0,
                all[i] as int,
            ));
        }
        assert forall|cluster: int| #[trigger] is_free_cluster(after, cluster) implies all.contains(
            cluster as usize,
        ) by {
            assert(fat_copy_entry(after, 0, cluster) == fat_copy_entry(image, 0, cluster));
            assert(is_free_cluster(image, cluster));
        }
        lemma_free_clusters_are(after, all);
    }
}

} // verus!
