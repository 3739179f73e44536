//! What storing a chain of clusters changes in an image, step by step and
//! as a whole.

use vstd::prelude::*;
use crate::bios_parameter_block::{
    BYTES_PER_SECTOR, cluster_start, data_region_start, fat_copy_len, fat_entry_count,
    fat_region_start, holds_volume, is_data_cluster, lemma_data_cluster_in_buffer, lemma_geometry,
    NUMBER_FATS, root_region_start,
};
use crate::buffer::with_bytes_at;
use crate::cluster_chain::{
    chain_data, cluster_bytes, cluster_chain, file_bytes, is_linked, lemma_bytes_keep_table,
    lemma_chain_data_kept, lemma_chain_is_linked, lemma_chain_kept, lemma_cluster_written,
    lemma_entry_keeps_clusters, lemma_linked_is_chain,
};
use crate::directories::next_free_slot;
use crate::directory_changes::lemma_first_free_exists;
use crate::entry_region::{
    directory_is_full, EntryRegion, is_first_free_slot, lemma_first_free_slot,
    lemma_slot_in_buffer, lemma_used_slots_kept, region_chain, region_is_valid, slot_bytes,
    slot_count, slot_is_free, slot_start, used_slots,
};
use crate::fat_section_util::{
    END_OF_CHAIN, fat_copy_entry, fat_copy_start, fat_entry, lemma_entries_fix_bytes,
    lemma_write_effect, with_fat_entry,
};
use crate::free_clusters::{
    free_clusters, is_free_cluster, lemma_free_clusters, lemma_free_clusters_are,
};
use crate::new_file::{chunks_needed, file_chunk};

verus! {

/// The table value that stands behind cluster `at` of a chain: the next
/// cluster, or the end-of-chain value behind the last one.
pub open spec fn link_value(chain: Seq<usize>, at: int) -> int {
    if at + 1 < chain.len() {
        chain[at + 1] as int
    } else {
        END_OF_CHAIN as int
    }
}

/// Whether the byte at offset `at` lies in a cluster of `chain`.
pub open spec fn in_chain_cluster(chain: Seq<usize>, at: int) -> bool {
    data_region_start() <= at && chain.contains(
        ((at - data_region_start()) / (BYTES_PER_SECTOR as int)) as usize,
    )
}

/// Whether `after` is `before` with the content stored in the clusters of
/// `chain` and nothing else changed.
///
/// Cluster `i` of the chain holds chunk `i` of the content. In both copies of
/// the table each cluster of the chain is linked to the next; the last one
/// holds the end-of-chain value where the chain is `closed`, and is as it was
/// where not. Every other entry of the table and every byte outside the table
/// and the clusters of the chain is as it was.
pub open spec fn chain_written(
    before: Seq<u8>,
    after: Seq<u8>,
    chain: Seq<usize>,
    content: Seq<u8>,
    closed: bool,
) -> bool {
    &&& after.len() == before.len()
    &&& forall|i: int|
        0 <= i < chain.len() ==> cluster_bytes(after, #[trigger] chain[i] as int) == file_chunk(
            content,
            i,
        )
    &&& forall|copy: int, i: int|
        0 <= copy < NUMBER_FATS && 0 <= i < chain.len() && (closed || i + 1 < chain.len())
            ==> #[trigger] fat_copy_entry(after, copy, chain[i] as int) == link_value(chain, i)
    &&& forall|copy: int, index: int|
        0 <= copy < NUMBER_FATS && 0 <= index < fat_entry_count() && (!chain.contains(
            index as usize,
        ) || (!closed && index == chain.last())) ==> #[trigger] fat_copy_entry(after, copy, index)
            == fat_copy_entry(before, copy, index)
    &&& forall|at: int|
        0 <= at < before.len() && !(fat_region_start() <= at < root_region_start())
            && !in_chain_cluster(chain, at) ==> #[trigger] after[at] == before[at]
}

/// There is one image with a chain written: what `chain_written` says of
/// the image after fixes every byte of it.
pub proof fn lemma_chain_written_is_one(
    before: Seq<u8>,
    one: Seq<u8>,
    other: Seq<u8>,
    chain: Seq<usize>,
    content: Seq<u8>,
    closed: bool,
)
    requires
        holds_volume(before.len()),
        before.len() <= usize::MAX,
        chain_written(before, one, chain, content, closed),
        chain_written(before, other, chain, content, closed),
        forall|i: int| 0 <= i < chain.len() ==> is_data_cluster(before.len(), #[trigger] chain[i] as int),
    ensures
        one == other,
{
    lemma_geometry();
    assert forall|copy: int, index: int|
        0 <= copy < NUMBER_FATS && 0 <= index < fat_entry_count() implies #[trigger] fat_copy_entry(
        one,
        copy,
        index,
    ) == fat_copy_entry(other, copy, index) by {
        if chain.contains(index as usize) {
            let i = choose|i: int| 0 <= i < chain.len() && chain[i] == index as usize;
            if closed || i + 1 < chain.len() {
                assert(fat_copy_entry(one, copy, chain[i] as int) == link_value(chain, i));
                assert(fat_copy_entry(other, copy, chain[i] as int) == link_value(chain, i));
            } else {
                assert(chain[i] == chain.last());
            }
        }
    }
    lemma_entries_fix_bytes(one, other, 0);
    lemma_entries_fix_bytes(one, other, 1);
    assert forall|at: int| 0 <= at < one.len() implies one[at] == other[at] by {
        if fat_region_start() <= at < root_region_start() {
            assert(fat_copy_start(0) <= at < fat_copy_start(0) + fat_copy_len() || fat_copy_start(1)
                <= at < fat_copy_start(1) + fat_copy_len());
        } else if in_chain_cluster(chain, at) {
            let inside = ((at - data_region_start()) / 512) as usize;
            let i = choose|i: int| 0 <= i < chain.len() && chain[i] == inside;
            assert(is_data_cluster(before.len(), chain[i] as int));
            lemma_data_cluster_in_buffer(before.len(), chain[i] as int);
            assert(chain[i] as int == (at - data_region_start()) / 512);
            let offset = at - cluster_start(chain[i] as int);
            assert(0 <= offset < 512);
            assert(cluster_bytes(one, chain[i] as int)[offset] == one[at]);
            assert(cluster_bytes(other, chain[i] as int)[offset] == other[at]);
        } else {
            assert(one[at] == before[at]);
            assert(other[at] == before[at]);
        }
    }
    assert(one =~= other);
}

/// The image after one more cluster was taken into a chain that is being
/// written: the cluster holds its chunk, and the last cluster so far is linked
/// to it.
pub open spec fn with_next_cluster(
    image: Seq<u8>,
    chain: Seq<usize>,
    content: Seq<u8>,
    cluster: int,
) -> Seq<u8> {
    let stored = with_bytes_at(
        image,
        cluster_start(cluster),
        file_chunk(content, chain.len() as int),
    );
    if chain.len() > 0 {
        with_fat_entry(stored, chain.last() as int, cluster)
    } else {
        stored
    }
}

/// Taking one more cluster into a chain that is being written keeps the
/// chain written.
pub proof fn lemma_chain_extended(
    before: Seq<u8>,
    image: Seq<u8>,
    chain: Seq<usize>,
    content: Seq<u8>,
    cluster: usize,
)
    requires
        chain_written(before, image, chain, content, false),
        forall|i: int| 0 <= i < chain.len() ==> is_data_cluster(before.len(), #[trigger] chain[i] as int),
        chain.no_duplicates(),
        is_data_cluster(before.len(), cluster as int),
        !chain.contains(cluster),
    ensures
        chain_written(
            before,
            with_next_cluster(image, chain, content, cluster as int),
            chain.push(cluster),
            content,
            false,
        ),
{
    lemma_geometry();
    let count = chain.len() as int;
    let chunk = file_chunk(content, count);
    let stored = with_bytes_at(image, cluster_start(cluster as int), chunk);
    let after = with_next_cluster(image, chain, content, cluster as int);
    let longer = chain.push(cluster);
    lemma_data_cluster_in_buffer(image.len(), cluster as int);
    lemma_bytes_keep_table(image, cluster_start(cluster as int), chunk);
    lemma_cluster_written(image, cluster as int, chunk);
    if count > 0 {
        assert(is_data_cluster(before.len(), chain[count - 1] as int));
        lemma_write_effect(stored, chain.last() as int, cluster as int);
        lemma_entry_keeps_clusters(stored, chain.last() as int, cluster as int);
    }
    assert forall|i: int| 0 <= i < longer.len() implies cluster_bytes(
        after,
        #[trigger] longer[i] as int,
    ) == file_chunk(content, i) by {
        if i < count {
            assert(longer[i] == chain[i]);
            assert(is_data_cluster(before.len(), chain[i] as int));
            assert(cluster_bytes(stored, chain[i] as int) == cluster_bytes(image, chain[i] as int));
        }
        assert(is_data_cluster(stored.len(), longer[i] as int));
    }
    assert forall|copy: int, i: int|
        0 <= copy < NUMBER_FATS && 0 <= i < longer.len() && i + 1
            < longer.len() implies #[trigger] fat_copy_entry(after, copy, longer[i] as int)
        == link_value(longer, i) by {
        assert(longer[i] == chain[i]);
        assert(is_data_cluster(before.len(), chain[i] as int));
        if i + 1 < count {
            assert(chain[i] != chain[count - 1]);
            assert(longer[i + 1] == chain[i + 1]);
            assert(fat_copy_entry(stored, copy, chain[i] as int) == fat_copy_entry(
                image,
                copy,
                chain[i] as int,
            ));
            assert(fat_copy_entry(image, copy, chain[i] as int) == link_value(chain, i));
        } else {
            assert(longer[i + 1] == cluster);
        }
    }
    assert forall|copy: int, index: int|
        0 <= copy < NUMBER_FATS && 0 <= index < fat_entry_count() && (!longer.contains(
            index as usize,
        ) || index == longer.last()) implies #[trigger] fat_copy_entry(after, copy, index)
        == fat_copy_entry(before, copy, index) by {
        if index != cluster {
            assert(!longer.contains(index as usize));
        }
        assert(!chain.contains(index as usize)) by {
            if chain.contains(index as usize) {
                let i = choose|i: int| 0 <= i < chain.len() && chain[i] == index as usize;
                assert(longer[i] == index as usize);
            }
        }
        assert(fat_copy_entry(stored, copy, index) == fat_copy_entry(image, copy, index));
        if count > 0 {
            assert(chain[count - 1] == chain.last());
            assert(index != chain.last());
        }
    }
    assert forall|at: int|
        0 <= at < before.len() && !(fat_region_start() <= at < root_region_start())
            && !in_chain_cluster(longer, at) implies #[trigger] after[at] == before[at] by {
        assert(!in_chain_cluster(chain, at)) by {
            if in_chain_cluster(chain, at) {
                let inside = ((at - data_region_start()) / 512) as usize;
                let i = choose|i: int| 0 <= i < chain.len() && chain[i] == inside;
                assert(longer[i] == inside);
            }
        }
        assert(longer[count] == cluster);
        if cluster_start(cluster as int) <= at < cluster_start(cluster as int) + 512 {
            assert(((at - data_region_start()) / 512) as usize == cluster);
        }
        assert(stored[at] == image[at]);
    }
}

/// Closing a chain that was written puts the end-of-chain value behind its
/// last cluster and changes nothing else.
pub proof fn lemma_chain_closed(
    before: Seq<u8>,
    image: Seq<u8>,
    chain: Seq<usize>,
    content: Seq<u8>,
)
    requires
        chain_written(before, image, chain, content, false),
        forall|i: int| 0 <= i < chain.len() ==> is_data_cluster(before.len(), #[trigger] chain[i] as int),
        chain.no_duplicates(),
        chain.len() > 0,
    ensures
        chain_written(
            before,
            with_fat_entry(image, chain.last() as int, END_OF_CHAIN as int),
            chain,
            content,
            true,
        ),
{
    lemma_geometry();
    let count = chain.len() as int;
    let last = chain.last() as int;
    let after = with_fat_entry(image, last, END_OF_CHAIN as int);
    assert(is_data_cluster(before.len(), chain[count - 1] as int));
    lemma_write_effect(image, last, END_OF_CHAIN as int);
    lemma_entry_keeps_clusters(image, last, END_OF_CHAIN as int);
    assert forall|i: int| 0 <= i < chain.len() implies cluster_bytes(
        after,
        #[trigger] chain[i] as int,
    ) == file_chunk(content, i) by {
        assert(is_data_cluster(before.len(), chain[i] as int));
    }
    assert forall|copy: int, i: int|
        0 <= copy < NUMBER_FATS && 0 <= i < chain.len() implies #[trigger] fat_copy_entry(
        after,
        copy,
        chain[i] as int,
    ) == link_value(chain, i) by {
        assert(is_data_cluster(before.len(), chain[i] as int));
        if i + 1 < count {
            assert(chain[i] != chain[count - 1]);
        }
    }
    assert forall|copy: int, index: int|
        0 <= copy < NUMBER_FATS && 0 <= index < fat_entry_count() && !chain.contains(
            index as usize,
        ) implies #[trigger] fat_copy_entry(after, copy, index) == fat_copy_entry(
        before,
        copy,
        index,
    ) by {
        assert(chain[count - 1] == chain.last());
    }
}

/// While a chain is being written into the first free clusters of an image,
/// a free cluster of the image so far that is not the last of the chain was
/// free from the start and is not in the chain.
proof fn lemma_still_free(
    before: Seq<u8>,
    image: Seq<u8>,
    chain: Seq<usize>,
    content: Seq<u8>,
    cluster: int,
)
    requires
        chain_written(before, image, chain, content, false),
        chain.len() <= free_clusters(before).len(),
        chain == free_clusters(before).take(chain.len() as int),
        is_free_cluster(image, cluster),
        chain.len() > 0 ==> cluster != chain.last(),
    ensures
        !chain.contains(cluster as usize),
        is_free_cluster(before, cluster),
{
    lemma_geometry();
    lemma_free_clusters(before);
    let list = free_clusters(before);
    let count = chain.len() as int;
    if chain.contains(cluster as usize) {
        let i = choose|i: int| 0 <= i < chain.len() && chain[i] == cluster as usize;
        assert(i + 1 < count);
        assert(fat_copy_entry(image, 0, chain[i] as int) == link_value(chain, i));
        assert(chain[i + 1] == list[i + 1]);
        assert(is_free_cluster(before, list[i + 1] as int));
    }
    assert(fat_copy_entry(image, 0, cluster) == fat_copy_entry(before, 0, cluster));
}

/// While a chain is being written into the first free clusters of an image,
/// the next free cluster of the list is still free.
proof fn lemma_next_is_free(before: Seq<u8>, image: Seq<u8>, chain: Seq<usize>, content: Seq<u8>)
    requires
        chain_written(before, image, chain, content, false),
        chain.len() < free_clusters(before).len(),
        chain == free_clusters(before).take(chain.len() as int),
    ensures
        is_free_cluster(image, free_clusters(before)[chain.len() as int] as int),
        !chain.contains(free_clusters(before)[chain.len() as int]),
        chain.len() > 0 ==> free_clusters(before)[chain.len() as int] != chain.last(),
{
    lemma_geometry();
    lemma_free_clusters(before);
    let list = free_clusters(before);
    let count = chain.len() as int;
    let next = list[count];
    assert(is_free_cluster(before, list[count] as int));
    if chain.contains(next) {
        let i = choose|i: int| 0 <= i < chain.len() && chain[i] == next;
        assert(chain[i] == list[i]);
    }
    if count > 0 {
        assert(chain[count - 1] == list[count - 1]);
    }
    assert(fat_copy_entry(image, 0, next as int) == fat_copy_entry(before, 0, next as int));
}

/// While a chain is being written into the first free clusters of an image,
/// the first free cluster other than the last of the chain is the next free
/// cluster of the list.
pub proof fn lemma_allocated_next(
    before: Seq<u8>,
    image: Seq<u8>,
    chain: Seq<usize>,
    content: Seq<u8>,
    cluster: usize,
)
    requires
        chain_written(before, image, chain, content, false),
        chain.len() <= free_clusters(before).len(),
        chain == free_clusters(before).take(chain.len() as int),
        is_free_cluster(image, cluster as int),
        chain.len() > 0 ==> cluster != chain.last(),
        forall|other: int|
            other < cluster && #[trigger] is_free_cluster(image, other) ==> chain.len() > 0 && other
                == chain.last(),
    ensures
        chain.len() < free_clusters(before).len(),
        free_clusters(before)[chain.len() as int] == cluster,
        !chain.contains(cluster),
        chain.push(cluster) == free_clusters(before).take(chain.len() as int + 1),
        is_data_cluster(before.len(), cluster as int),
{
    lemma_free_clusters(before);
    lemma_still_free(before, image, chain, content, cluster as int);
    let list = free_clusters(before);
    let count = chain.len() as int;
    assert(list.contains(cluster));
    let found = choose|i: int| 0 <= i < list.len() && list[i] == cluster;
    if found < count {
        assert(chain[found] == list[found]);
    }
    if found > count {
        lemma_next_is_free(before, image, chain, content);
        assert(list[count] < list[found]);
    }
    assert(chain.push(cluster) =~= list.take(count + 1));
}

/// While a chain is being written into the first free clusters of an image,
/// a search for a free cluster other than the last of the chain fails just
/// when the chain has taken all the free clusters.
pub proof fn lemma_allocation_failed(
    before: Seq<u8>,
    image: Seq<u8>,
    chain: Seq<usize>,
    content: Seq<u8>,
)
    requires
        chain_written(before, image, chain, content, false),
        chain.len() <= free_clusters(before).len(),
        chain == free_clusters(before).take(chain.len() as int),
        forall|other: int| #[trigger]
            is_free_cluster(image, other) ==> chain.len() > 0 && other == chain.last(),
    ensures
        chain == free_clusters(before),
{
    let list = free_clusters(before);
    if chain.len() < list.len() {
        lemma_next_is_free(before, image, chain, content);
    }
    assert(list.take(list.len() as int) =~= list);
}

/// A chain that was written into the first free clusters of an image and
/// closed takes just these clusters from the free ones.
pub proof fn lemma_chain_takes_clusters(
    before: Seq<u8>,
    after: Seq<u8>,
    content: Seq<u8>,
    count: int,
)
    requires
        0 <= count <= free_clusters(before).len(),
        chain_written(before, after, free_clusters(before).take(count), content, true),
    ensures
        free_clusters(after) == free_clusters(before).skip(count),
{
    lemma_geometry();
    lemma_free_clusters(before);
    let all = free_clusters(before);
    let chain = all.take(count);
    let left = all.skip(count);
    assert forall|i: int| 0 <= i < left.len() implies is_free_cluster(
        after,
        (#[trigger] left[i]) as int,
    ) by {
        assert(left[i] == all[count + i]);
        assert(is_free_cluster(before, all[count + i] as int));
        if chain.contains(left[i]) {
            let j = choose|j: int| 0 <= j < chain.len() && chain[j] == left[i];
            assert(chain[j] == all[j]);
        }
        assert(fat_copy_entry(after, 0, left[i] as int) == fat_copy_entry(
            before,
            0,
            left[i] as int,
        ));
    }
    assert forall|i: int, j: int| 0 <= i < j < left.len() implies left[i] < left[j] by {
        assert(left[i] == all[count + i] && left[j] == all[count + j]);
    }
    assert forall|cluster: int| #[trigger] is_free_cluster(after, cluster) implies left.contains(
        cluster as usize,
    ) by {
        if chain.contains(cluster as usize) {
            let j = choose|j: int| 0 <= j < chain.len() && chain[j] == cluster as usize;
            assert(fat_copy_entry(after, 0, chain[j] as int) == link_value(chain, j));
            if j + 1 < chain.len() {
                assert(chain[j + 1] == all[j + 1]);
                assert(is_free_cluster(before, all[j + 1] as int));
            }
        }
        assert(fat_copy_entry(after, 0, cluster) == fat_copy_entry(before, 0, cluster));
        assert(is_free_cluster(before, cluster));
        assert(all.contains(cluster as usize));
        let at = choose|i: int| 0 <= i < all.len() && all[i] == cluster as usize;
        if at < count {
            assert(chain[at] == all[at]);
        }
        assert(left[at - count] == cluster as usize);
    }
    lemma_free_clusters_are(after, left);
}

/// Storing a chain in free clusters leaves a region as it was: its chain,
/// its slots and what they hold.
pub proof fn lemma_region_kept(
    before: Seq<u8>,
    after: Seq<u8>,
    chain: Seq<usize>,
    content: Seq<u8>,
    closed: bool,
    region: EntryRegion,
)
    requires
        region_is_valid(before, region),
        chain_written(before, after, chain, content, closed),
        forall|i: int| 0 <= i < chain.len() ==> is_free_cluster(before, #[trigger] chain[i] as int),
    ensures
        region_is_valid(after, region),
        region_chain(after, region) == region_chain(before, region),
        slot_count(after, region) == slot_count(before, region),
        forall|slot: int|
            0 <= slot < slot_count(before, region) ==> #[trigger] slot_start(after, region, slot)
                == slot_start(before, region, slot) && slot_bytes(after, region, slot)
                == slot_bytes(before, region, slot) && slot_is_free(after, region, slot)
                == slot_is_free(before, region, slot),
        directory_is_full(after, region) == directory_is_full(before, region),
        used_slots(after, region) == used_slots(before, region),
{
    lemma_geometry();
    match region {
        EntryRegion::Root => {},
        EntryRegion::Subdirectory { first_cluster } => {
            lemma_chain_is_linked(before, first_cluster, 3072);
            let held = region_chain(before, region);
            assert forall|i: int| 0 <= i < held.len() implies fat_entry(
                after,
                #[trigger] held[i] as int,
            ) == fat_entry(before, held[i] as int) by {
                assert(is_data_cluster(before.len(), held[i] as int));
                if chain.contains(held[i]) {
                    let j = choose|j: int| 0 <= j < chain.len() && chain[j] == held[i];
                    assert(is_free_cluster(before, chain[j] as int));
                }
                assert(fat_copy_entry(after, 0, held[i] as int) == fat_copy_entry(
                    before,
                    0,
                    held[i] as int,
                ));
            }
            lemma_chain_kept(before, after, first_cluster, 3072);
        },
    }
    assert forall|slot: int| 0 <= slot < slot_count(before, region) implies #[trigger] slot_start(
        after,
        region,
        slot,
    ) == slot_start(before, region, slot) && slot_bytes(after, region, slot) == slot_bytes(
        before,
        region,
        slot,
    ) && slot_is_free(after, region, slot) == slot_is_free(before, region, slot) by {
        lemma_slot_in_buffer(before, region, slot);
        let start = slot_start(before, region, slot);
        assert forall|at: int| start <= at < start + 32 implies after[at] == before[at] by {
            if region is Subdirectory {
                let held = region_chain(before, region);
                let inside = held[slot / 16];
                assert(((at - data_region_start()) / 512) as usize == inside);
                lemma_chain_is_linked(before, region->first_cluster, 3072);
                assert(fat_entry(before, held[slot / 16] as int) != 0);
                if chain.contains(inside) {
                    let j = choose|j: int| 0 <= j < chain.len() && chain[j] == inside;
                    assert(is_free_cluster(before, chain[j] as int));
                }
            }
            assert(!in_chain_cluster(chain, at));
        }
        assert(slot_bytes(after, region, slot) =~= slot_bytes(before, region, slot));
    }
    lemma_used_slots_kept(before, after, region, slot_count(before, region));
    if directory_is_full(before, region) {
        assert forall|slot: int| 0 <= slot < slot_count(after, region) implies !#[trigger] slot_is_free(
            after,
            region,
            slot,
        ) by {
            assert(slot_start(after, region, slot) == slot_start(before, region, slot));
            assert(!slot_is_free(before, region, slot));
        }
    }
    if directory_is_full(after, region) {
        assert forall|slot: int| 0 <= slot < slot_count(before, region) implies !#[trigger] slot_is_free(
            before,
            region,
            slot,
        ) by {
            assert(slot_start(after, region, slot) == slot_start(before, region, slot));
            assert(!slot_is_free(after, region, slot));
        }
    }
}

/// A chain that is written leaves the bytes of every data cluster outside
/// the chain as they were.
pub proof fn lemma_cluster_kept(
    before: Seq<u8>,
    after: Seq<u8>,
    chain: Seq<usize>,
    content: Seq<u8>,
    cluster: int,
)
    requires
        chain_written(before, after, chain, content, true),
        is_data_cluster(before.len(), cluster),
        !chain.contains(cluster as usize),
    ensures
        cluster_bytes(after, cluster) == cluster_bytes(before, cluster),
{
    lemma_geometry();
    lemma_data_cluster_in_buffer(before.len(), cluster);
    let start = cluster_start(cluster);
    assert forall|at: int| start <= at < start + 512 implies after[at] == before[at] by {
        assert(((at - data_region_start()) / 512) as usize
            == cluster as usize);
        assert(!in_chain_cluster(chain, at));
    }
    assert(cluster_bytes(after, cluster) =~= cluster_bytes(before, cluster));
}

/// A chain that is written into free clusters changes no chain that was
/// there, nor its data: every file of the image before reads as before.
pub proof fn lemma_chain_written_keeps_files(
    before: Seq<u8>,
    after: Seq<u8>,
    chain: Seq<usize>,
    content: Seq<u8>,
    first: usize,
    size: nat,
)
    requires
        chain_written(before, after, chain, content, true),
        forall|i: int| 0 <= i < chain.len() ==> is_free_cluster(before, #[trigger] chain[i] as int),
        cluster_chain(before, first) is Some,
    ensures
        cluster_chain(after, first) == cluster_chain(before, first),
        file_bytes(after, first, size) == file_bytes(before, first, size),
{
    lemma_geometry();
    lemma_chain_is_linked(before, first, 3072);
    let held = cluster_chain(before, first).unwrap();
    assert forall|i: int| 0 <= i < held.len() implies fat_entry(after, #[trigger] held[i] as int)
        == fat_entry(before, held[i] as int) && cluster_bytes(after, held[i] as int)
        == cluster_bytes(before, held[i] as int) by {
        assert(is_data_cluster(before.len(), held[i] as int));
        assert(fat_entry(before, held[i] as int) != 0);
        if chain.contains(held[i]) {
            let j = choose|j: int| 0 <= j < chain.len() && chain[j] == held[i];
            assert(is_free_cluster(before, chain[j] as int));
        }
        assert(fat_copy_entry(after, 0, held[i] as int) == fat_copy_entry(
            before,
            0,
            held[i] as int,
        ));
        lemma_cluster_kept(before, after, chain, content, held[i] as int);
    }
    lemma_chain_kept(before, after, first, 3072);
    lemma_chain_data_kept(before, after, held);
}

/// The clusters of a chain that was written and closed are a chain of the
/// table, and its data is the content, padded with zeros to whole clusters.
pub proof fn lemma_written_chain_is_chain(
    before: Seq<u8>,
    after: Seq<u8>,
    chain: Seq<usize>,
    content: Seq<u8>,
)
    requires
        chain_written(before, after, chain, content, true),
        forall|i: int| 0 <= i < chain.len() ==> is_free_cluster(before, #[trigger] chain[i] as int),
        0 < chain.len() <= 3072,
        chain.len() == chunks_needed(content.len()),
    ensures
        cluster_chain(after, chain[0]) == Some(chain),
        content.len() <= chain_data(after, chain).len(),
        chain_data(after, chain).subrange(0, content.len() as int) == content,
        file_bytes(after, chain[0], content.len()) == content,
{
    lemma_geometry();
    assert(is_linked(after, chain)) by {
        assert forall|i: int| 0 <= i < chain.len() implies is_data_cluster(
            after.len(),
            #[trigger] chain[i] as int,
        ) by {
            assert(is_free_cluster(before, chain[i] as int));
        }
        assert forall|i: int| 0 <= i < chain.len() - 1 implies fat_entry(
            after,
            #[trigger] chain[i] as int,
        ) == chain[i + 1] by {
            assert(fat_copy_entry(after, 0, chain[i] as int) == link_value(chain, i));
        }
        assert(fat_copy_entry(after, 0, chain[chain.len() - 1] as int) == link_value(
            chain,
            chain.len() - 1,
        ));
    }
    lemma_linked_is_chain(after, chain, 3072);
    let data = chain_data(after, chain);
    assert forall|at: int| 0 <= at < content.len() implies data[at] == content[at] by {
        let i = at / 512;
        assert(is_free_cluster(before, chain[i] as int));
        assert(cluster_bytes(after, chain[i] as int)[at % 512] == file_chunk(content, i)[at % 512]);
    }
    assert(data.subrange(0, content.len() as int) =~= content);
}

/// Storing a chain in free clusters leaves the slot that the next entry of
/// a region goes to as it was.
pub proof fn lemma_next_slot_kept(
    before: Seq<u8>,
    after: Seq<u8>,
    chain: Seq<usize>,
    content: Seq<u8>,
    region: EntryRegion,
)
    requires
        region_is_valid(before, region),
        chain_written(before, after, chain, content, true),
        forall|i: int| 0 <= i < chain.len() ==> is_free_cluster(before, #[trigger] chain[i] as int),
    ensures
        next_free_slot(after, region) == next_free_slot(before, region),
{
    lemma_region_kept(before, after, chain, content, true, region);
    if !directory_is_full(before, region) {
        let free = choose|free: int|
            0 <= free < slot_count(before, region) && slot_is_free(before, region, free);
        let first = lemma_first_free_exists(before, region, free);
        assert(is_first_free_slot(after, region, first)) by {
            assert(slot_start(after, region, first) == slot_start(before, region, first));
            assert forall|slot: int| 0 <= slot < first implies !#[trigger] slot_is_free(
                after,
                region,
                slot,
            ) by {
                assert(slot_start(after, region, slot) == slot_start(before, region, slot));
                assert(!slot_is_free(before, region, slot));
            }
        }
        lemma_first_free_slot(after, region, first);
    }
}

} // verus!
