//! What the operations guarantee together: a file that was stored reads back
//! as it was written, a directory that was made is listed and empty, storing
//! a file leaves the files that were there as they were and takes just its
//! clusters from the free ones, and the outcome of storing a file is fixed by
//! the image and the file.

use vstd::prelude::*;
use crate::bios_parameter_block::{
    BYTES_PER_DIRECTORY_ENTRY, BYTES_PER_SECTOR, is_data_cluster, lemma_geometry,
};
use crate::chain_store::{
    chain_written, lemma_chain_takes_clusters, lemma_chain_written_is_one,
    lemma_chain_written_keeps_files, lemma_next_slot_kept, lemma_region_kept,
    lemma_written_chain_is_chain, link_value,
};
use crate::cluster_chain::{cluster_bytes, cluster_chain, file_bytes};
use crate::dir_entry::{
    ATTR_SUBDIRECTORY, attribute_byte, DirectoryEntry, is_free_marker, lemma_record_reads_back,
    name_bytes, NAME_LEN, record_first_cluster, record_size, short_name,
};
use crate::directories::{can_append, lists, next_free_slot, with_appended_entry, zero_cluster};
use crate::directory_changes::{
    lemma_appended_keeps_chain, lemma_appended_takes_clusters, lemma_entry_appended,
    lemma_free_not_in_region, lemma_slot_appended,
};
use crate::entry_region::{
    directory_is_full, EntryRegion, region_chain, region_is_valid, slot_bytes, slot_count,
    used_slots,
};
use crate::error::FatError;
use crate::fat_section_util::fat_copy_entry;
use crate::free_clusters::{free_clusters, is_free_cluster, lemma_free_clusters};
use crate::new_file::{
    chunks_needed, file_chain, file_chunk, file_record, file_stored, write_outcome,
};

verus! {

/// The record of a new file names the first cluster of its chain and its
/// length.
pub proof fn lemma_file_record(before: Seq<u8>, name: Seq<char>, len: nat, is_subdir: bool)
    requires
        chunks_needed(len) <= free_clusters(before).len(),
    ensures
        file_record(before, name, len, is_subdir).len() == BYTES_PER_DIRECTORY_ENTRY,
        file_record(before, name, len, is_subdir).subrange(0, NAME_LEN as int) == short_name(
            name_bytes(name),
        ),
        file_record(before, name, len, is_subdir)[0] == short_name(name_bytes(name))[0],
        file_record(before, name, len, is_subdir)[11] == attribute_byte(is_subdir),
        record_first_cluster(file_record(before, name, len, is_subdir)) == file_chain(before, len)[0],
        record_size(file_record(before, name, len, is_subdir)) == len,
{
    lemma_geometry();
    lemma_free_clusters(before);
    let first = file_chain(before, len)[0];
    assert(first == free_clusters(before)[0]);
    assert(is_free_cluster(before, free_clusters(before)[0] as int));
    lemma_record_reads_back(
        name_bytes(name),
        attribute_byte(is_subdir),
        first as int,
        len as int,
    );
    let record = file_record(before, name, len, is_subdir);
    assert(record.subrange(0, NAME_LEN as int)[0] == record[0]);
}

/// A file that was stored reads back as it was written: the chain that its
/// directory record names is the chain that it went to, and the data of that
/// chain, cut to the size in the record, is the content. The record stands in
/// the slot that was the next free one, and is listed unless its name begins
/// with a byte that marks a free slot.
pub proof fn lemma_stored_file_reads_back(
    before: Seq<u8>,
    after: Seq<u8>,
    region: EntryRegion,
    name: Seq<char>,
    content: Seq<u8>,
    is_subdir: bool,
)
    requires
        region_is_valid(before, region),
        file_stored(before, after, region, name, content, is_subdir),
    ensures
        ({
            let first = file_chain(before, content.len())[0];
            let slot = next_free_slot(before, region);
            let record = file_record(before, name, content.len(), is_subdir);
            &&& cluster_chain(after, first) == Some(file_chain(before, content.len()))
            &&& file_bytes(after, first, content.len()) == content
            &&& region_is_valid(after, region)
            &&& 0 <= slot < slot_count(after, region)
            &&& slot_bytes(after, region, slot) == record
            &&& record_first_cluster(record) == first
            &&& record_size(record) == content.len()
            &&& !is_free_marker(record[0]) ==> used_slots(after, region).contains(slot)
        }),
{
    let chain = file_chain(before, content.len());
    let first = chain[0];
    let record = file_record(before, name, content.len(), is_subdir);
    let stored = choose|stored: Seq<u8>|
        {
            &&& #[trigger] chain_written(before, stored, chain, content, true)
            &&& can_append(stored, region)
            &&& after == with_appended_entry(stored, region, record)
        };
    lemma_file_record(before, name, content.len(), is_subdir);
    lemma_free_clusters(before);
    assert forall|i: int| 0 <= i < chain.len() implies is_free_cluster(
        before,
        #[trigger] chain[i] as int,
    ) by {
        assert(chain[i] == free_clusters(before)[i]);
    }
    lemma_written_chain_is_chain(before, stored, chain, content);
    lemma_region_kept(before, stored, chain, content, true, region);
    lemma_next_slot_kept(before, stored, chain, content, region);
    assert forall|i: int| 0 <= i < chain.len() implies !region_chain(stored, region).contains(
        #[trigger] chain[i],
    ) by {
        lemma_free_not_in_region(before, region, chain[i] as int);
    }
    lemma_appended_keeps_chain(stored, region, record, first);
    lemma_slot_appended(stored, region, record);
}

/// A file that was stored reads back from its entry: every listing of the
/// region has an entry of its name, and the data of the chain that the entry
/// names, cut to the size that the entry gives, is the content. The name must
/// not begin with a byte that marks a free slot.
pub proof fn lemma_listed_file_reads_back(
    before: Seq<u8>,
    after: Seq<u8>,
    region: EntryRegion,
    name: Seq<char>,
    content: Seq<u8>,
    is_subdir: bool,
    entries: Seq<DirectoryEntry>,
)
    requires
        region_is_valid(before, region),
        file_stored(before, after, region, name, content, is_subdir),
        !is_free_marker(short_name(name_bytes(name))[0]),
        lists(entries, after, region),
    ensures
        exists|i: int|
            0 <= i < entries.len() && (#[trigger] entries[i]).name@ == short_name(name_bytes(name))
                && entries[i].size == content.len() && cluster_chain(
                after,
                entries[i].first_cluster as usize,
            ) is Some && file_bytes(
                after,
                entries[i].first_cluster as usize,
                entries[i].size as nat,
            ) == content,
{
    lemma_stored_file_reads_back(before, after, region, name, content, is_subdir);
    lemma_file_record(before, name, content.len(), is_subdir);
    let slot = next_free_slot(before, region);
    let listed = choose|i: int|
        0 <= i < used_slots(after, region).len() && used_slots(after, region)[i] == slot;
    assert(entries[listed].describes(slot_bytes(after, region, slot)));
}

/// A directory that was made is listed and empty: its record stands in the
/// region with the name given and the subdirectory attribute, and names a
/// chain of one cluster that holds nothing but zeros; and every listing of
/// the region has an entry of that name, with the subdirectory attribute, for
/// that cluster. The name must not begin with a byte that marks a free slot.
pub proof fn lemma_made_directory_is_listed(
    before: Seq<u8>,
    after: Seq<u8>,
    region: EntryRegion,
    name: Seq<char>,
    entries: Seq<DirectoryEntry>,
)
    requires
        region_is_valid(before, region),
        file_stored(before, after, region, name, Seq::<u8>::empty(), true),
        !is_free_marker(short_name(name_bytes(name))[0]),
        lists(entries, after, region),
    ensures
        ({
            let first = file_chain(before, 0)[0];
            let slot = next_free_slot(before, region);
            &&& exists|i: int|
                0 <= i < entries.len() && (#[trigger] entries[i]).name@ == short_name(
                    name_bytes(name),
                ) && entries[i].spec_is_subdirectory() && entries[i].first_cluster == first
            &&& used_slots(after, region).contains(slot)
            &&& slot_bytes(after, region, slot).subrange(0, NAME_LEN as int) == short_name(
                name_bytes(name),
            )
            &&& slot_bytes(after, region, slot)[11] == ATTR_SUBDIRECTORY
            &&& record_first_cluster(slot_bytes(after, region, slot)) == first
            &&& cluster_chain(after, first) == Some(seq![first])
            &&& cluster_bytes(after, first as int) == zero_cluster()
        }),
{
    let content = Seq::<u8>::empty();
    let chain = file_chain(before, 0);
    let first = chain[0];
    let record = file_record(before, name, 0, true);
    lemma_stored_file_reads_back(before, after, region, name, content, true);
    lemma_file_record(before, name, 0, true);
    assert(chain =~= seq![first]);
    let stored = choose|stored: Seq<u8>|
        {
            &&& #[trigger] chain_written(before, stored, chain, content, true)
            &&& can_append(stored, region)
            &&& after == with_appended_entry(stored, region, record)
        };
    lemma_free_clusters(before);
    assert(chain[0] == free_clusters(before)[0]);
    assert(is_free_cluster(before, free_clusters(before)[0] as int));
    lemma_region_kept(before, stored, chain, content, true, region);
    lemma_free_not_in_region(before, region, first as int);
    lemma_entry_appended(stored, region, record);
    assert(fat_copy_entry(stored, 0, chain[0] as int) == link_value(chain, 0));
    assert(!is_free_cluster(stored, first as int));
    assert(cluster_bytes(after, first as int) == cluster_bytes(stored, first as int));
    assert(cluster_bytes(stored, chain[0] as int) == file_chunk(content, 0));
    assert(file_chunk(content, 0) =~= zero_cluster());
    let slot = next_free_slot(before, region);
    let listed = choose|i: int|
        0 <= i < used_slots(after, region).len() && used_slots(after, region)[i] == slot;
    assert(entries[listed].describes(slot_bytes(after, region, slot)));
    assert(ATTR_SUBDIRECTORY as int / 8 % 2 == 1);
}

/// Storing a file leaves the files that were there as they were: a chain of
/// the image before that shares no cluster with the region is a chain of the
/// image after, with the same data.
pub proof fn lemma_stored_file_keeps_files(
    before: Seq<u8>,
    after: Seq<u8>,
    region: EntryRegion,
    name: Seq<char>,
    content: Seq<u8>,
    is_subdir: bool,
    first: usize,
    size: nat,
)
    requires
        region_is_valid(before, region),
        file_stored(before, after, region, name, content, is_subdir),
        cluster_chain(before, first) is Some,
        forall|i: int|
            0 <= i < cluster_chain(before, first).unwrap().len() ==> !region_chain(
                before,
                region,
            ).contains(#[trigger] cluster_chain(before, first).unwrap()[i]),
    ensures
        cluster_chain(after, first) == cluster_chain(before, first),
        file_bytes(after, first, size) == file_bytes(before, first, size),
{
    lemma_geometry();
    let chain = file_chain(before, content.len());
    let record = file_record(before, name, content.len(), is_subdir);
    let stored = choose|stored: Seq<u8>|
        {
            &&& #[trigger] chain_written(before, stored, chain, content, true)
            &&& can_append(stored, region)
            &&& after == with_appended_entry(stored, region, record)
        };
    lemma_free_clusters(before);
    assert forall|i: int| 0 <= i < chain.len() implies is_free_cluster(
        before,
        #[trigger] chain[i] as int,
    ) by {
        assert(chain[i] == free_clusters(before)[i]);
    }
    lemma_chain_written_keeps_files(before, stored, chain, content, first, size);
    lemma_region_kept(before, stored, chain, content, true, region);
    lemma_file_record(before, name, content.len(), is_subdir);
    lemma_appended_keeps_chain(stored, region, record, first);
}

/// A file that could not be stored leaves the files and the entries that
/// were there as they were: with the disk or the directory full, every chain
/// of the image before is a chain of the image after, with the same data, and
/// the region lists what it listed.
pub proof fn lemma_failed_write_keeps_files(
    before: Seq<u8>,
    after: Seq<u8>,
    region: EntryRegion,
    name: Seq<char>,
    content: Seq<u8>,
    is_subdir: bool,
    error: FatError,
    first: usize,
    size: nat,
)
    requires
        region_is_valid(before, region),
        write_outcome(before, after, region, name, content, is_subdir, Err(error)),
        cluster_chain(before, first) is Some,
    ensures
        cluster_chain(after, first) == cluster_chain(before, first),
        file_bytes(after, first, size) == file_bytes(before, first, size),
        region_is_valid(after, region),
        used_slots(after, region) == used_slots(before, region),
        forall|slot: int|
            0 <= slot < slot_count(before, region) ==> #[trigger] slot_bytes(after, region, slot)
                == slot_bytes(before, region, slot),
{
    lemma_free_clusters(before);
    let all = free_clusters(before);
    let chain = if all.len() < chunks_needed(content.len()) {
        all
    } else {
        file_chain(before, content.len())
    };
    assert forall|i: int| 0 <= i < chain.len() implies is_free_cluster(
        before,
        #[trigger] chain[i] as int,
    ) by {
        assert(chain[i] == all[i]);
    }
    lemma_chain_written_keeps_files(before, after, chain, content, first, size);
    lemma_region_kept(before, after, chain, content, true, region);
}

/// A file that was stored takes just the clusters of its chain from the free
/// ones, and one more where the region had to grow for its entry. So an
/// image with free clusters for so many files takes so many, and no more.
pub proof fn lemma_stored_file_takes_clusters(
    before: Seq<u8>,
    after: Seq<u8>,
    region: EntryRegion,
    name: Seq<char>,
    content: Seq<u8>,
    is_subdir: bool,
)
    requires
        region_is_valid(before, region),
        file_stored(before, after, region, name, content, is_subdir),
    ensures
        free_clusters(after) == free_clusters(before).skip(
            chunks_needed(content.len()) + if directory_is_full(before, region) {
                1int
            } else {
                0int
            },
        ),
{
    let count = chunks_needed(content.len());
    let chain = file_chain(before, content.len());
    let record = file_record(before, name, content.len(), is_subdir);
    let stored = choose|stored: Seq<u8>|
        {
            &&& #[trigger] chain_written(before, stored, chain, content, true)
            &&& can_append(stored, region)
            &&& after == with_appended_entry(stored, region, record)
        };
    lemma_free_clusters(before);
    assert forall|i: int| 0 <= i < chain.len() implies is_free_cluster(
        before,
        #[trigger] chain[i] as int,
    ) by {
        assert(chain[i] == free_clusters(before)[i]);
    }
    lemma_chain_takes_clusters(before, stored, content, count);
    lemma_region_kept(before, stored, chain, content, true, region);
    lemma_file_record(before, name, content.len(), is_subdir);
    lemma_appended_takes_clusters(stored, region, record);
    if directory_is_full(before, region) {
        assert(free_clusters(before).skip(count).skip(1) =~= free_clusters(before).skip(count + 1));
    }
}

/// Storing a file in a region that has a free slot leaves the clusters of
/// the region and the length of the image as they were.
pub proof fn lemma_stored_file_keeps_region(
    before: Seq<u8>,
    after: Seq<u8>,
    region: EntryRegion,
    name: Seq<char>,
    content: Seq<u8>,
    is_subdir: bool,
)
    requires
        region_is_valid(before, region),
        file_stored(before, after, region, name, content, is_subdir),
        !directory_is_full(before, region),
    ensures
        after.len() == before.len(),
        region_is_valid(after, region),
        region_chain(after, region) == region_chain(before, region),
{
    let chain = file_chain(before, content.len());
    let record = file_record(before, name, content.len(), is_subdir);
    let stored = choose|stored: Seq<u8>|
        {
            &&& #[trigger] chain_written(before, stored, chain, content, true)
            &&& can_append(stored, region)
            &&& after == with_appended_entry(stored, region, record)
        };
    lemma_free_clusters(before);
    assert forall|i: int| 0 <= i < chain.len() implies is_free_cluster(
        before,
        #[trigger] chain[i] as int,
    ) by {
        assert(chain[i] == free_clusters(before)[i]);
    }
    lemma_region_kept(before, stored, chain, content, true, region);
    lemma_file_record(before, name, content.len(), is_subdir);
    lemma_entry_appended(stored, region, record);
}

/// Whether `images` is a run of files stored in turn: image `i + 1` is what
/// storing file `i` in the region made of image `i`, with result `i`.
pub open spec fn stored_in_turn(
    images: Seq<Seq<u8>>,
    region: EntryRegion,
    names: Seq<Seq<char>>,
    contents: Seq<Seq<u8>>,
    results: Seq<Result<(), FatError>>,
) -> bool {
    &&& images.len() == contents.len() + 1
    &&& names.len() == contents.len()
    &&& results.len() == contents.len()
    &&& forall|i: int|
        #![trigger contents[i]]
        0 <= i < contents.len() ==> write_outcome(
            images[i],
            images[i + 1],
            region,
            names[i],
            contents[i],
            false,
            results[i],
        )
}

/// Where a run of files of one cluster each starts with `count` free
/// clusters and a directory with room, the first `upto` files are stored in
/// the first free clusters of the first image, one after the other.
proof fn lemma_run_of_files(
    images: Seq<Seq<u8>>,
    region: EntryRegion,
    names: Seq<Seq<char>>,
    contents: Seq<Seq<u8>>,
    results: Seq<Result<(), FatError>>,
    count: int,
    upto: int,
)
    requires
        stored_in_turn(images, region, names, contents, results),
        0 <= upto <= count < contents.len(),
        region_is_valid(images[0], region),
        free_clusters(images[0]).len() == count,
        forall|i: int| 0 <= i < count ==> (#[trigger] contents[i]).len() <= BYTES_PER_SECTOR,
        forall|i: int| 0 <= i < count ==> !directory_is_full(#[trigger] images[i], region),
    ensures
        images[upto].len() == images[0].len(),
        region_is_valid(images[upto], region),
        region_chain(images[upto], region) == region_chain(images[0], region),
        free_clusters(images[upto]) == free_clusters(images[0]).skip(upto),
        forall|i: int| 0 <= i < upto ==> (#[trigger] results[i]) is Ok,
        forall|i: int|
            #![trigger free_clusters(images[0])[i]]
            0 <= i < upto ==> cluster_chain(images[upto], free_clusters(images[0])[i]) == Some(
                seq![free_clusters(images[0])[i]],
            ) && file_bytes(images[upto], free_clusters(images[0])[i], contents[i].len())
                == contents[i],
    decreases upto,
{
    let all = free_clusters(images[0]);
    if upto == 0 {
        assert(all.skip(0) =~= all);
    } else {
        let turn = upto - 1;
        lemma_run_of_files(images, region, names, contents, results, count, turn);
        let before = images[turn];
        let after = images[turn + 1];
        let content = contents[turn];
        let left = free_clusters(before);
        assert(write_outcome(before, after, region, names[turn], content, false, results[turn]));
        assert(content.len() <= BYTES_PER_SECTOR);
        assert(chunks_needed(content.len()) == 1);
        assert(left.len() == count - turn);
        assert(left[0] == all[turn]);
        let chain = file_chain(before, content.len());
        assert(chain =~= seq![all[turn]]);
        lemma_free_clusters(before);
        assert forall|i: int| 0 <= i < chain.len() implies is_free_cluster(
            before,
            #[trigger] chain[i] as int,
        ) by {
            assert(chain[i] == left[i]);
        }
        assert(!directory_is_full(images[turn], region));
        if results[turn] is Err {
            lemma_region_kept(before, after, chain, content, true, region);
        }
        lemma_stored_file_takes_clusters(before, after, region, names[turn], content, false);
        assert(left.skip(1) =~= all.skip(upto));
        lemma_stored_file_reads_back(before, after, region, names[turn], content, false);
        lemma_stored_file_keeps_region(before, after, region, names[turn], content, false);
        lemma_free_clusters(images[0]);
        assert forall|i: int|
            #![trigger all[i]]
            0 <= i < upto implies cluster_chain(after, all[i]) == Some(seq![all[i]]) && file_bytes(
            after,
            all[i],
            contents[i].len(),
        ) == contents[i] by {
            if i < turn {
                let held = seq![all[i]];
                assert(is_free_cluster(images[0], all[i] as int));
                lemma_free_not_in_region(images[0], region, all[i] as int);
                assert(cluster_chain(before, all[i]) == Some(held));
                assert forall|k: int| 0 <= k < held.len() implies !region_chain(
                    before,
                    region,
                ).contains(#[trigger] held[k]) by {
                    assert(held[k] == all[i]);
                }
                lemma_stored_file_keeps_files(
                    before,
                    after,
                    region,
                    names[turn],
                    content,
                    false,
                    all[i],
                    contents[i].len(),
                );
            } else {
                assert(all[i] == chain[0]);
                assert(cluster_chain(after, chain[0]) == Some(chain));
            }
        }
    }
}

/// An image with `count` free clusters takes `count` files of one cluster
/// each, and no more: where the directory has room for each entry, storing
/// the files one after the other succeeds `count` times, the next file finds
/// the disk full, and after that each of the files stored still reads as it
/// was written.
pub proof fn lemma_files_fill_the_disk(
    images: Seq<Seq<u8>>,
    region: EntryRegion,
    names: Seq<Seq<char>>,
    contents: Seq<Seq<u8>>,
    results: Seq<Result<(), FatError>>,
    count: int,
)
    requires
        stored_in_turn(images, region, names, contents, results),
        contents.len() == count + 1,
        region_is_valid(images[0], region),
        free_clusters(images[0]).len() == count,
        forall|i: int| 0 <= i < count ==> (#[trigger] contents[i]).len() <= BYTES_PER_SECTOR,
        forall|i: int| 0 <= i < count ==> !directory_is_full(#[trigger] images[i], region),
    ensures
        forall|i: int| 0 <= i < count ==> (#[trigger] results[i]) is Ok,
        results[count] == Err::<(), FatError>(FatError::DiskFull),
        forall|i: int|
            #![trigger contents[i]]
            0 <= i < count ==> file_bytes(
                images[count + 1],
                free_clusters(images[0])[i],
                contents[i].len(),
            ) == contents[i],
{
    let all = free_clusters(images[0]);
    lemma_run_of_files(images, region, names, contents, results, count, count);
    let before = images[count];
    let after = images[count + 1];
    let content = contents[count];
    assert(write_outcome(before, after, region, names[count], content, false, results[count]));
    assert(free_clusters(before).len() == 0);
    assert(chunks_needed(content.len()) >= 1);
    assert(results[count] is Err);
    let error = results[count]->Err_0;
    assert forall|i: int|
        #![trigger contents[i]]
        0 <= i < count implies file_bytes(after, all[i], contents[i].len()) == contents[i] by {
        assert(cluster_chain(before, all[i]) is Some);
        lemma_failed_write_keeps_files(
            before,
            after,
            region,
            names[count],
            content,
            false,
            error,
            all[i],
            contents[i].len(),
        );
    }
}

/// Storing a file has one outcome: what `write_outcome` says of the image
/// after and of the result fixes both, the image byte for byte and the result
/// with its error.
pub proof fn lemma_write_outcome_is_one(
    before: Seq<u8>,
    one: Seq<u8>,
    other: Seq<u8>,
    region: EntryRegion,
    name: Seq<char>,
    content: Seq<u8>,
    is_subdir: bool,
    result: Result<(), FatError>,
    other_result: Result<(), FatError>,
)
    requires
        region_is_valid(before, region),
        before.len() <= usize::MAX,
        write_outcome(before, one, region, name, content, is_subdir, result),
        write_outcome(before, other, region, name, content, is_subdir, other_result),
    ensures
        one == other,
        result is Ok <==> other_result is Ok,
        result is Err ==> result->Err_0 == other_result->Err_0,
{
    lemma_free_clusters(before);
    let all = free_clusters(before);
    let record = file_record(before, name, content.len(), is_subdir);
    if all.len() < chunks_needed(content.len()) {
        assert forall|i: int| 0 <= i < all.len() implies is_data_cluster(
            before.len(),
            #[trigger] all[i] as int,
        ) by {
            assert(is_free_cluster(before, all[i] as int));
        }
        lemma_chain_written_is_one(before, one, other, all, content, true);
        assert(result == Err::<(), FatError>(FatError::DiskFull));
        assert(other_result == Err::<(), FatError>(FatError::DiskFull));
    } else {
        let chain = file_chain(before, content.len());
        assert forall|i: int| 0 <= i < chain.len() implies is_data_cluster(
            before.len(),
            #[trigger] chain[i] as int,
        ) by {
            assert(chain[i] == all[i]);
            assert(is_free_cluster(before, all[i] as int));
        }
        let stored_one = if result is Ok {
            choose|stored: Seq<u8>|
                {
                    &&& #[trigger] chain_written(before, stored, chain, content, true)
                    &&& can_append(stored, region)
                    &&& one == with_appended_entry(stored, region, record)
                }
        } else {
            one
        };
        let stored_other = if other_result is Ok {
            choose|stored: Seq<u8>|
                {
                    &&& #[trigger] chain_written(before, stored, chain, content, true)
                    &&& can_append(stored, region)
                    &&& other == with_appended_entry(stored, region, record)
                }
        } else {
            other
        };
        lemma_chain_written_is_one(before, stored_one, stored_other, chain, content, true);
        match (result, other_result) {
            (Ok(_), Ok(_)) => {},
            (Ok(_), Err(_)) => {
                assert(can_append(stored_one, region) && !can_append(other, region));
            },
            (Err(_), Ok(_)) => {
                assert(can_append(stored_other, region) && !can_append(one, region));
            },
            (Err(_), Err(_)) => {
                assert(result == Err::<(), FatError>(FatError::DirectoryFull));
                assert(other_result == Err::<(), FatError>(FatError::DirectoryFull));
            },
        }
    }
}

} // verus!
