//! Directories: finding a free slot, growing a subdirectory, writing and
//! listing entries.

use vstd::prelude::*;
use crate::bios_parameter_block::{
    BYTES_PER_DIRECTORY_ENTRY, BYTES_PER_SECTOR, cluster_start, get_cluster_from_entry,
    lemma_data_cluster_in_buffer, lemma_geometry,
};
use crate::buffer::{overwrite, with_bytes_at};
use crate::cluster_chain::lemma_chain_is_linked;
use crate::dir_entry::{
    ATTR_SUBDIRECTORY, attribute_byte, build_record, DirectoryEntry, entry_record, name_bytes,
    NAME_LEN, parse_record, short_name, SLOT_DELETED, SLOT_NEVER_USED,
};
use crate::directory_changes::lemma_directory_grown;
use crate::entry_region::{
    count_slots, directory_is_full, EntryRegion, first_free_slot, is_first_free_slot,
    lemma_first_free_slot, lemma_slot_in_buffer, no_free_slot_below, region_chain,
    region_clusters, region_is_valid, slot_bytes, slot_count, slot_is_free, slot_offset,
    slot_start, used_slots, used_slots_below,
};
use crate::error::FatError;
use crate::fat_section_util::{END_OF_CHAIN, with_fat_entry, write_to_fat};
use crate::free_clusters::{
    free_clusters, is_free_cluster, lemma_first_free_cluster, lemma_free_clusters,
};
use crate::new_file::{
    file_chunk, get_cluster_from_new_file, get_next_free_cluster, write_cluster, write_file,
    write_outcome,
};
use crate::shell_state::ShellState;

verus! {

/// A cluster full of zeros.
pub open spec fn zero_cluster() -> Seq<u8> {
    Seq::new(BYTES_PER_SECTOR as nat, |i: int| 0u8)
}

/// The image with the zeroed cluster `added` linked behind cluster `last`,
/// the last cluster of a chain so far, as the new end of that chain.
pub open spec fn with_grown_chain(image: Seq<u8>, last: int, added: int) -> Seq<u8> {
    with_fat_entry(
        with_fat_entry(with_bytes_at(image, cluster_start(added), zero_cluster()), last, added),
        added,
        END_OF_CHAIN as int,
    )
}

/// Whether an entry can be added to the region: it has a free slot, or it is
/// a subdirectory and the image has a free cluster for it to grow by.
pub open spec fn can_append(image: Seq<u8>, region: EntryRegion) -> bool {
    !directory_is_full(image, region) || (region is Subdirectory && free_clusters(image).len() > 0)
}

/// The image made ready for a new entry: as it is where the region has a
/// free slot, else with the region grown by the first free cluster.
pub open spec fn with_free_slot(image: Seq<u8>, region: EntryRegion) -> Seq<u8> {
    if directory_is_full(image, region) {
        with_grown_chain(
            image,
            region_chain(image, region).last() as int,
            free_clusters(image)[0] as int,
        )
    } else {
        image
    }
}

/// The slot that a new entry goes to: the first free slot of the region,
/// or the first slot of the cluster that the region grows by.
pub open spec fn next_free_slot(image: Seq<u8>, region: EntryRegion) -> int {
    if directory_is_full(image, region) {
        slot_count(image, region)
    } else {
        first_free_slot(image, region)
    }
}

/// The image with `record` in the slot that a new entry goes to.
pub open spec fn with_appended_entry(image: Seq<u8>, region: EntryRegion, record: Seq<u8>) -> Seq<
    u8,
> {
    let ready = with_free_slot(image, region);
    with_bytes_at(ready, slot_start(ready, region, next_free_slot(image, region)), record)
}

/// Whether `entries` lists the region: one entry for every slot in use, in
/// the order of the slots, each saying what its slot holds.
pub open spec fn lists(entries: Seq<DirectoryEntry>, image: Seq<u8>, region: EntryRegion) -> bool {
    &&& entries.len() == used_slots(image, region).len()
    &&& forall|i: int|
        0 <= i < entries.len() ==> (#[trigger] entries[i]).describes(
            slot_bytes(image, region, used_slots(image, region)[i]),
        )
}

/// Whether slot `slot` of the region is in use and holds the name field of
/// `name`.
pub open spec fn slot_has_name(image: Seq<u8>, region: EntryRegion, slot: int, name: Seq<u8>) -> bool {
    &&& !slot_is_free(image, region, slot)
    &&& slot_bytes(image, region, slot).subrange(0, NAME_LEN as int) == short_name(name)
}

/// Whether `slot` is the first slot of the region that holds the name.
pub open spec fn is_first_slot_named(
    image: Seq<u8>,
    region: EntryRegion,
    slot: int,
    name: Seq<u8>,
) -> bool {
    &&& 0 <= slot < slot_count(image, region)
    &&& slot_has_name(image, region, slot, name)
    &&& forall|earlier: int|
        0 <= earlier < slot ==> !#[trigger] slot_has_name(image, region, earlier, name)
}

/// Whether no slot of the region holds the name.
pub open spec fn name_is_absent(image: Seq<u8>, region: EntryRegion, name: Seq<u8>) -> bool {
    forall|slot: int|
        0 <= slot < slot_count(image, region) ==> !#[trigger] slot_has_name(
            image,
            region,
            slot,
            name,
        )
}

/// The first slot of the region that holds the name, where there is one.
pub open spec fn named_slot(image: Seq<u8>, region: EntryRegion, name: Seq<u8>) -> int {
    choose|slot: int| is_first_slot_named(image, region, slot, name)
}

/// Copies the record in slot `slot` out of a region with these clusters.
fn read_slot(bytes: &Vec<u8>, clusters: &Vec<usize>, region: EntryRegion, slot: usize) -> (record:
    Vec<u8>)
    requires
        region_is_valid(bytes@, region),
        clusters@ == region_chain(bytes@, region),
        slot < slot_count(bytes@, region),
    ensures
        record@ == slot_bytes(bytes@, region, slot as int),
        record.len() == BYTES_PER_DIRECTORY_ENTRY,
{
    let entry_start: usize = slot_offset(bytes, clusters, region, slot);
    let mut record: Vec<u8> = Vec::new();
    let mut at: usize = 0;
    while at < BYTES_PER_DIRECTORY_ENTRY
        invariant
            at <= BYTES_PER_DIRECTORY_ENTRY,
            entry_start + BYTES_PER_DIRECTORY_ENTRY <= bytes.len(),
            record@ == bytes@.subrange(entry_start as int, entry_start + at),
        decreases BYTES_PER_DIRECTORY_ENTRY - at,
    {
        record.push(bytes[entry_start + at]);
        at = at + 1;
        assert(record@ =~= bytes@.subrange(entry_start as int, entry_start + at));
    }
    record
}

/// Copies the 32-byte record in slot `slot` of the region out of the image.
///
/// The image has to hold the region, and the region has to have such a slot.
pub fn read_directory_entry(bytes: &Vec<u8>, region: EntryRegion, slot: usize) -> (record: Vec<u8>)
    requires
        region_is_valid(bytes@, region),
        slot < slot_count(bytes@, region),
    ensures
        record@ == slot_bytes(bytes@, region, slot as int),
        record.len() == BYTES_PER_DIRECTORY_ENTRY,
{
    let clusters: Vec<usize> = region_clusters(bytes, region).unwrap();
    read_slot(bytes, &clusters, region, slot)
}

/// Looks for the first free slot of a region with these clusters.
fn scan_free_slot(bytes: &Vec<u8>, clusters: &Vec<usize>, region: EntryRegion) -> (found: Option<
    usize,
>)
    requires
        region_is_valid(bytes@, region),
        clusters@ == region_chain(bytes@, region),
    ensures
        match found {
            Some(slot) => is_first_free_slot(bytes@, region, slot as int),
            None => directory_is_full(bytes@, region),
        },
{
    proof {
        if region is Subdirectory {
            lemma_chain_is_linked(bytes@, region->first_cluster, 3072);
        }
        lemma_geometry();
    }
    let count: usize = count_slots(clusters, region);
    let mut slot: usize = 0;
    while slot < count
        invariant
            slot <= count,
            count == slot_count(bytes@, region),
            region_is_valid(bytes@, region),
            clusters@ == region_chain(bytes@, region),
            no_free_slot_below(bytes@, region, slot as int),
        decreases count - slot,
    {
        let at: usize = slot_offset(bytes, clusters, region, slot);
        let first: u8 = bytes[at];
        if first == SLOT_NEVER_USED || first == SLOT_DELETED {
            return Some(slot);
        }
        slot = slot + 1;
    }
    None
}

/// Finds the first free slot of the region: one that was never used, or one
/// whose entry was deleted.
///
/// A subdirectory without a free slot grows by one zeroed cluster, the first
/// free cluster of the image, and the first slot of that cluster is found.
/// The call fails with `DirectoryFull` where the root directory has no free
/// slot, or a subdirectory has none and the image has no free cluster; the
/// image is then as it was. The image has to hold the region.
pub fn get_first_free_directory_entry(bytes: Vec<u8>, region: EntryRegion) -> (out: (
    Vec<u8>,
    Result<usize, FatError>,
))
    requires
        region_is_valid(bytes@, region),
    ensures
        out.0.len() == bytes.len(),
        match out.1 {
            Ok(slot) => {
                &&& can_append(bytes@, region)
                &&& out.0@ == with_free_slot(bytes@, region)
                &&& slot == next_free_slot(bytes@, region)
                &&& region_is_valid(out.0@, region)
                &&& is_first_free_slot(out.0@, region, slot as int)
            },
            Err(error) => {
                &&& error == FatError::DirectoryFull
                &&& !can_append(bytes@, region)
                &&& out.0@ == bytes@
            },
        },
{
    let clusters: Vec<usize> = region_clusters(&bytes, region).unwrap();
    let found: Option<usize> = scan_free_slot(&bytes, &clusters, region);
    match found {
        Some(slot) => {
            proof {
                lemma_first_free_slot(bytes@, region, slot as int);
            }
            (bytes, Ok(slot))
        },
        None => {
            match region {
                EntryRegion::Root => (bytes, Err(FatError::DirectoryFull)),
                EntryRegion::Subdirectory { first_cluster } => {
                    match get_next_free_cluster(&bytes, None) {
                        Err(_) => {
                            proof {
                                lemma_free_clusters(bytes@);
                                if free_clusters(bytes@).len() > 0 {
                                    assert(is_free_cluster(bytes@, free_clusters(bytes@)[0] as int));
                                }
                            }
                            (bytes, Err(FatError::DirectoryFull))
                        },
                        Ok(added) => {
                            proof {
                                lemma_geometry();
                                lemma_first_free_cluster(bytes@, added as int);
                                lemma_directory_grown(bytes@, region, added as int);
                                lemma_chain_is_linked(bytes@, first_cluster, 3072);
                                lemma_data_cluster_in_buffer(bytes.len() as nat, added as int);
                                assert(file_chunk(Seq::<u8>::empty(), 0) =~= zero_cluster());
                            }
                            let last: usize = clusters[clusters.len() - 1];
                            let count: usize = count_slots(&clusters, region);
                            let zeros: Vec<u8> = get_cluster_from_new_file(&Vec::new(), 0);
                            let cluster_byte: usize = get_cluster_from_entry(added);
                            let zeroed = write_cluster(bytes, cluster_byte, zeros);
                            let linked = write_to_fat(zeroed, added, last);
                            let grown = write_to_fat(linked, END_OF_CHAIN, added);
                            (grown, Ok(count))
                        },
                    }
                },
            }
        },
    }
}

/// Writes a directory record into slot `slot` of the region and hands the
/// image back.
///
/// The record holds the first 11 bytes of `name`, padded with spaces, the
/// attributes, the low 16 bits of `first_cluster` and the low 32 bits of
/// `size`; its other bytes are zero. A longer name loses what does not fit.
/// The image has to hold the region, and the region has to have such a slot.
pub fn write_entry(
    bytes: Vec<u8>,
    region: EntryRegion,
    slot: usize,
    name: &str,
    attributes: u8,
    first_cluster: usize,
    size: usize,
) -> (image: Vec<u8>)
    requires
        region_is_valid(bytes@, region),
        slot < slot_count(bytes@, region),
    ensures
        image@ == with_bytes_at(
            bytes@,
            slot_start(bytes@, region, slot as int),
            entry_record(name_bytes(name@), attributes, first_cluster as int, size as int),
        ),
        image.len() == bytes.len(),
{
    let clusters: Vec<usize> = region_clusters(&bytes, region).unwrap();
    let entry_start: usize = slot_offset(&bytes, &clusters, region, slot);
    let entry_to_add: Vec<u8> = build_record(name.as_bytes(), attributes, first_cluster, size);
    overwrite(bytes, entry_start, &entry_to_add)
}

/// Adds an entry to the region, in its first free slot, and hands the image
/// back.
///
/// The entry gets the name `newfilename`, cut or padded to 11 bytes, the
/// subdirectory attribute where `is_subdir` is set, and the first cluster and
/// size given. A subdirectory without a free slot grows by one cluster first.
/// The call fails with `DirectoryFull`, and leaves the image as it was, where
/// no slot can be had. The image has to hold the region.
pub fn append_to_dir(
    bytes: Vec<u8>,
    newfilename: String,
    first_entry: usize,
    is_subdir: bool,
    region: EntryRegion,
    size: usize,
) -> (out: (Vec<u8>, Result<(), FatError>))
    requires
        region_is_valid(bytes@, region),
    ensures
        out.0.len() == bytes.len(),
        match out.1 {
            Ok(_) => {
                &&& can_append(bytes@, region)
                &&& out.0@ == with_appended_entry(
                    bytes@,
                    region,
                    entry_record(
                        name_bytes(newfilename@),
                        attribute_byte(is_subdir),
                        first_entry as int,
                        size as int,
                    ),
                )
            },
            Err(error) => {
                &&& error == FatError::DirectoryFull
                &&& !can_append(bytes@, region)
                &&& out.0@ == bytes@
            },
        },
{
    let (ready, found) = get_first_free_directory_entry(bytes, region);
    match found {
        Err(error) => (ready, Err(error)),
        Ok(dir_entry) => {
            let attributes: u8 = if is_subdir {
                ATTR_SUBDIRECTORY
            } else {
                0u8
            };
            let image = write_entry(
                ready,
                region,
                dir_entry,
                newfilename.as_str(),
                attributes,
                first_entry,
                size,
            );
            (image, Ok(()))
        },
    }
}

/// Lists the entries of the region: one for every slot in use, in the order
/// of the slots. The image has to hold the region.
pub fn enumerate(bytes: &Vec<u8>, region: EntryRegion) -> (entries: Vec<DirectoryEntry>)
    requires
        region_is_valid(bytes@, region),
    ensures
        lists(entries@, bytes@, region),
{
    proof {
        if region is Subdirectory {
            lemma_chain_is_linked(bytes@, region->first_cluster, 3072);
        }
        lemma_geometry();
    }
    let clusters: Vec<usize> = region_clusters(bytes, region).unwrap();
    let count: usize = count_slots(&clusters, region);
    let mut entries: Vec<DirectoryEntry> = Vec::new();
    let mut slot: usize = 0;
    while slot < count
        invariant
            slot <= count,
            count == slot_count(bytes@, region),
            region_is_valid(bytes@, region),
            clusters@ == region_chain(bytes@, region),
            entries.len() == used_slots_below(bytes@, region, slot as int).len(),
            forall|i: int|
                0 <= i < entries.len() ==> (#[trigger] entries[i]).describes(
                    slot_bytes(bytes@, region, used_slots_below(bytes@, region, slot as int)[i]),
                ),
        decreases count - slot,
    {
        let record: Vec<u8> = read_slot(bytes, &clusters, region, slot);
        proof {
            lemma_slot_in_buffer(bytes@, region, slot as int);
            assert(record@[0] == bytes@[slot_start(bytes@, region, slot as int)]);
        }
        if !(record[0] == SLOT_NEVER_USED || record[0] == SLOT_DELETED) {
            let entry: DirectoryEntry = parse_record(&record);
            entries.push(entry);
        }
        slot = slot + 1;
    }
    entries
}

/// Whether the name field of a record is that of `name`.
fn record_has_name(record: &Vec<u8>, name: &[u8]) -> (same: bool)
    requires
        record.len() == BYTES_PER_DIRECTORY_ENTRY,
    ensures
        same == (record@.subrange(0, NAME_LEN as int) == short_name(name@)),
{
    let mut at: usize = 0;
    while at < NAME_LEN
        invariant
            at <= NAME_LEN,
            record.len() == BYTES_PER_DIRECTORY_ENTRY,
            forall|i: int| 0 <= i < at ==> record@[i] == short_name(name@)[i],
        decreases NAME_LEN - at,
    {
        let wanted: u8 = if at < name.len() {
            name[at]
        } else {
            0x20u8
        };
        if record[at] != wanted {
            assert(record@.subrange(0, NAME_LEN as int)[at as int] != short_name(name@)[at as int]);
            return false;
        }
        at = at + 1;
    }
    assert(record@.subrange(0, NAME_LEN as int) =~= short_name(name@));
    true
}

/// Looks the name up in the region: the first slot in use whose name field
/// is that of `name`, with its entry, or `NotFound` where there is none. The
/// image has to hold the region.
pub fn find_entry(bytes: &Vec<u8>, region: EntryRegion, name: &str) -> (found: Result<
    (usize, DirectoryEntry),
    FatError,
>)
    requires
        region_is_valid(bytes@, region),
    ensures
        match found {
            Ok((slot, entry)) => {
                &&& is_first_slot_named(bytes@, region, slot as int, name_bytes(name@))
                &&& entry.describes(slot_bytes(bytes@, region, slot as int))
            },
            Err(error) => {
                &&& error == FatError::NotFound
                &&& name_is_absent(bytes@, region, name_bytes(name@))
            },
        },
{
    proof {
        if region is Subdirectory {
            lemma_chain_is_linked(bytes@, region->first_cluster, 3072);
        }
        lemma_geometry();
    }
    let clusters: Vec<usize> = region_clusters(bytes, region).unwrap();
    let count: usize = count_slots(&clusters, region);
    let wanted: &[u8] = name.as_bytes();
    let mut slot: usize = 0;
    while slot < count
        invariant
            slot <= count,
            count == slot_count(bytes@, region),
            region_is_valid(bytes@, region),
            clusters@ == region_chain(bytes@, region),
            wanted@ == name_bytes(name@),
            forall|earlier: int|
                0 <= earlier < slot ==> !#[trigger] slot_has_name(
                    bytes@,
                    region,
                    earlier,
                    name_bytes(name@),
                ),
        decreases count - slot,
    {
        let record: Vec<u8> = read_slot(bytes, &clusters, region, slot);
        proof {
            lemma_slot_in_buffer(bytes@, region, slot as int);
            assert(record@[0] == bytes@[slot_start(bytes@, region, slot as int)]);
        }
        if !(record[0] == SLOT_NEVER_USED || record[0] == SLOT_DELETED) && record_has_name(
            &record,
            wanted,
        ) {
            let entry: DirectoryEntry = parse_record(&record);
            return Ok((slot, entry));
        }
        slot = slot + 1;
    }
    Err(FatError::NotFound)
}

/// Makes a subdirectory named `dirname` in the current directory of the
/// session: an entry with the subdirectory attribute, and one cluster of
/// zeros for the entries to come.
///
/// Where the image does not hold the current directory the call fails with
/// `CorruptImage` and the session stays as it was. Else the directory is
/// stored as `write_file` stores an empty file, with its results.
pub fn make_directory(shell_state: ShellState, dirname: String) -> (out: (
    ShellState,
    Result<(), FatError>,
))
    ensures
        shell_state.same_session(&out.0),
        out.0.bytes.len() == shell_state.bytes.len(),
        if region_is_valid(shell_state.bytes@, shell_state.spec_region()) {
            write_outcome(
                shell_state.bytes@,
                out.0.bytes@,
                shell_state.spec_region(),
                dirname@,
                Seq::<u8>::empty(),
                true,
                out.1,
            )
        } else {
            out.1 == Err::<(), FatError>(FatError::CorruptImage) && out.0.bytes@
                == shell_state.bytes@
        },
{
    let mut state = shell_state;
    let region: EntryRegion = state.region();
    if region_clusters(&state.bytes, region).is_none() {
        return (state, Err(FatError::CorruptImage));
    }
    let bytes = state.bytes;
    let nothing: Vec<u8> = Vec::new();
    let (image, stored) = write_file(bytes, region, dirname.as_str(), &nothing, true);
    state.bytes = image;
    (state, stored)
}

/// Lists the entries of the current directory of the session, in the order
/// of their slots, or fails with `CorruptImage` where the image does not
/// hold that directory. The session stays as it was.
pub fn list_directory(shell_state: ShellState) -> (out: (
    ShellState,
    Result<Vec<DirectoryEntry>, FatError>,
))
    ensures
        out.0 == shell_state,
        match out.1 {
            Ok(entries) => {
                &&& region_is_valid(shell_state.bytes@, shell_state.spec_region())
                &&& lists(entries@, shell_state.bytes@, shell_state.spec_region())
            },
            Err(error) => {
                &&& error == FatError::CorruptImage
                &&& !region_is_valid(shell_state.bytes@, shell_state.spec_region())
            },
        },
{
    let region: EntryRegion = shell_state.region();
    if region_clusters(&shell_state.bytes, region).is_none() {
        return (shell_state, Err(FatError::CorruptImage));
    }
    let entries: Vec<DirectoryEntry> = enumerate(&shell_state.bytes, region);
    (shell_state, Ok(entries))
}

} // verus!
