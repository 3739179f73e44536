//! Storing a new file: finding free clusters, cutting the content into
//! clusters and linking them into a chain.

use vstd::prelude::*;
use crate::bios_parameter_block::{
    BYTES_PER_SECTOR, cluster_count, cluster_limit, get_cluster_from_entry, is_data_cluster,
    lemma_data_cluster_in_buffer, lemma_geometry,
};
use crate::buffer::{overwrite, with_bytes_at};
use crate::chain_store::{
    chain_written, lemma_allocated_next, lemma_allocation_failed, lemma_chain_closed,
    lemma_chain_extended, lemma_region_kept,
};
use crate::dir_entry::{attribute_byte, entry_record, name_bytes};
use crate::directories::{append_to_dir, can_append, with_appended_entry};
use crate::entry_region::{EntryRegion, region_clusters, region_is_valid};
use crate::error::FatError;
use crate::fat_section_util::{END_OF_CHAIN, FREE_CLUSTER, get_fat_entry, write_to_fat};
use crate::free_clusters::{free_clusters, is_free_cluster, lemma_free_clusters};
use crate::shell_state::ShellState;

verus! {

/// Chunk `index` of a file: the `index`-th run of one sector's worth of
/// bytes of `content`, with zeros behind the end of the content.
pub open spec fn file_chunk(content: Seq<u8>, index: int) -> Seq<u8> {
    Seq::new(
        BYTES_PER_SECTOR as nat,
        |at: int|
            if index * BYTES_PER_SECTOR + at < content.len() {
                content[index * BYTES_PER_SECTOR + at]
            } else {
                0u8
            },
    )
}

/// How many clusters a file of `len` bytes takes: one for each sector begun,
/// and one for an empty file.
pub open spec fn chunks_needed(len: nat) -> int {
    if len == 0 {
        1
    } else {
        (len + BYTES_PER_SECTOR - 1) / (BYTES_PER_SECTOR as int)
    }
}

/// The clusters that a new file of `len` bytes goes to: as many of the
/// first free clusters of the image as the file has chunks.
pub open spec fn file_chain(image: Seq<u8>, len: nat) -> Seq<usize> {
    free_clusters(image).take(chunks_needed(len))
}

/// The directory record of a new file: its name, its attributes, the first
/// cluster of the chain that it goes to and its length.
pub open spec fn file_record(before: Seq<u8>, name: Seq<char>, len: nat, is_subdir: bool) -> Seq<
    u8,
> {
    entry_record(
        name_bytes(name),
        attribute_byte(is_subdir),
        file_chain(before, len)[0] as int,
        len as int,
    )
}

/// Whether `after` is `before` with a new file stored: the image had free
/// clusters enough, the content stands in the first of them as a closed
/// chain, and after that the record of the file was added to the region.
pub open spec fn file_stored(
    before: Seq<u8>,
    after: Seq<u8>,
    region: EntryRegion,
    name: Seq<char>,
    content: Seq<u8>,
    is_subdir: bool,
) -> bool {
    &&& chunks_needed(content.len()) <= free_clusters(before).len()
    &&& exists|stored: Seq<u8>|
        {
            &&& #[trigger] chain_written(
                before,
                stored,
                file_chain(before, content.len()),
                content,
                true,
            )
            &&& can_append(stored, region)
            &&& after == with_appended_entry(
                stored,
                region,
                file_record(before, name, content.len(), is_subdir),
            )
        }
}

/// What storing a new file comes to, for each result.
///
/// On success the file is stored. With too few free clusters the result is
/// `DiskFull`, and the chunks that found a cluster stand in all the free
/// clusters there were, as a closed chain. With clusters enough and no slot
/// to be had the result is `DirectoryFull`, and the whole content stands in
/// its chain. No entry is written in either case.
pub open spec fn write_outcome(
    before: Seq<u8>,
    after: Seq<u8>,
    region: EntryRegion,
    name: Seq<char>,
    content: Seq<u8>,
    is_subdir: bool,
    result: Result<(), FatError>,
) -> bool {
    match result {
        Ok(_) => file_stored(before, after, region, name, content, is_subdir),
        Err(error) => {
            if free_clusters(before).len() < chunks_needed(content.len()) {
                &&& error == FatError::DiskFull
                &&& chain_written(before, after, free_clusters(before), content, true)
            } else {
                &&& error == FatError::DirectoryFull
                &&& chain_written(
                    before,
                    after,
                    file_chain(before, content.len()),
                    content,
                    true,
                )
                &&& !can_append(after, region)
            }
        },
    }
}

/// Finds the first free cluster other than `exclude`.
///
/// The search starts at cluster 2, for clusters 0 and 1 are reserved, and
/// covers the clusters that the table addresses and the image holds in full.
/// It fails with `DiskFull` where none of them is free, `exclude` apart.
pub fn get_next_free_cluster(bytes: &Vec<u8>, exclude: Option<usize>) -> (found: Result<
    usize,
    FatError,
>)
    ensures
        match found {
            Ok(cluster) => {
                &&& 2 <= cluster
                &&& is_free_cluster(bytes@, cluster as int)
                &&& exclude != Some(cluster)
                &&& forall|other: int|
                    other < cluster && #[trigger] is_free_cluster(bytes@, other) ==> exclude
                        == Some(other as usize)
            },
            Err(error) => {
                &&& error == FatError::DiskFull
                &&& forall|other: int| #[trigger]
                    is_free_cluster(bytes@, other) ==> exclude == Some(other as usize)
            },
        },
{
    let num_entries: usize = cluster_count(bytes.len());
    let mut entry_index: usize = 2;
    while entry_index < num_entries
        invariant
            2 <= entry_index,
            num_entries == cluster_limit(bytes.len() as nat),
            forall|other: int|
                other < entry_index && #[trigger] is_free_cluster(bytes@, other) ==> exclude
                    == Some(other as usize),
        decreases num_entries - entry_index,
    {
        proof {
            lemma_geometry();
        }
        let excluded: bool = match exclude {
            Some(cluster) => cluster == entry_index,
            None => false,
        };
        if get_fat_entry(bytes, entry_index) == FREE_CLUSTER && !excluded {
            return Ok(entry_index);
        }
        entry_index = entry_index + 1;
    }
    Err(FatError::DiskFull)
}

/// Cuts cluster `cluster_num` out of the content of a new file and pads it
/// with zeros to a whole cluster.
pub fn get_cluster_from_new_file(new_file: &Vec<u8>, cluster_num: usize) -> (cluster: Vec<u8>)
    ensures
        cluster@ == file_chunk(new_file@, cluster_num as int),
        cluster.len() == BYTES_PER_SECTOR,
{
    let mut cluster: Vec<u8> = Vec::new();
    let mut at: usize = 0;
    if cluster_num > new_file.len() / BYTES_PER_SECTOR {
        while at < BYTES_PER_SECTOR
            invariant
                at <= BYTES_PER_SECTOR,
                cluster.len() == at,
                forall|i: int| 0 <= i < at ==> cluster@[i] == 0u8,
            decreases BYTES_PER_SECTOR - at,
        {
            cluster.push(0u8);
            at = at + 1;
        }
    } else {
        let cluster_byte: usize = cluster_num * BYTES_PER_SECTOR;
        let left: usize = new_file.len() - cluster_byte;
        while at < BYTES_PER_SECTOR
            invariant
                at <= BYTES_PER_SECTOR,
                cluster.len() == at,
                cluster_byte == cluster_num * BYTES_PER_SECTOR,
                cluster_byte + left == new_file.len(),
                forall|i: int|
                    0 <= i < at ==> cluster@[i] == if i < left {
                        new_file@[cluster_byte + i]
                    } else {
                        0u8
                    },
            decreases BYTES_PER_SECTOR - at,
        {
            if at < left {
                cluster.push(new_file[cluster_byte + at]);
            } else {
                cluster.push(0u8);
            }
            at = at + 1;
        }
    }
    assert(cluster@ =~= file_chunk(new_file@, cluster_num as int));
    cluster
}

/// Writes one cluster of data into the image at byte `cluster_byte`, the
/// first byte of the cluster, and hands the image back.
///
/// The cluster has to lie in the image, and the data has to fill it exactly.
pub fn write_cluster(bytes: Vec<u8>, cluster_byte: usize, cluster_to_write: Vec<u8>) -> (image:
    Vec<u8>)
    requires
        cluster_byte + BYTES_PER_SECTOR <= bytes.len(),
        cluster_to_write.len() == BYTES_PER_SECTOR,
    ensures
        image@ == with_bytes_at(bytes@, cluster_byte as int, cluster_to_write@),
        image.len() == bytes.len(),
{
    overwrite(bytes, cluster_byte, &cluster_to_write)
}

/// Stores a new file: the content goes to the first free clusters of the
/// image, linked into a chain, and an entry for it goes to the first free
/// slot of the region.
///
/// The content is cut into chunks of one sector, the last one padded with
/// zeros; an empty content takes one cluster of zeros. Chunk `i` goes to the
/// `i`-th free cluster, counted from cluster 2 up, and the last cluster of
/// the chain gets the end-of-chain value. The entry names the first cluster
/// and the length of the content.
///
/// Where the image has too few free clusters the call fails with `DiskFull`:
/// the chunks that found a cluster stay written and linked, as a chain that
/// ends, and no entry is written. Where the chain was stored and the region
/// has no slot for the entry the call fails with `DirectoryFull`, and the
/// chain stays as well. The image has to hold the region.
pub fn write_file(
    bytes: Vec<u8>,
    region: EntryRegion,
    name: &str,
    content: &Vec<u8>,
    is_subdir: bool,
) -> (out: (Vec<u8>, Result<(), FatError>))
    requires
        region_is_valid(bytes@, region),
    ensures
        out.0.len() == bytes.len(),
        write_outcome(bytes@, out.0@, region, name@, content@, is_subdir, out.1),
{
    let ghost before = bytes@;
    let mut image = bytes;
    let newfile_sectors: usize = if content.len() == 0 {
        1
    } else {
        (content.len() - 1) / BYTES_PER_SECTOR + 1
    };
    let mut last_fat_entry: Option<usize> = None;
    let mut sectors_stored: usize = 0;
    let mut first_entry: usize = 0;
    let ghost mut chain: Seq<usize> = Seq::empty();
    proof {
        assert(chain =~= free_clusters(before).take(0));
    }
    while sectors_stored < newfile_sectors
        invariant
            before == bytes@,
            image.len() == before.len(),
            newfile_sectors == chunks_needed(content@.len()),
            sectors_stored <= newfile_sectors,
            chain.len() == sectors_stored,
            chain.len() <= free_clusters(before).len(),
            chain == free_clusters(before).take(chain.len() as int),
            chain_written(before, image@, chain, content@, false),
            last_fat_entry == if sectors_stored == 0 {
                None
            } else {
                Some(chain.last())
            },
            sectors_stored > 0 ==> first_entry == chain[0],
        decreases newfile_sectors - sectors_stored,
    {
        proof {
            lemma_geometry();
            lemma_free_clusters(before);
            assert forall|i: int| 0 <= i < chain.len() implies is_data_cluster(
                before.len(),
                #[trigger] chain[i] as int,
            ) by {
                assert(chain[i] == free_clusters(before)[i]);
                assert(is_free_cluster(before, free_clusters(before)[i] as int));
            }
            assert forall|i: int, j: int|
                0 <= i < chain.len() && 0 <= j < chain.len() && i != j implies chain[i]
                != chain[j] by {
                assert(chain[i] == free_clusters(before)[i]);
                assert(chain[j] == free_clusters(before)[j]);
            }
        }
        let found: Result<usize, FatError> = get_next_free_cluster(&image, last_fat_entry);
        match found {
            Err(_) => {
                proof {
                    lemma_allocation_failed(before, image@, chain, content@);
                }
                match last_fat_entry {
                    Some(last) => {
                        proof {
                            lemma_chain_closed(before, image@, chain, content@);
                            assert(is_data_cluster(before.len(), chain[chain.len() - 1] as int));
                        }
                        image = write_to_fat(image, END_OF_CHAIN, last);
                    },
                    None => {},
                }
                return (image, Err(FatError::DiskFull));
            },
            Ok(next_free_cluster) => {
                proof {
                    lemma_allocated_next(before, image@, chain, content@, next_free_cluster);
                    lemma_chain_extended(before, image@, chain, content@, next_free_cluster);
                    lemma_data_cluster_in_buffer(before.len(), next_free_cluster as int);
                    if sectors_stored > 0 {
                        assert(is_data_cluster(before.len(), chain[chain.len() - 1] as int));
                    }
                }
                let cluster_byte: usize = get_cluster_from_entry(next_free_cluster);
                let sector: Vec<u8> = get_cluster_from_new_file(content, sectors_stored);
                image = write_cluster(image, cluster_byte, sector);
                match last_fat_entry {
                    Some(last) => {
                        image = write_to_fat(image, next_free_cluster, last);
                    },
                    None => {
                        first_entry = next_free_cluster;
                    },
                }
                last_fat_entry = Some(next_free_cluster);
                sectors_stored = sectors_stored + 1;
                proof {
                    chain = chain.push(next_free_cluster);
                }
            },
        }
    }
    let last: usize = last_fat_entry.unwrap();
    proof {
        lemma_geometry();
        lemma_free_clusters(before);
        assert forall|i: int| 0 <= i < chain.len() implies is_free_cluster(
            before,
            #[trigger] chain[i] as int,
        ) by {
            assert(chain[i] == free_clusters(before)[i]);
        }
        assert forall|i: int, j: int|
            0 <= i < chain.len() && 0 <= j < chain.len() && i != j implies chain[i]
            != chain[j] by {
            assert(chain[i] == free_clusters(before)[i]);
            assert(chain[j] == free_clusters(before)[j]);
        }
        lemma_chain_closed(before, image@, chain, content@);
        assert(is_data_cluster(before.len(), chain[chain.len() - 1] as int));
    }
    image = write_to_fat(image, END_OF_CHAIN, last);
    let ghost stored = image@;
    proof {
        lemma_region_kept(before, stored, chain, content@, true, region);
    }
    let (image, appended) = append_to_dir(
        image,
        name.to_owned(),
        first_entry,
        is_subdir,
        region,
        content.len(),
    );
    proof {
        assert(chain == file_chain(before, content@.len()));
        assert(first_entry == file_chain(before, content@.len())[0]);
        assert(chain_written(before, stored, file_chain(before, content@.len()), content@, true));
    }
    (image, appended)
}

/// Stores a new file named `filename` with the content given in the current
/// directory of the session.
///
/// Where the image does not hold the current directory the call fails with
/// `CorruptImage` and the session stays as it was. Else the file is stored
/// as `write_file` stores it, with its results.
pub fn newfile(shell_state: ShellState, filename: String, content: Vec<u8>) -> (out: (
    ShellState,
    Result<(), FatError>,
))
    ensures
        shell_state.same_session(&out.0),
        out.0.bytes.len() == shell_state.bytes.len(),
        if region_is_valid(shell_state.bytes@, shell_state.spec_region()) {
            write_outcome(
                shell_state.bytes@,
                out.0.bytes@,
                shell_state.spec_region(),
                filename@,
                content@,
                false,
                out.1,
            )
        } else {
            out.1 == Err::<(), FatError>(FatError::CorruptImage) && out.0.bytes@
                == shell_state.bytes@
        },
{
    let mut state = shell_state;
    let region: EntryRegion = state.region();
    if region_clusters(&state.bytes, region).is_none() {
        return (state, Err(FatError::CorruptImage));
    }
    let bytes = state.bytes;
    let (image, stored) = write_file(bytes, region, filename.as_str(), &content, false);
    state.bytes = image;
    (state, stored)
}

} // verus!
