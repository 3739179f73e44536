//! Reading a file back from its cluster chain.

use vstd::prelude::*;
use crate::bios_parameter_block::{
    BYTES_PER_SECTOR, get_cluster_from_entry, is_data_cluster, lemma_data_cluster_in_buffer,
    lemma_geometry,
};
use crate::cluster_chain::{
    chain_data, chain_from, cluster_bytes, cluster_chain, file_bytes, follow_chain,
};
use crate::dir_entry::{DirectoryEntry, name_bytes, record_first_cluster, record_size};
use crate::directories::{find_entry, name_is_absent, named_slot};
use crate::directory_changes::lemma_named_slot;
use crate::entry_region::{EntryRegion, region_clusters, region_is_valid, slot_bytes};
use crate::error::FatError;
use crate::fat_section_util::{get_fat_entry, marks_end_of_chain};
use crate::shell_state::ShellState;

verus! {

/// Copies the bytes of cluster `fat_entry` out of the image.
///
/// The cluster has to be a data cluster of the image.
pub fn get_cluster(bytes: &Vec<u8>, fat_entry: usize) -> (cluster: Vec<u8>)
    requires
        is_data_cluster(bytes.len() as nat, fat_entry as int),
    ensures
        cluster@ == cluster_bytes(bytes@, fat_entry as int),
        cluster.len() == BYTES_PER_SECTOR,
{
    proof {
        lemma_geometry();
        lemma_data_cluster_in_buffer(bytes.len() as nat, fat_entry as int);
    }
    let cluster_byte: usize = get_cluster_from_entry(fat_entry);
    let mut cluster: Vec<u8> = Vec::new();
    let mut at: usize = 0;
    while at < BYTES_PER_SECTOR
        invariant
            at <= BYTES_PER_SECTOR,
            cluster_byte + BYTES_PER_SECTOR <= bytes.len(),
            cluster@ == bytes@.subrange(cluster_byte as int, cluster_byte + at),
        decreases BYTES_PER_SECTOR - at,
    {
        cluster.push(bytes[cluster_byte + at]);
        at = at + 1;
        assert(cluster@ =~= bytes@.subrange(cluster_byte as int, cluster_byte + at));
    }
    cluster
}

/// Reads the file whose chain starts at `first_cluster`: the data of the
/// clusters of the chain, one after the other, cut down to `declared_size`
/// bytes.
///
/// Where `first_cluster` is itself an end-of-chain value the file is empty.
/// The table has to hold a chain at `first_cluster` that ends.
pub fn read_file(bytes: &Vec<u8>, first_cluster: usize, declared_size: usize) -> (file: Vec<u8>)
    requires
        cluster_chain(bytes@, first_cluster) is Some,
    ensures
        file@ == file_bytes(bytes@, first_cluster, declared_size as nat),
{
    let mut current_fat_entry: usize = first_cluster;
    let mut file: Vec<u8> = Vec::new();
    let ghost mut visited: Seq<usize> = Seq::empty();
    let ghost mut fuel: nat = 3072;
    proof {
        lemma_geometry();
        assert(visited + chain_from(bytes@, current_fat_entry, fuel).unwrap() =~= cluster_chain(
            bytes@,
            first_cluster,
        ).unwrap());
        assert(file@ =~= chain_data(bytes@, visited));
    }
    while !marks_end_of_chain(current_fat_entry)
        invariant
            chain_from(bytes@, current_fat_entry, fuel) is Some,
            cluster_chain(bytes@, first_cluster) == Some(
                visited + chain_from(bytes@, current_fat_entry, fuel).unwrap(),
            ),
            file@ == chain_data(bytes@, visited),
            file@.len() == visited.len() * 512,
        decreases fuel,
    {
        proof {
            lemma_geometry();
            lemma_data_cluster_in_buffer(bytes.len() as nat, current_fat_entry as int);
        }
        let ghost before = file@;
        let mut cluster: Vec<u8> = get_cluster(bytes, current_fat_entry);
        file.append(&mut cluster);
        let next: usize = get_fat_entry(bytes, current_fat_entry);
        proof {
            let rest = chain_from(bytes@, next, (fuel - 1) as nat).unwrap();
            assert(visited + (seq![current_fat_entry] + rest) =~= visited.push(current_fat_entry)
                + rest);
            let longer = visited.push(current_fat_entry);
            assert forall|at: int| 0 <= at < file@.len() implies file@[at] == chain_data(
                bytes@,
                longer,
            )[at] by {
                if at < before.len() {
                    assert(longer[at / 512] == visited[at / 512]);
                    assert(file@[at] == before[at]);
                } else {
                    assert(at / 512 == visited.len());
                    assert(at % 512 == at - before.len());
                    assert(longer[at / 512] == current_fat_entry);
                }
            }
            assert(file@ =~= chain_data(bytes@, longer));
            visited = longer;
            fuel = (fuel - 1) as nat;
        }
        current_fat_entry = next;
    }
    proof {
        assert(visited + Seq::<usize>::empty() =~= visited);
    }
    file.truncate(declared_size);
    file
}

/// The first cluster that the entry of the name gives, where the region
/// holds the name.
pub open spec fn named_first_cluster(image: Seq<u8>, region: EntryRegion, name: Seq<char>) -> usize {
    record_first_cluster(
        slot_bytes(image, region, named_slot(image, region, name_bytes(name))),
    ) as usize
}

/// The size that the entry of the name gives, where the region holds the
/// name.
pub open spec fn named_size(image: Seq<u8>, region: EntryRegion, name: Seq<char>) -> nat {
    record_size(slot_bytes(image, region, named_slot(image, region, name_bytes(name)))) as nat
}

/// What reading a file by its name comes to, for each result.
///
/// Where the image does not hold the region the result is `CorruptImage`.
/// Where the region does not hold the name it is `NotFound`. Where the table
/// holds no chain that ends at the first cluster of the entry it is
/// `CorruptImage` again. Else the result is the data of that chain, cut to
/// the size that the entry gives.
pub open spec fn read_outcome(
    image: Seq<u8>,
    region: EntryRegion,
    name: Seq<char>,
    result: Result<Vec<u8>, FatError>,
) -> bool {
    if !region_is_valid(image, region) {
        result == Err::<Vec<u8>, FatError>(FatError::CorruptImage)
    } else if name_is_absent(image, region, name_bytes(name)) {
        result == Err::<Vec<u8>, FatError>(FatError::NotFound)
    } else if cluster_chain(image, named_first_cluster(image, region, name)) is None {
        result == Err::<Vec<u8>, FatError>(FatError::CorruptImage)
    } else {
        result is Ok && result->Ok_0@ == file_bytes(
            image,
            named_first_cluster(image, region, name),
            named_size(image, region, name),
        )
    }
}

/// Reads the file named `filename` in the current directory of the session,
/// for the caller to save: the first entry of that name is taken. The
/// session stays as it was.
pub fn save_file_to_os(shell_state: ShellState, filename: String) -> (out: (
    ShellState,
    Result<Vec<u8>, FatError>,
))
    ensures
        out.0 == shell_state,
        read_outcome(shell_state.bytes@, shell_state.spec_region(), filename@, out.1),
{
    let region: EntryRegion = shell_state.region();
    if region_clusters(&shell_state.bytes, region).is_none() {
        return (shell_state, Err(FatError::CorruptImage));
    }
    let found: Result<(usize, DirectoryEntry), FatError> = find_entry(
        &shell_state.bytes,
        region,
        filename.as_str(),
    );
    match found {
        Err(error) => (shell_state, Err(error)),
        Ok((slot, entry)) => {
            proof {
                lemma_named_slot(shell_state.bytes@, region, slot as int, name_bytes(filename@));
            }
            let first_cluster: usize = entry.first_cluster as usize;
            let size: usize = entry.size as usize;
            if follow_chain(&shell_state.bytes, first_cluster).is_none() {
                return (shell_state, Err(FatError::CorruptImage));
            }
            let file: Vec<u8> = read_file(&shell_state.bytes, first_cluster, size);
            (shell_state, Ok(file))
        },
    }
}

} // verus!
