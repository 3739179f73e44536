//! Cluster chains: the linked lists through the file allocation table that
//! hold the data of a file or of a subdirectory.
//!
//! A chain starts at a cluster, and the table entry of each of its clusters
//! names the next one, until an entry is an end-of-chain value. A chain never
//! has more clusters than the table has entries.

use vstd::prelude::*;
use crate::bios_parameter_block::{
    BITS_PER_FAT_ENTRY, BYTES_PER_SECTOR, cluster_count, cluster_limit, cluster_start,
    fat_entry_count, holds_volume, is_data_cluster, lemma_data_cluster_in_buffer, lemma_geometry,
    NUMBER_FATS, root_region_start, SECTORS_PER_FAT,
};
use crate::buffer::with_bytes_at;
use crate::fat_section_util::{
    entry_byte, fat_copy_entry, fat_copy_start, fat_entry, get_fat_entry, is_end_of_chain,
    lemma_entry_bytes_in_copy, lemma_entry_is_12_bits, lemma_write_keeps_other_regions,
    marks_end_of_chain, with_fat_entry,
};

verus! {

/// The bytes of cluster `cluster`.
pub open spec fn cluster_bytes(image: Seq<u8>, cluster: int) -> Seq<u8> {
    image.subrange(cluster_start(cluster), cluster_start(cluster) + BYTES_PER_SECTOR)
}

/// `rest` behind `prefix`, where there is a rest.
pub open spec fn prepend(prefix: Seq<usize>, rest: Option<Seq<usize>>) -> Option<Seq<usize>> {
    match rest {
        Some(rest) => Some(prefix + rest),
        None => None,
    }
}

/// The clusters from `cluster` to the end of its chain, followed for at most
/// `fuel` clusters: `None` where the chain leaves the data clusters of the
/// image or is longer than that. An end-of-chain value itself starts the
/// empty chain.
pub open spec fn chain_from(image: Seq<u8>, cluster: usize, fuel: nat) -> Option<Seq<usize>>
    decreases fuel,
{
    if is_end_of_chain(cluster as int) {
        Some(Seq::empty())
    } else if fuel == 0 || !is_data_cluster(image.len(), cluster as int) {
        None
    } else {
        prepend(
            seq![cluster],
            chain_from(image, fat_entry(image, cluster as int) as usize, (fuel - 1) as nat),
        )
    }
}

/// The chain that starts at `first`, or `None` where the table holds no
/// chain there that ends.
pub open spec fn cluster_chain(image: Seq<u8>, first: usize) -> Option<Seq<usize>> {
    chain_from(image, first, fat_entry_count() as nat)
}

/// The bytes of the clusters of `chain`, one cluster after the other.
pub open spec fn chain_data(image: Seq<u8>, chain: Seq<usize>) -> Seq<u8> {
    Seq::new(
        chain.len() * BYTES_PER_SECTOR as nat,
        |at: int|
            image[cluster_start(chain[at / (BYTES_PER_SECTOR as int)] as int) + at % (
            BYTES_PER_SECTOR as int)],
    )
}

/// The first `size` bytes of the data of the chain that starts at `first`,
/// or all of it where it has fewer.
pub open spec fn file_bytes(image: Seq<u8>, first: usize, size: nat) -> Seq<u8>
    recommends
        cluster_chain(image, first) is Some,
{
    let data = chain_data(image, cluster_chain(image, first).unwrap());
    if size <= data.len() {
        data.subrange(0, size as int)
    } else {
        data
    }
}

/// Whether the table of `image` links the clusters of `chain` in this order
/// and ends the chain behind the last of them.
pub open spec fn is_linked(image: Seq<u8>, chain: Seq<usize>) -> bool {
    &&& forall|i: int|
        0 <= i < chain.len() ==> is_data_cluster(image.len(), #[trigger] chain[i] as int)
    &&& forall|i: int|
        0 <= i < chain.len() - 1 ==> fat_entry(image, #[trigger] chain[i] as int) == chain[i + 1]
    &&& chain.len() > 0 ==> is_end_of_chain(fat_entry(image, chain.last() as int))
}

/// What a chain that `chain_from` found is made of: data clusters, each
/// linked to the next, none of them free.
pub proof fn lemma_chain_is_linked(image: Seq<u8>, first: usize, fuel: nat)
    requires
        chain_from(image, first, fuel) is Some,
    ensures
        chain_from(image, first, fuel).unwrap().len() <= fuel,
        is_linked(image, chain_from(image, first, fuel).unwrap()),
        !is_end_of_chain(first as int) ==> chain_from(image, first, fuel).unwrap().len() > 0
            && chain_from(image, first, fuel).unwrap()[0] == first,
        is_end_of_chain(first as int) ==> chain_from(image, first, fuel).unwrap().len() == 0,
        forall|i: int|
            0 <= i < chain_from(image, first, fuel).unwrap().len() ==> fat_entry(
                image,
                #[trigger] chain_from(image, first, fuel).unwrap()[i] as int,
            ) != 0,
    decreases fuel,
{
    if !is_end_of_chain(first as int) {
        lemma_entry_is_12_bits(image, 0, first as int);
        let next = fat_entry(image, first as int) as usize;
        lemma_chain_is_linked(image, next, (fuel - 1) as nat);
        let rest = chain_from(image, next, (fuel - 1) as nat).unwrap();
        let chain = chain_from(image, first, fuel).unwrap();
        assert(chain =~= seq![first] + rest);
        lemma_geometry();
        assert forall|i: int| 0 <= i < chain.len() implies is_data_cluster(
            image.len(),
            #[trigger] chain[i] as int,
        ) by {
            if i > 0 {
                assert(chain[i] == rest[i - 1]);
            }
        }
        assert forall|i: int| 0 <= i < chain.len() - 1 implies fat_entry(
            image,
            #[trigger] chain[i] as int,
        ) == chain[i + 1] by {
            if i > 0 {
                assert(chain[i] == rest[i - 1]);
                assert(chain[i + 1] == rest[i]);
            } else {
                assert(chain[1] == rest[0]);
            }
        }
        assert forall|i: int| 0 <= i < chain.len() implies fat_entry(
            image,
            #[trigger] chain[i] as int,
        ) != 0 by {
            if i > 0 {
                assert(chain[i] == rest[i - 1]);
            } else if rest.len() > 0 {
                assert(rest[0] == next);
                assert(is_data_cluster(image.len(), rest[0] as int));
            }
        }
        if rest.len() > 0 {
            assert(chain.last() == rest.last());
        }
    }
}

/// Clusters that the table links into a chain that ends are the chain that
/// `chain_from` finds at the first of them, given fuel for each.
pub proof fn lemma_linked_is_chain(image: Seq<u8>, chain: Seq<usize>, fuel: nat)
    requires
        is_linked(image, chain),
        0 < chain.len() <= fuel,
    ensures
        chain_from(image, chain[0], fuel) == Some(chain),
    decreases chain.len(),
{
    lemma_geometry();
    let first = chain[0];
    assert(is_data_cluster(image.len(), first as int));
    lemma_entry_is_12_bits(image, 0, first as int);
    let next = fat_entry(image, first as int) as usize;
    let rest = chain.subrange(1, chain.len() as int);
    if chain.len() == 1 {
        assert(chain.last() == first);
        assert(chain_from(image, next, (fuel - 1) as nat) == Some(Seq::<usize>::empty()));
        assert(chain =~= seq![first] + Seq::<usize>::empty());
    } else {
        assert(next == chain[1]);
        assert forall|i: int| 0 <= i < rest.len() implies is_data_cluster(
            image.len(),
            #[trigger] rest[i] as int,
        ) by {
            assert(rest[i] == chain[i + 1]);
        }
        assert forall|i: int| 0 <= i < rest.len() - 1 implies fat_entry(
            image,
            #[trigger] rest[i] as int,
        ) == rest[i + 1] by {
            assert(rest[i] == chain[i + 1]);
            assert(rest[i + 1] == chain[i + 2]);
        }
        assert(rest.last() == chain.last());
        lemma_linked_is_chain(image, rest, (fuel - 1) as nat);
        assert(rest[0] == next);
        assert(chain =~= seq![first] + rest);
    }
}

/// A chain depends on nothing but the length of the image and the table
/// entries of its own clusters.
pub proof fn lemma_chain_kept(before: Seq<u8>, after: Seq<u8>, first: usize, fuel: nat)
    requires
        chain_from(before, first, fuel) is Some,
        after.len() == before.len(),
        forall|i: int|
            0 <= i < chain_from(before, first, fuel).unwrap().len() ==> fat_entry(
                after,
                #[trigger] chain_from(before, first, fuel).unwrap()[i] as int,
            ) == fat_entry(before, chain_from(before, first, fuel).unwrap()[i] as int),
    ensures
        chain_from(after, first, fuel) == chain_from(before, first, fuel),
    decreases fuel,
{
    if !is_end_of_chain(first as int) {
        lemma_entry_is_12_bits(before, 0, first as int);
        let chain = chain_from(before, first, fuel).unwrap();
        let next = fat_entry(before, first as int) as usize;
        let rest = chain_from(before, next, (fuel - 1) as nat).unwrap();
        assert(chain =~= seq![first] + rest);
        assert(chain[0] == first);
        assert(fat_entry(after, first as int) == fat_entry(before, first as int));
        assert forall|i: int| 0 <= i < rest.len() implies fat_entry(
            after,
            #[trigger] rest[i] as int,
        ) == fat_entry(before, rest[i] as int) by {
            assert(chain[i + 1] == rest[i]);
        }
        lemma_chain_kept(before, after, next, (fuel - 1) as nat);
    }
}

/// Two images of one length whose tables hold the same entries hold the
/// same chains.
pub proof fn lemma_same_table_same_chain(before: Seq<u8>, after: Seq<u8>, first: usize, fuel: nat)
    requires
        after.len() == before.len(),
        forall|index: int|
            0 <= index < fat_entry_count() ==> #[trigger] fat_copy_entry(after, 0, index)
                == fat_copy_entry(before, 0, index),
    ensures
        chain_from(after, first, fuel) == chain_from(before, first, fuel),
    decreases fuel,
{
    if !is_end_of_chain(first as int) && fuel > 0 && is_data_cluster(before.len(), first as int) {
        lemma_geometry();
        lemma_entry_is_12_bits(before, 0, first as int);
        assert(fat_copy_entry(after, 0, first as int) == fat_copy_entry(before, 0, first as int));
        let next = fat_entry(before, first as int) as usize;
        lemma_same_table_same_chain(before, after, next, (fuel - 1) as nat);
    }
}

/// The data of a chain depends on nothing but the bytes of its clusters.
pub proof fn lemma_chain_data_kept(before: Seq<u8>, after: Seq<u8>, chain: Seq<usize>)
    requires
        forall|i: int|
            0 <= i < chain.len() ==> cluster_bytes(after, #[trigger] chain[i] as int)
                == cluster_bytes(before, chain[i] as int),
        forall|i: int|
            0 <= i < chain.len() ==> is_data_cluster(before.len(), #[trigger] chain[i] as int),
        after.len() == before.len(),
    ensures
        chain_data(after, chain) == chain_data(before, chain),
{
    lemma_geometry();
    assert forall|at: int| 0 <= at < chain.len() * 512 implies chain_data(after, chain)[at]
        == chain_data(before, chain)[at] by {
        let cluster = chain[at / 512] as int;
        assert(is_data_cluster(before.len(), chain[at / 512] as int));
        assert(cluster_bytes(after, cluster)[at % 512] == cluster_bytes(before, cluster)[at % 512]);
    }
    assert(chain_data(after, chain) =~= chain_data(before, chain));
}

/// Writing bytes behind the file allocation table leaves every entry of the
/// table as it was.
pub proof fn lemma_bytes_keep_table(image: Seq<u8>, at: int, data: Seq<u8>)
    requires
        root_region_start() <= at,
        at + data.len() <= image.len(),
    ensures
        with_bytes_at(image, at, data).len() == image.len(),
        forall|copy: int, index: int|
            0 <= copy < NUMBER_FATS && 0 <= index < fat_entry_count() ==> #[trigger] fat_copy_entry(
                with_bytes_at(image, at, data),
                copy,
                index,
            ) == fat_copy_entry(image, copy, index),
{
    let after = with_bytes_at(image, at, data);
    assert forall|copy: int, index: int|
        0 <= copy < NUMBER_FATS && 0 <= index < fat_entry_count() implies #[trigger] fat_copy_entry(
        after,
        copy,
        index,
    ) == fat_copy_entry(image, copy, index) by {
        reveal(fat_copy_entry);
        lemma_entry_bytes_in_copy(copy, index);
        let there = fat_copy_start(copy) + entry_byte(index);
        assert(after[there] == image[there]);
        assert(after[there + 1] == image[there + 1]);
    }
}

/// Writing one cluster's worth of bytes to a data cluster puts them there
/// and leaves every other cluster as it was.
pub proof fn lemma_cluster_written(image: Seq<u8>, cluster: int, data: Seq<u8>)
    requires
        is_data_cluster(image.len(), cluster),
        data.len() == BYTES_PER_SECTOR,
    ensures
        cluster_bytes(with_bytes_at(image, cluster_start(cluster), data), cluster) == data,
        forall|other: int|
            is_data_cluster(image.len(), other) && other != cluster ==> #[trigger] cluster_bytes(
                with_bytes_at(image, cluster_start(cluster), data),
                other,
            ) == cluster_bytes(image, other),
{
    lemma_geometry();
    lemma_data_cluster_in_buffer(image.len(), cluster);
    let after = with_bytes_at(image, cluster_start(cluster), data);
    assert(cluster_bytes(after, cluster) =~= data);
    assert forall|other: int|
        is_data_cluster(image.len(), other) && other != cluster implies #[trigger] cluster_bytes(
        after,
        other,
    ) == cluster_bytes(image, other) by {
        lemma_data_cluster_in_buffer(image.len(), other);
        assert(cluster_bytes(after, other) =~= cluster_bytes(image, other));
    }
}

/// Writing an entry of the table leaves every cluster as it was.
pub proof fn lemma_entry_keeps_clusters(image: Seq<u8>, index: int, value: int)
    requires
        holds_volume(image.len()),
        0 <= index < fat_entry_count(),
    ensures
        forall|cluster: int|
            is_data_cluster(image.len(), cluster) ==> #[trigger] cluster_bytes(
                with_fat_entry(image, index, value),
                cluster,
            ) == cluster_bytes(image, cluster),
{
    lemma_geometry();
    lemma_write_keeps_other_regions(image, index, value);
    let after = with_fat_entry(image, index, value);
    assert forall|cluster: int| is_data_cluster(image.len(), cluster) implies #[trigger] cluster_bytes(
        after,
        cluster,
    ) == cluster_bytes(image, cluster) by {
        lemma_data_cluster_in_buffer(image.len(), cluster);
        assert(cluster_bytes(after, cluster) =~= cluster_bytes(image, cluster));
    }
}

/// Each cluster of a chain starts the rest of the chain.
pub proof fn lemma_chain_suffix(image: Seq<u8>, first: usize, fuel: nat, at: int)
    requires
        chain_from(image, first, fuel) is Some,
        0 <= at < chain_from(image, first, fuel).unwrap().len(),
    ensures
        at <= fuel,
        chain_from(image, chain_from(image, first, fuel).unwrap()[at], (fuel - at) as nat) == Some(
            chain_from(image, first, fuel).unwrap().skip(at),
        ),
    decreases at,
{
    let chain = chain_from(image, first, fuel).unwrap();
    lemma_chain_is_linked(image, first, fuel);
    if at == 0 {
        assert(chain.skip(0) =~= chain);
    } else {
        lemma_entry_is_12_bits(image, 0, first as int);
        let next = fat_entry(image, first as int) as usize;
        let rest = chain_from(image, next, (fuel - 1) as nat).unwrap();
        assert(chain =~= seq![first] + rest);
        lemma_chain_suffix(image, next, (fuel - 1) as nat, at - 1);
        assert(rest[at - 1] == chain[at]);
        assert(rest.skip(at - 1) =~= chain.skip(at));
    }
}

/// The chain that starts at a cluster does not depend on the fuel, as long
/// as the fuel suffices.
pub proof fn lemma_chain_fuel(image: Seq<u8>, first: usize, fuel: nat, other: nat)
    requires
        chain_from(image, first, fuel) is Some,
        chain_from(image, first, other) is Some,
    ensures
        chain_from(image, first, fuel) == chain_from(image, first, other),
    decreases fuel,
{
    if !is_end_of_chain(first as int) {
        lemma_entry_is_12_bits(image, 0, first as int);
        let next = fat_entry(image, first as int) as usize;
        lemma_chain_fuel(image, next, (fuel - 1) as nat, (other - 1) as nat);
    }
}

/// No cluster occurs twice in a chain, so a chain has fewer clusters than
/// the image has data clusters, and fewer than the table has entries.
pub proof fn lemma_chain_distinct(image: Seq<u8>, first: usize, fuel: nat)
    requires
        chain_from(image, first, fuel) is Some,
    ensures
        chain_from(image, first, fuel).unwrap().no_duplicates(),
        chain_from(image, first, fuel).unwrap().len() <= 3070,
        chain_from(image, first, fuel).unwrap().len() > 0 ==> chain_from(
            image,
            first,
            fuel,
        ).unwrap().len() <= cluster_limit(image.len()) - 2,
{
    let chain = chain_from(image, first, fuel).unwrap();
    lemma_chain_is_linked(image, first, fuel);
    lemma_geometry();
    assert forall|i: int, j: int| 0 <= i < chain.len() && 0 <= j < chain.len() && i != j implies
        chain[i] != chain[j] by {
        if chain[i] == chain[j] {
            lemma_chain_suffix(image, first, fuel, i);
            lemma_chain_suffix(image, first, fuel, j);
            lemma_chain_fuel(image, chain[i], (fuel - i) as nat, (fuel - j) as nat);
            assert(chain.skip(i).len() == chain.skip(j).len());
        }
    }
    if chain.len() > 0 {
        let limit = cluster_limit(image.len());
        let numbers = Seq::new(chain.len(), |i: int| chain[i] as int);
        assert(numbers.no_duplicates());
        numbers.unique_seq_to_set();
        assert(is_data_cluster(image.len(), chain[0] as int));
        vstd::set_lib::lemma_int_range(2, limit);
        assert(numbers.to_set().subset_of(vstd::set_lib::set_int_range(2, limit))) by {
            assert forall|value: int| numbers.to_set().contains(value) implies 2 <= value
                < limit by {
                let i = choose|i: int| 0 <= i < numbers.len() && numbers[i] == value;
                assert(is_data_cluster(image.len(), chain[i] as int));
            }
        }
        vstd::set_lib::lemma_len_subset(numbers.to_set(), vstd::set_lib::set_int_range(2, limit));
    }
}

/// Follows the chain that starts at `first` and hands its clusters back, or
/// `None` where the table holds no chain there that ends.
pub fn follow_chain(bytes: &Vec<u8>, first: usize) -> (chain: Option<Vec<usize>>)
    ensures
        match chain {
            Some(clusters) => cluster_chain(bytes@, first) == Some(clusters@),
            None => cluster_chain(bytes@, first) is None,
        },
{
    let limit: usize = cluster_count(bytes.len());
    let mut clusters: Vec<usize> = Vec::new();
    let mut current: usize = first;
    let mut fuel: usize = SECTORS_PER_FAT * BYTES_PER_SECTOR * 8 / BITS_PER_FAT_ENTRY;
    proof {
        lemma_geometry();
        assert(prepend(clusters@, chain_from(bytes@, current, fuel as nat)) =~= cluster_chain(
            bytes@,
            first,
        ));
    }
    while !marks_end_of_chain(current)
        invariant
            limit == cluster_limit(bytes.len() as nat),
            fuel <= 3072,
            cluster_chain(bytes@, first) == prepend(
                clusters@,
                chain_from(bytes@, current, fuel as nat),
            ),
        decreases fuel,
    {
        if fuel == 0 || current < 2 || current >= limit {
            return None;
        }
        proof {
            lemma_geometry();
        }
        let next: usize = get_fat_entry(bytes, current);
        proof {
            let rest = chain_from(bytes@, next, (fuel - 1) as nat);
            if rest is Some {
                assert(clusters@ + (seq![current] + rest.unwrap()) =~= clusters@.push(current)
                    + rest.unwrap());
            }
        }
        clusters.push(current);
        current = next;
        fuel = fuel - 1;
    }
    proof {
        assert(clusters@ + Seq::<usize>::empty() =~= clusters@);
    }
    Some(clusters)
}

} // verus!
