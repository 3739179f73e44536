//! The free clusters of an image: the data clusters whose table entry is
//! zero, listed in rising order.

use vstd::prelude::*;
use crate::bios_parameter_block::{cluster_limit, is_data_cluster, lemma_geometry};
use crate::fat_section_util::{fat_entry, FREE_CLUSTER};

verus! {

/// Whether `cluster` is a data cluster of the image that the table marks as
/// free.
pub open spec fn is_free_cluster(image: Seq<u8>, cluster: int) -> bool {
    is_data_cluster(image.len(), cluster) && fat_entry(image, cluster) == FREE_CLUSTER
}

/// The free clusters of the image from cluster `from` on, in rising order.
pub open spec fn free_clusters_from(image: Seq<u8>, from: int) -> Seq<usize>
    decreases cluster_limit(image.len()) - from,
{
    if from >= cluster_limit(image.len()) {
        Seq::empty()
    } else if fat_entry(image, from) == FREE_CLUSTER {
        seq![from as usize] + free_clusters_from(image, from + 1)
    } else {
        free_clusters_from(image, from + 1)
    }
}

/// The free clusters of the image, in rising order.
pub open spec fn free_clusters(image: Seq<u8>) -> Seq<usize> {
    free_clusters_from(image, 2)
}

/// What the list of free clusters holds: every free cluster from `from` on,
/// once, in rising order, and nothing else.
pub proof fn lemma_free_clusters_from(image: Seq<u8>, from: int)
    requires
        2 <= from,
    ensures
        forall|i: int|
            0 <= i < free_clusters_from(image, from).len() ==> from <= (
            #[trigger] free_clusters_from(image, from)[i]) && is_free_cluster(
                image,
                free_clusters_from(image, from)[i] as int,
            ),
        forall|i: int, j: int|
            0 <= i < j < free_clusters_from(image, from).len() ==> free_clusters_from(image, from)[i]
                < free_clusters_from(image, from)[j],
        forall|cluster: int|
            from <= cluster && #[trigger] is_free_cluster(image, cluster) ==> free_clusters_from(
                image,
                from,
            ).contains(cluster as usize),
    decreases cluster_limit(image.len()) - from,
{
    let list = free_clusters_from(image, from);
    if from < cluster_limit(image.len()) {
        lemma_geometry();
        lemma_free_clusters_from(image, from + 1);
        let rest = free_clusters_from(image, from + 1);
        if fat_entry(image, from) == 0 {
            assert(list =~= seq![from as usize] + rest);
            assert forall|i: int| 0 <= i < list.len() implies from <= (#[trigger] list[i])
                && is_free_cluster(image, list[i] as int) by {
                if i > 0 {
                    assert(list[i] == rest[i - 1]);
                }
            }
            assert forall|i: int, j: int| 0 <= i < j < list.len() implies list[i] < list[j] by {
                assert(list[j] == rest[j - 1]);
                if i > 0 {
                    assert(list[i] == rest[i - 1]);
                }
            }
            assert forall|cluster: int|
                from <= cluster && #[trigger] is_free_cluster(image, cluster) implies list.contains(
                cluster as usize,
            ) by {
                if cluster == from {
                    assert(list[0] == from as usize);
                } else {
                    assert(rest.contains(cluster as usize));
                    let i = choose|i: int| 0 <= i < rest.len() && rest[i] == cluster as usize;
                    assert(list[i + 1] == cluster as usize);
                }
            }
        } else {
            assert(list =~= rest);
            assert forall|cluster: int|
                from <= cluster && #[trigger] is_free_cluster(image, cluster) implies list.contains(
                cluster as usize,
            ) by {
                assert(cluster != from);
            }
        }
    }
}

/// What the list of free clusters holds: every free cluster of the image,
/// once, in rising order, and nothing else.
pub proof fn lemma_free_clusters(image: Seq<u8>)
    ensures
        forall|i: int|
            0 <= i < free_clusters(image).len() ==> is_free_cluster(
                image,
                (#[trigger] free_clusters(image)[i]) as int,
            ),
        forall|i: int, j: int|
            0 <= i < j < free_clusters(image).len() ==> free_clusters(image)[i] < free_clusters(
                image,
            )[j],
        forall|cluster: int| #[trigger]
            is_free_cluster(image, cluster) ==> free_clusters(image).contains(cluster as usize),
        free_clusters(image).no_duplicates(),
        free_clusters(image).len() <= 3070,
{
    lemma_free_clusters_from(image, 2);
    let list = free_clusters(image);
    assert forall|i: int, j: int| 0 <= i < list.len() && 0 <= j < list.len() && i != j implies
        list[i] != list[j] by {
        if i < j {
            assert(list[i] < list[j]);
        } else {
            assert(list[j] < list[i]);
        }
    }
    lemma_rising_is_short(list, 2, 3072);
    lemma_geometry();
}

/// A rising list of numbers from `low` up to, but not including, `high` has
/// at most `high - low` members.
pub proof fn lemma_rising_is_short(list: Seq<usize>, low: int, high: int)
    requires
        forall|i: int| 0 <= i < list.len() ==> low <= (#[trigger] list[i]) < high,
        forall|i: int, j: int| 0 <= i < j < list.len() ==> list[i] < list[j],
        low <= high,
    ensures
        list.len() <= high - low,
    decreases list.len(),
{
    if list.len() > 0 {
        let rest = list.drop_last();
        let last = list.last();
        assert forall|i: int| 0 <= i < rest.len() implies low <= (#[trigger] rest[i]) < last by {
            assert(rest[i] == list[i]);
            assert(list[i] < list[list.len() - 1]);
        }
        assert forall|i: int, j: int| 0 <= i < j < rest.len() implies rest[i] < rest[j] by {
            assert(rest[i] == list[i] && rest[j] == list[j]);
        }
        assert(low <= list[list.len() - 1] < high);
        lemma_rising_is_short(rest, low, last as int);
    }
}

/// Two rising lists with the same members are the same list.
pub proof fn lemma_rising_equal(a: Seq<usize>, b: Seq<usize>)
    requires
        forall|i: int, j: int| 0 <= i < j < a.len() ==> a[i] < a[j],
        forall|i: int, j: int| 0 <= i < j < b.len() ==> b[i] < b[j],
        forall|i: int| 0 <= i < a.len() ==> b.contains(#[trigger] a[i]),
        forall|i: int| 0 <= i < b.len() ==> a.contains(#[trigger] b[i]),
    ensures
        a == b,
    decreases a.len(),
{
    if a.len() == 0 {
        if b.len() > 0 {
            assert(a.contains(b[0]));
        }
        assert(a =~= b);
    } else {
        assert(b.contains(a[0]));
        let last = a.last();
        assert(b.contains(a[a.len() - 1]));
        assert(a.contains(b[b.len() - 1]));
        let in_b = choose|j: int| 0 <= j < b.len() && b[j] == last;
        let in_a = choose|i: int| 0 <= i < a.len() && a[i] == b.last();
        if in_b < b.len() - 1 {
            assert(b[in_b] < b[b.len() - 1]);
        }
        if in_a < a.len() - 1 {
            assert(a[in_a] < a[a.len() - 1]);
        }
        assert(last == b.last());
        let shorter_a = a.drop_last();
        let shorter_b = b.drop_last();
        assert forall|i: int| 0 <= i < shorter_a.len() implies shorter_b.contains(
            #[trigger] shorter_a[i],
        ) by {
            assert(shorter_a[i] == a[i]);
            assert(a[i] < a[a.len() - 1]);
            assert(b.contains(a[i]));
            let j = choose|j: int| 0 <= j < b.len() && b[j] == a[i];
            assert(shorter_b[j] == a[i]);
        }
        assert forall|i: int| 0 <= i < shorter_b.len() implies shorter_a.contains(
            #[trigger] shorter_b[i],
        ) by {
            assert(shorter_b[i] == b[i]);
            assert(b[i] < b[b.len() - 1]);
            assert(a.contains(b[i]));
            let j = choose|j: int| 0 <= j < a.len() && a[j] == b[i];
            assert(shorter_a[j] == b[i]);
        }
        assert forall|i: int, j: int| 0 <= i < j < shorter_a.len() implies shorter_a[i]
            < shorter_a[j] by {
            assert(shorter_a[i] == a[i] && shorter_a[j] == a[j]);
        }
        assert forall|i: int, j: int| 0 <= i < j < shorter_b.len() implies shorter_b[i]
            < shorter_b[j] by {
            assert(shorter_b[i] == b[i] && shorter_b[j] == b[j]);
        }
        lemma_rising_equal(shorter_a, shorter_b);
        assert(a =~= shorter_a.push(last));
        assert(b =~= shorter_b.push(last));
    }
}

/// A rising list that holds just the free clusters of an image is the list
/// of its free clusters.
pub proof fn lemma_free_clusters_are(image: Seq<u8>, list: Seq<usize>)
    requires
        forall|i: int| 0 <= i < list.len() ==> is_free_cluster(image, (#[trigger] list[i]) as int),
        forall|i: int, j: int| 0 <= i < j < list.len() ==> list[i] < list[j],
        forall|cluster: int| #[trigger]
            is_free_cluster(image, cluster) ==> list.contains(cluster as usize),
    ensures
        list == free_clusters(image),
{
    lemma_free_clusters(image);
    let all = free_clusters(image);
    assert forall|i: int| 0 <= i < list.len() implies all.contains(#[trigger] list[i]) by {
        assert(is_free_cluster(image, list[i] as int));
    }
    assert forall|i: int| 0 <= i < all.len() implies list.contains(#[trigger] all[i]) by {
        assert(is_free_cluster(image, all[i] as int));
    }
    lemma_rising_equal(list, all);
}

/// The first free cluster that a search finds is the first of the list, and
/// a search finds none just where the list is empty.
pub proof fn lemma_first_free_cluster(image: Seq<u8>, cluster: int)
    requires
        is_free_cluster(image, cluster),
        forall|other: int| other < cluster ==> !#[trigger] is_free_cluster(image, other),
    ensures
        free_clusters(image).len() > 0,
        free_clusters(image)[0] == cluster,
{
    lemma_free_clusters(image);
    let list = free_clusters(image);
    assert(list.contains(cluster as usize));
    let at = choose|i: int| 0 <= i < list.len() && list[i] == cluster as usize;
    if at > 0 {
        assert(list[0] < list[at]);
        assert(is_free_cluster(image, list[0] as int));
    }
}

} // verus!
