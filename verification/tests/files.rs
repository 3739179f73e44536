use fat12::bios_parameter_block::TOTAL_SECTORS;
use fat12::cluster_chain::follow_chain;
use fat12::directories::enumerate;
use fat12::entry_region::EntryRegion;
use fat12::error::FatError;
use fat12::fat_section_util::{get_fat_entry, write_to_fat};
use fat12::new_file::{
    get_cluster_from_new_file, get_next_free_cluster, write_cluster, write_file,
};
use fat12::read_file::{get_cluster, read_file};

fn fresh_image() -> Vec<u8> {
    vec![0u8; TOTAL_SECTORS * 512]
}

fn pattern(len: usize, seed: usize) -> Vec<u8> {
    (0..len).map(|at| ((at * 31 + seed * 7 + 1) % 251) as u8).collect()
}

#[test]
fn chunk_inside_the_file_is_copied() {
    let file = pattern(1500, 1);
    let chunk = get_cluster_from_new_file(&file, 1);
    assert_eq!(chunk.len(), 512);
    assert_eq!(chunk[..], file[512..1024]);
}

#[test]
fn last_chunk_is_padded_with_zeros() {
    let file = pattern(1000, 2);
    let chunk = get_cluster_from_new_file(&file, 1);
    assert_eq!(chunk.len(), 512);
    assert_eq!(chunk[..488], file[512..]);
    assert_eq!(chunk[488..], [0u8; 24]);
}

#[test]
fn chunk_behind_the_file_is_all_zeros() {
    let file = pattern(1024, 3);
    assert_eq!(get_cluster_from_new_file(&file, 2), vec![0u8; 512]);
    assert_eq!(get_cluster_from_new_file(&file, 3), vec![0u8; 512]);
    assert_eq!(get_cluster_from_new_file(&file, usize::MAX), vec![0u8; 512]);
    assert_eq!(get_cluster_from_new_file(&Vec::new(), 0), vec![0u8; 512]);
}

#[test]
fn write_cluster_replaces_one_sector() {
    let image = vec![0xAAu8; 4096];
    let image = write_cluster(image, 1024, vec![0x55u8; 512]);
    assert_eq!(image.len(), 4096);
    assert_eq!(image[..1024], [0xAAu8; 1024]);
    assert_eq!(image[1024..1536], [0x55u8; 512]);
    assert_eq!(image[1536..], [0xAAu8; 2560]);
}

#[test]
fn get_cluster_copies_one_sector() {
    let mut image = fresh_image();
    let content = pattern(512, 4);
    image = write_cluster(image, 16896 + 5 * 512, content.clone());
    assert_eq!(get_cluster(&image, 5), content);
    assert_eq!(get_cluster(&image, 4), vec![0u8; 512]);
}

#[test]
fn file_of_1000_bytes_takes_two_linked_clusters() {
    let content = pattern(1000, 5);
    let (image, result) = write_file(fresh_image(), EntryRegion::Root, "TEST", &content, false);
    assert_eq!(result, Ok(()));
    assert_eq!(image.len(), TOTAL_SECTORS * 512);
    assert_eq!(get_fat_entry(&image, 2), 3);
    assert_eq!(get_fat_entry(&image, 3), 0xFFF);
    assert_eq!(get_fat_entry(&image, 4), 0);
    assert_eq!(get_next_free_cluster(&image, None), Ok(4));
    assert_eq!(follow_chain(&image, 2), Some(vec![2, 3]));
    let entries = enumerate(&image, EntryRegion::Root);
    assert_eq!(entries.len(), 1);
    assert_eq!(&entries[0].name, b"TEST       ");
    assert_eq!(entries[0].attributes, 0);
    assert_eq!(entries[0].first_cluster, 2);
    assert_eq!(entries[0].size, 1000);
    assert_eq!(image[9728 + 28..9728 + 32], [0xE8, 0x03, 0x00, 0x00]);
    assert_eq!(image[16896 + 2 * 512..16896 + 3 * 512], content[..512]);
    assert_eq!(image[16896 + 3 * 512..16896 + 3 * 512 + 488], content[512..]);
    assert_eq!(image[16896 + 3 * 512 + 488..16896 + 4 * 512], [0u8; 24]);
}

#[test]
fn file_of_1000_bytes_reads_back_without_padding() {
    let content = pattern(1000, 6);
    let (image, result) = write_file(fresh_image(), EntryRegion::Root, "TEST", &content, false);
    assert_eq!(result, Ok(()));
    let entries = enumerate(&image, EntryRegion::Root);
    let file = read_file(&image, entries[0].first_cluster as usize, entries[0].size as usize);
    assert_eq!(file.len(), 1000);
    assert_eq!(file, content);
}

#[test]
fn stored_files_read_back() {
    for len in [0usize, 1, 511, 512, 513, 1023, 1024, 1025, 5000, 70000] {
        let content = pattern(len, len);
        let (image, result) = write_file(fresh_image(), EntryRegion::Root, "ROUND", &content, false);
        assert_eq!(result, Ok(()));
        let entries = enumerate(&image, EntryRegion::Root);
        assert_eq!(entries.len(), 1);
        assert_eq!(entries[0].size as usize, len);
        let file = read_file(&image, entries[0].first_cluster as usize, entries[0].size as usize);
        assert_eq!(file, content);
    }
}

#[test]
fn empty_file_takes_one_closed_cluster() {
    let mut image = fresh_image();
    image = write_cluster(image, 16896 + 2 * 512, vec![0x99u8; 512]);
    let (image, result) = write_file(image, EntryRegion::Root, "EMPTY", &Vec::new(), false);
    assert_eq!(result, Ok(()));
    assert_eq!(get_fat_entry(&image, 2), 0xFFF);
    assert_eq!(get_fat_entry(&image, 3), 0);
    let entries = enumerate(&image, EntryRegion::Root);
    assert_eq!(entries.len(), 1);
    assert_eq!(entries[0].first_cluster, 2);
    assert_eq!(entries[0].size, 0);
    assert_eq!(get_cluster(&image, 2), vec![0u8; 512]);
    assert_eq!(read_file(&image, 2, 0), Vec::<u8>::new());
}

#[test]
fn reading_from_an_end_of_chain_value_gives_nothing() {
    let image = fresh_image();
    assert_eq!(read_file(&image, 0xFFF, 0), Vec::<u8>::new());
    assert_eq!(read_file(&image, 0xFF8, 0), Vec::<u8>::new());
    assert_eq!(read_file(&image, 0xFFF, 10), Vec::<u8>::new());
}

#[test]
fn read_cuts_the_data_to_the_declared_size() {
    let content = pattern(1024, 7);
    let (image, result) = write_file(fresh_image(), EntryRegion::Root, "CUT", &content, false);
    assert_eq!(result, Ok(()));
    assert_eq!(read_file(&image, 2, 0), Vec::<u8>::new());
    assert_eq!(read_file(&image, 2, 1), content[..1]);
    assert_eq!(read_file(&image, 2, 700), content[..700]);
    assert_eq!(read_file(&image, 2, 1024), content);
    assert_eq!(read_file(&image, 2, 5000), content);
    assert_eq!(read_file(&image, 3, 512), content[512..]);
}

#[test]
fn read_follows_a_chain_that_is_not_in_order() {
    let mut image = fresh_image();
    image = write_cluster(image, 16896 + 9 * 512, vec![1u8; 512]);
    image = write_cluster(image, 16896 + 4 * 512, vec![2u8; 512]);
    image = write_cluster(image, 16896 + 6 * 512, vec![3u8; 512]);
    image = write_to_fat(image, 4, 9);
    image = write_to_fat(image, 6, 4);
    image = write_to_fat(image, 0xFF8, 6);
    assert_eq!(follow_chain(&image, 9), Some(vec![9, 4, 6]));
    let file = read_file(&image, 9, 1300);
    assert_eq!(file.len(), 1300);
    assert_eq!(file[..512], [1u8; 512]);
    assert_eq!(file[512..1024], [2u8; 512]);
    assert_eq!(file[1024..], [3u8; 276]);
}

#[test]
fn chains_that_do_not_end_are_refused() {
    let mut image = fresh_image();
    assert_eq!(follow_chain(&image, 2), None);
    assert_eq!(follow_chain(&image, 0), None);
    assert_eq!(follow_chain(&image, 1), None);
    assert_eq!(follow_chain(&image, 5000), None);
    assert_eq!(follow_chain(&image, 0xFFF), Some(Vec::new()));
    image = write_to_fat(image, 3, 2);
    image = write_to_fat(image, 2, 3);
    assert_eq!(follow_chain(&image, 2), None);
    image = write_to_fat(image, 0xFF7, 3);
    assert_eq!(follow_chain(&image, 2), None);
    image = write_to_fat(image, 3000, 3);
    assert_eq!(follow_chain(&image, 2), None);
    image = write_to_fat(image, 0xFFF, 3);
    assert_eq!(follow_chain(&image, 2), Some(vec![2, 3]));
    assert_eq!(follow_chain(&Vec::new(), 2), None);
}

#[test]
fn second_file_goes_behind_the_first() {
    let first = pattern(700, 8);
    let second = pattern(1300, 9);
    let (image, result) = write_file(fresh_image(), EntryRegion::Root, "ONE", &first, false);
    assert_eq!(result, Ok(()));
    let (image, result) = write_file(image, EntryRegion::Root, "TWO", &second, false);
    assert_eq!(result, Ok(()));
    assert_eq!(follow_chain(&image, 2), Some(vec![2, 3]));
    assert_eq!(follow_chain(&image, 4), Some(vec![4, 5, 6]));
    let entries = enumerate(&image, EntryRegion::Root);
    assert_eq!(entries.len(), 2);
    assert_eq!(&entries[0].name, b"ONE        ");
    assert_eq!(&entries[1].name, b"TWO        ");
    assert_eq!(entries[1].first_cluster, 4);
    assert_eq!(read_file(&image, 2, 700), first);
    assert_eq!(read_file(&image, 4, 1300), second);
}

#[test]
fn file_fills_the_gaps_between_used_clusters() {
    let mut image = fresh_image();
    image = write_to_fat(image, 0xFFF, 3);
    image = write_to_fat(image, 0xFFF, 4);
    image = write_to_fat(image, 0xFFF, 6);
    let content = pattern(1500, 10);
    let (image, result) = write_file(image, EntryRegion::Root, "GAPS", &content, false);
    assert_eq!(result, Ok(()));
    assert_eq!(follow_chain(&image, 2), Some(vec![2, 5, 7]));
    assert_eq!(get_fat_entry(&image, 3), 0xFFF);
    assert_eq!(get_fat_entry(&image, 4), 0xFFF);
    assert_eq!(get_fat_entry(&image, 6), 0xFFF);
    assert_eq!(read_file(&image, 2, 1500), content);
}

#[test]
fn files_fill_the_image_and_the_next_one_finds_the_disk_full() {
    let count = 3;
    let mut image = vec![0u8; 16896 + (2 + count) * 512 + 256];
    let mut contents = Vec::new();
    for number in 0..count {
        let content = pattern(300 + number, number);
        let (next, result) =
            write_file(image, EntryRegion::Root, &format!("FILE{}", number), &content, false);
        assert_eq!(result, Ok(()));
        image = next;
        contents.push(content);
    }
    let before = image.clone();
    let (image, result) = write_file(image, EntryRegion::Root, "LAST", &pattern(10, 99), false);
    assert_eq!(result, Err(FatError::DiskFull));
    assert_eq!(image, before);
    let entries = enumerate(&image, EntryRegion::Root);
    assert_eq!(entries.len(), count);
    for number in 0..count {
        let entry = entries[number];
        assert_eq!(entry.first_cluster as usize, 2 + number);
        let file = read_file(&image, entry.first_cluster as usize, entry.size as usize);
        assert_eq!(file, contents[number]);
    }
}

#[test]
fn disk_full_part_way_leaves_a_closed_chain_and_no_entry() {
    let mut image = vec![0u8; 16896 + 5 * 512];
    let kept = pattern(512, 11);
    let (next, result) = write_file(image, EntryRegion::Root, "KEPT", &kept, false);
    assert_eq!(result, Ok(()));
    image = next;
    let content = pattern(2000, 12);
    let (image, result) = write_file(image, EntryRegion::Root, "BIG", &content, false);
    assert_eq!(result, Err(FatError::DiskFull));
    assert_eq!(follow_chain(&image, 3), Some(vec![3, 4]));
    assert_eq!(get_fat_entry(&image, 3), 4);
    assert_eq!(get_fat_entry(&image, 4), 0xFFF);
    assert_eq!(get_cluster(&image, 3), content[..512]);
    assert_eq!(get_cluster(&image, 4), content[512..1024]);
    let entries = enumerate(&image, EntryRegion::Root);
    assert_eq!(entries.len(), 1);
    assert_eq!(&entries[0].name, b"KEPT       ");
    assert_eq!(read_file(&image, 2, 512), kept);
}

#[test]
fn disk_full_at_once_changes_nothing() {
    let mut image = fresh_image();
    for index in 2..3072 {
        image = write_to_fat(image, 0xFFF, index);
    }
    let before = image.clone();
    let (image, result) = write_file(image, EntryRegion::Root, "NONE", &pattern(5, 1), false);
    assert_eq!(result, Err(FatError::DiskFull));
    assert_eq!(image, before);
}

#[test]
fn stored_file_takes_just_its_clusters_from_the_free_ones() {
    let mut image = vec![0u8; 16896 + 12 * 512];
    let mut free = 10;
    for (number, len) in [0usize, 1, 512, 513, 1536].into_iter().enumerate() {
        let clusters = if len == 0 { 1 } else { (len + 511) / 512 };
        let (next, result) =
            write_file(image, EntryRegion::Root, &format!("N{}", number), &pattern(len, 3), false);
        assert_eq!(result, Ok(()));
        image = next;
        free -= clusters;
        let left = (2..12).filter(|index| get_fat_entry(&image, *index) == 0).count();
        assert_eq!(left, free);
    }
    assert_eq!(free, 2);
    let (image, result) = write_file(image, EntryRegion::Root, "TOOBIG", &pattern(1025, 4), false);
    assert_eq!(result, Err(FatError::DiskFull));
    assert_eq!((2..12).filter(|index| get_fat_entry(&image, *index) == 0).count(), 0);
}
