use fat12::bios_parameter_block::{
    cluster_count, data_region_offset, fat_region_offset, get_cluster_from_entry,
    root_region_offset, TOTAL_SECTORS,
};
use fat12::error::FatError;
use fat12::fat_section_util::{get_fat_entry, write_to_fat};
use fat12::new_file::get_next_free_cluster;

fn fresh_image() -> Vec<u8> {
    vec![0u8; TOTAL_SECTORS * 512]
}

#[test]
fn region_offsets_follow_the_geometry() {
    assert_eq!(fat_region_offset(), 512);
    assert_eq!(root_region_offset(), 512 + 2 * 9 * 512);
    assert_eq!(data_region_offset(), 512 + 2 * 9 * 512 + 224 * 32);
}

#[test]
fn cluster_offsets_count_sectors_from_the_data_region() {
    assert_eq!(get_cluster_from_entry(0), 16896);
    assert_eq!(get_cluster_from_entry(2), 16896 + 2 * 512);
    assert_eq!(get_cluster_from_entry(100), 16896 + 100 * 512);
}

#[test]
fn cluster_count_is_bounded_by_image_and_table() {
    assert_eq!(cluster_count(0), 0);
    assert_eq!(cluster_count(16895), 0);
    assert_eq!(cluster_count(16896), 0);
    assert_eq!(cluster_count(16896 + 511), 0);
    assert_eq!(cluster_count(16896 + 512), 1);
    assert_eq!(cluster_count(TOTAL_SECTORS * 512), 2847);
    assert_eq!(cluster_count(16896 + 4000 * 512), 3072);
}

#[test]
fn fresh_image_first_free_cluster_is_two() {
    let image = fresh_image();
    assert_eq!(get_next_free_cluster(&image, None), Ok(2));
}

#[test]
fn neighbour_entry_survives_a_write() {
    let image = fresh_image();
    let image = write_to_fat(image, 0xFFF, 2);
    let image = write_to_fat(image, 0x005, 3);
    assert_eq!(get_fat_entry(&image, 2), 0xFFF);
    assert_eq!(get_fat_entry(&image, 3), 0x005);
}

#[test]
fn written_entry_reads_back_for_even_and_odd_indices() {
    let mut image = fresh_image();
    for index in [0usize, 1, 2, 3, 10, 11, 1000, 1001, 3070, 3071] {
        for value in [0usize, 1, 0x005, 0x0F0, 0xABC, 0xFF7, 0xFF8, 0xFFF] {
            image = write_to_fat(image, value, index);
            assert_eq!(get_fat_entry(&image, index), value);
        }
    }
}

#[test]
fn write_leaves_both_neighbours_alone() {
    let mut image = fresh_image();
    for index in 0..3072 {
        image = write_to_fat(image, 0x000, index);
    }
    for middle in [1usize, 2, 7, 8, 1535, 1536, 3070] {
        image = write_to_fat(image, 0x123, middle - 1);
        image = write_to_fat(image, 0x456, middle + 1);
        for value in [0x000usize, 0xFFF, 0xA5A, 0x5A5] {
            image = write_to_fat(image, value, middle);
            assert_eq!(get_fat_entry(&image, middle - 1), 0x123);
            assert_eq!(get_fat_entry(&image, middle), value);
            assert_eq!(get_fat_entry(&image, middle + 1), 0x456);
        }
    }
}

#[test]
fn write_changes_no_other_entry_of_the_table() {
    let mut image = fresh_image();
    for index in 0..3072 {
        image = write_to_fat(image, (index * 7 + 3) % 4096, index);
    }
    image = write_to_fat(image, 0xEEE, 500);
    for index in 0..3072 {
        let expected = if index == 500 { 0xEEE } else { (index * 7 + 3) % 4096 };
        assert_eq!(get_fat_entry(&image, index), expected);
    }
}

#[test]
fn even_entry_is_packed_high_byte_first() {
    let image = write_to_fat(fresh_image(), 0xABC, 2);
    assert_eq!(image[512 + 3], 0xAB);
    assert_eq!(image[512 + 4], 0xC0);
}

#[test]
fn odd_entry_shares_the_byte_with_the_even_one_before() {
    let image = write_to_fat(fresh_image(), 0xABC, 2);
    let image = write_to_fat(image, 0xDEF, 3);
    assert_eq!(image[512 + 3], 0xAB);
    assert_eq!(image[512 + 4], 0xCD);
    assert_eq!(image[512 + 5], 0xEF);
}

#[test]
fn entry_reads_follow_the_packing() {
    let mut image = fresh_image();
    image[512] = 0x12;
    image[513] = 0x34;
    image[514] = 0x56;
    assert_eq!(get_fat_entry(&image, 0), 0x123);
    assert_eq!(get_fat_entry(&image, 1), 0x456);
}

#[test]
fn write_goes_to_both_copies_of_the_table() {
    let image = write_to_fat(fresh_image(), 0xABC, 2);
    let second = 512 + 9 * 512;
    assert_eq!(image[second + 3], 0xAB);
    assert_eq!(image[second + 4], 0xC0);
    let image = write_to_fat(image, 0x123, 3071);
    assert_eq!(image[512 + 4606], 0x01);
    assert_eq!(image[512 + 4607], 0x23);
    assert_eq!(image[second + 4606], 0x01);
    assert_eq!(image[second + 4607], 0x23);
}

#[test]
fn second_copy_keeps_its_own_neighbour() {
    let mut image = fresh_image();
    let second = 512 + 9 * 512;
    image[second + 4] = 0x0D;
    let image = write_to_fat(image, 0xABC, 2);
    assert_eq!(image[512 + 4], 0xC0);
    assert_eq!(image[second + 4], 0xCD);
}

#[test]
fn write_keeps_only_twelve_bits_of_the_value() {
    let image = write_to_fat(fresh_image(), 0x1ABC, 4);
    assert_eq!(get_fat_entry(&image, 4), 0xABC);
    assert_eq!(get_fat_entry(&image, 3), 0);
    assert_eq!(get_fat_entry(&image, 5), 0);
    let image = write_to_fat(image, 0xF123, 5);
    assert_eq!(get_fat_entry(&image, 5), 0x123);
    assert_eq!(get_fat_entry(&image, 4), 0xABC);
}

#[test]
fn write_touches_nothing_outside_the_table() {
    let mut image = fresh_image();
    for (at, byte) in image.iter_mut().enumerate() {
        *byte = (at % 251) as u8;
    }
    let before = image.clone();
    let image = write_to_fat(image, 0x777, 9);
    assert_eq!(image.len(), before.len());
    assert_eq!(image[..512], before[..512]);
    assert_eq!(image[9728..], before[9728..]);
}

#[test]
fn search_skips_used_and_reserved_clusters() {
    let image = fresh_image();
    let image = write_to_fat(image, 0xFFF, 2);
    let image = write_to_fat(image, 0x004, 3);
    assert_eq!(get_next_free_cluster(&image, None), Ok(4));
    assert_eq!(get_fat_entry(&image, 0), 0);
    assert_eq!(get_fat_entry(&image, 1), 0);
}

#[test]
fn search_skips_the_excluded_cluster() {
    let image = fresh_image();
    assert_eq!(get_next_free_cluster(&image, Some(2)), Ok(3));
    assert_eq!(get_next_free_cluster(&image, Some(3)), Ok(2));
    assert_eq!(get_next_free_cluster(&image, Some(0)), Ok(2));
    let image = write_to_fat(image, 0xFFF, 3);
    assert_eq!(get_next_free_cluster(&image, Some(2)), Ok(4));
}

#[test]
fn search_treats_bad_clusters_as_taken() {
    let image = write_to_fat(fresh_image(), 0xFF7, 2);
    assert_eq!(get_next_free_cluster(&image, None), Ok(3));
}

#[test]
fn full_table_reports_disk_full() {
    let mut image = fresh_image();
    for index in 2..3072 {
        image = write_to_fat(image, 0xFFF, index);
    }
    assert_eq!(get_next_free_cluster(&image, None), Err(FatError::DiskFull));
}

#[test]
fn only_the_excluded_cluster_free_reports_disk_full() {
    let mut image = fresh_image();
    for index in 2..3072 {
        if index != 77 {
            image = write_to_fat(image, 0xFFF, index);
        }
    }
    assert_eq!(get_next_free_cluster(&image, None), Ok(77));
    assert_eq!(get_next_free_cluster(&image, Some(77)), Err(FatError::DiskFull));
}

#[test]
fn search_stops_at_the_end_of_the_image() {
    let mut image = vec![0u8; 16896 + 4 * 512 + 100];
    assert_eq!(get_next_free_cluster(&image, None), Ok(2));
    image = write_to_fat(image, 0xFFF, 2);
    assert_eq!(get_next_free_cluster(&image, None), Ok(3));
    image = write_to_fat(image, 0xFFF, 3);
    assert_eq!(get_next_free_cluster(&image, None), Err(FatError::DiskFull));
}

#[test]
fn search_in_a_buffer_without_a_volume_reports_disk_full() {
    assert_eq!(get_next_free_cluster(&Vec::new(), None), Err(FatError::DiskFull));
    assert_eq!(get_next_free_cluster(&vec![0u8; 16896], None), Err(FatError::DiskFull));
}
