use fat12::bios_parameter_block::TOTAL_SECTORS;
use fat12::cluster_chain::follow_chain;
use fat12::dir_entry::{build_record, parse_record};
use fat12::directories::{
    append_to_dir, enumerate, find_entry, get_first_free_directory_entry, make_directory,
    read_directory_entry, write_entry,
};
use fat12::entry_region::{region_clusters, EntryRegion};
use fat12::error::FatError;
use fat12::fat_section_util::{get_fat_entry, write_to_fat};
use fat12::new_file::{get_next_free_cluster, write_cluster, write_file};
use fat12::read_file::{get_cluster, read_file};
use fat12::root_dir_util::{append_to_root_dir, read_root_entry};
use fat12::shell_state::ShellState;

const ROOT: usize = 9728;
const DATA: usize = 16896;

fn fresh_image() -> Vec<u8> {
    vec![0u8; TOTAL_SECTORS * 512]
}

fn image_with_subdirectory() -> Vec<u8> {
    let (image, result) = write_file(fresh_image(), EntryRegion::Root, "SUB", &Vec::new(), true);
    assert_eq!(result, Ok(()));
    image
}

#[test]
fn record_has_the_documented_layout() {
    let record = build_record(b"HELLO.TXT", 0x20, 0x0ABC, 0x1234_5678);
    assert_eq!(record.len(), 32);
    assert_eq!(&record[..11], b"HELLO.TXT  ");
    assert_eq!(record[11], 0x20);
    assert_eq!(record[12..26], [0u8; 14]);
    assert_eq!(record[26], 0x0A);
    assert_eq!(record[27], 0xBC);
    assert_eq!(record[28..], [0x78, 0x56, 0x34, 0x12]);
}

#[test]
fn record_cuts_long_names_and_pads_short_ones() {
    assert_eq!(&build_record(b"VERYLONGFILENAME.TXT", 0, 2, 0)[..11], b"VERYLONGFIL");
    assert_eq!(&build_record(b"ELEVENBYTES", 0, 2, 0)[..11], b"ELEVENBYTES");
    assert_eq!(&build_record(b"A", 0, 2, 0)[..11], b"A          ");
    assert_eq!(&build_record(b"", 0, 2, 0)[..11], b"           ");
}

#[test]
fn record_keeps_the_low_bits_of_cluster_and_size() {
    let record = build_record(b"X", 0, 0x1_2345, 0);
    assert_eq!(record[26], 0x23);
    assert_eq!(record[27], 0x45);
    let entry = parse_record(&record);
    assert_eq!(entry.first_cluster, 0x2345);
}

#[test]
fn parsed_record_gives_back_what_was_built() {
    let entry = parse_record(&build_record(b"NAME", 0x08, 3071, 1_572_864));
    assert_eq!(&entry.name, b"NAME       ");
    assert_eq!(entry.attributes, 0x08);
    assert_eq!(entry.first_cluster, 3071);
    assert_eq!(entry.size, 1_572_864);
    assert!(entry.is_subdirectory());
    assert!(!parse_record(&build_record(b"NAME", 0x37, 2, 0)).is_subdirectory());
    assert!(parse_record(&build_record(b"NAME", 0xFF, 2, 0)).is_subdirectory());
}

#[test]
fn make_directory_in_the_root_of_a_fresh_image() {
    let state = ShellState::new().set_bytes(fresh_image());
    let (state, result) = make_directory(state, String::from("SUBDIR"));
    assert_eq!(result, Ok(()));
    let image = state.bytes;
    assert_eq!(&image[ROOT..ROOT + 11], b"SUBDIR     ");
    assert_eq!(image[ROOT + 11], 0x08);
    assert_eq!(image[ROOT + 12..ROOT + 26], [0u8; 14]);
    assert_eq!(image[ROOT + 26..ROOT + 28], [0x00, 0x02]);
    assert_eq!(image[ROOT + 28..ROOT + 32], [0u8; 4]);
    assert_eq!(get_fat_entry(&image, 2), 0xFFF);
    assert_eq!(follow_chain(&image, 2), Some(vec![2]));
    assert_eq!(get_cluster(&image, 2), vec![0u8; 512]);
}

#[test]
fn made_directory_is_listed_with_the_subdirectory_bit() {
    let mut image = fresh_image();
    image = write_cluster(image, DATA + 2 * 512, vec![0x77u8; 512]);
    let state = ShellState::new().set_bytes(image);
    let (state, result) = make_directory(state, String::from("DOCS"));
    assert_eq!(result, Ok(()));
    let entries = enumerate(&state.bytes, EntryRegion::Root);
    assert_eq!(entries.len(), 1);
    assert_eq!(&entries[0].name, b"DOCS       ");
    assert_ne!(entries[0].attributes & 0x08, 0);
    assert!(entries[0].is_subdirectory());
    assert_eq!(entries[0].size, 0);
    let first = entries[0].first_cluster as usize;
    assert_eq!(follow_chain(&state.bytes, first), Some(vec![first]));
    assert_eq!(get_cluster(&state.bytes, first), vec![0u8; 512]);
    assert!(get_fat_entry(&state.bytes, first) >= 0xFF8);
    let inside = EntryRegion::Subdirectory { first_cluster: first };
    assert_eq!(enumerate(&state.bytes, inside).len(), 0);
}

#[test]
fn first_free_slot_is_the_first_unused_one() {
    let image = fresh_image();
    let (image, slot) = get_first_free_directory_entry(image, EntryRegion::Root);
    assert_eq!(slot, Ok(0));
    let (image, result) = append_to_root_dir(image, String::from("A"), 2, false, 1);
    assert_eq!(result, Ok(()));
    let (image, result) = append_to_root_dir(image, String::from("B"), 3, false, 2);
    assert_eq!(result, Ok(()));
    let before = image.clone();
    let (image, slot) = get_first_free_directory_entry(image, EntryRegion::Root);
    assert_eq!(slot, Ok(2));
    assert_eq!(image, before);
}

#[test]
fn deleted_slot_is_used_again() {
    let mut image = fresh_image();
    for name in ["A", "B", "C"] {
        let (next, result) = append_to_root_dir(image, String::from(name), 2, false, 0);
        assert_eq!(result, Ok(()));
        image = next;
    }
    image[ROOT + 32] = 0xE5;
    let (image, slot) = get_first_free_directory_entry(image, EntryRegion::Root);
    assert_eq!(slot, Ok(1));
    let entries = enumerate(&image, EntryRegion::Root);
    assert_eq!(entries.len(), 2);
    assert_eq!(&entries[0].name, b"A          ");
    assert_eq!(&entries[1].name, b"C          ");
    let (image, result) = append_to_root_dir(image, String::from("D"), 9, true, 7);
    assert_eq!(result, Ok(()));
    let entries = enumerate(&image, EntryRegion::Root);
    assert_eq!(entries.len(), 3);
    assert_eq!(&entries[1].name, b"D          ");
    assert_eq!(entries[1].attributes, 0x08);
    assert_eq!(entries[1].first_cluster, 9);
    assert_eq!(entries[1].size, 7);
}

#[test]
fn listing_goes_on_behind_a_slot_that_was_never_used() {
    let mut image = fresh_image();
    let record = build_record(b"LATE", 0, 5, 3);
    image[ROOT + 10 * 32..ROOT + 11 * 32].copy_from_slice(&record);
    let entries = enumerate(&image, EntryRegion::Root);
    assert_eq!(entries.len(), 1);
    assert_eq!(&entries[0].name, b"LATE       ");
}

#[test]
fn full_root_directory_reports_directory_full() {
    let mut image = fresh_image();
    for number in 0..224 {
        let (next, result) = append_to_root_dir(image, format!("F{}", number), 2, false, 0);
        assert_eq!(result, Ok(()));
        image = next;
    }
    assert_eq!(enumerate(&image, EntryRegion::Root).len(), 224);
    let before = image.clone();
    let (image, result) = append_to_root_dir(image, String::from("MORE"), 2, false, 0);
    assert_eq!(result, Err(FatError::DirectoryFull));
    assert_eq!(image, before);
    let (image, slot) = get_first_free_directory_entry(image, EntryRegion::Root);
    assert_eq!(slot, Err(FatError::DirectoryFull));
    assert_eq!(image, before);
    assert_eq!(image[DATA..DATA + 32], [0u8; 32]);
}

#[test]
fn file_for_a_full_root_directory_keeps_its_chain_but_gets_no_entry() {
    let mut image = fresh_image();
    for number in 0..224 {
        let (next, result) = append_to_root_dir(image, format!("F{}", number), 0xFFF, false, 0);
        assert_eq!(result, Ok(()));
        image = next;
    }
    let content = vec![0x42u8; 600];
    let (image, result) = write_file(image, EntryRegion::Root, "LOST", &content, false);
    assert_eq!(result, Err(FatError::DirectoryFull));
    assert_eq!(follow_chain(&image, 2), Some(vec![2, 3]));
    assert_eq!(read_file(&image, 2, 600), content);
    assert_eq!(enumerate(&image, EntryRegion::Root).len(), 224);
}

#[test]
fn write_entry_fills_the_slot_it_is_given() {
    let image = write_entry(fresh_image(), EntryRegion::Root, 5, "SLOT5.BIN", 0x01, 0x0123, 77);
    assert_eq!(&image[ROOT + 5 * 32..ROOT + 5 * 32 + 11], b"SLOT5.BIN  ");
    assert_eq!(image[ROOT + 5 * 32 + 11], 0x01);
    assert_eq!(image[ROOT + 5 * 32 + 26..ROOT + 5 * 32 + 28], [0x01, 0x23]);
    assert_eq!(image[ROOT + 5 * 32 + 28..ROOT + 6 * 32], [77, 0, 0, 0]);
    assert_eq!(image[ROOT..ROOT + 5 * 32], [0u8; 160]);
    assert_eq!(image[ROOT + 6 * 32..ROOT + 8 * 32], [0u8; 64]);
    assert_eq!(read_root_entry(&image, 5), build_record(b"SLOT5.BIN", 0x01, 0x0123, 77));
    assert_eq!(read_directory_entry(&image, EntryRegion::Root, 5), read_root_entry(&image, 5));
    assert_eq!(read_root_entry(&image, 4), vec![0u8; 32]);
    assert_eq!(read_root_entry(&image, 223), vec![0u8; 32]);
}

#[test]
fn write_entry_overwrites_stale_bytes_with_zeros() {
    let mut image = fresh_image();
    for at in ROOT..ROOT + 32 {
        image[at] = 0xEE;
    }
    let image = write_entry(image, EntryRegion::Root, 0, "N", 0, 2, 1);
    assert_eq!(image[ROOT + 12..ROOT + 26], [0u8; 14]);
    assert_eq!(&image[ROOT..ROOT + 11], b"N          ");
}

#[test]
fn entries_of_a_subdirectory_live_in_its_cluster() {
    let image = image_with_subdirectory();
    let inside = EntryRegion::Subdirectory { first_cluster: 2 };
    assert_eq!(region_clusters(&image, inside), Some(vec![2]));
    let content = vec![0x11u8; 100];
    let (image, result) = write_file(image, inside, "INNER", &content, false);
    assert_eq!(result, Ok(()));
    assert_eq!(&image[DATA + 2 * 512..DATA + 2 * 512 + 11], b"INNER      ");
    assert_eq!(image[DATA + 2 * 512 + 26..DATA + 2 * 512 + 28], [0x00, 0x03]);
    assert_eq!(enumerate(&image, EntryRegion::Root).len(), 1);
    let entries = enumerate(&image, inside);
    assert_eq!(entries.len(), 1);
    assert_eq!(entries[0].first_cluster, 3);
    assert_eq!(entries[0].size, 100);
    assert_eq!(read_file(&image, 3, 100), content);
    assert_eq!(read_directory_entry(&image, inside, 0), build_record(b"INNER", 0, 3, 100));
    assert_eq!(read_directory_entry(&image, inside, 15), vec![0u8; 32]);
}

#[test]
fn full_subdirectory_grows_by_one_zeroed_cluster() {
    let mut image = image_with_subdirectory();
    let inside = EntryRegion::Subdirectory { first_cluster: 2 };
    for number in 0..16 {
        let (next, result) =
            append_to_dir(image, format!("E{}", number), 0xFFF, false, inside, number);
        assert_eq!(result, Ok(()));
        image = next;
    }
    assert_eq!(follow_chain(&image, 2), Some(vec![2]));
    assert_eq!(get_next_free_cluster(&image, None), Ok(3));
    image = write_cluster(image, DATA + 3 * 512, vec![0x5Au8; 512]);
    let (image, result) = append_to_dir(image, String::from("NEXT"), 0xFFF, false, inside, 9);
    assert_eq!(result, Ok(()));
    assert_eq!(follow_chain(&image, 2), Some(vec![2, 3]));
    assert_eq!(get_fat_entry(&image, 2), 3);
    assert_eq!(get_fat_entry(&image, 3), 0xFFF);
    assert_eq!(image[DATA + 3 * 512..DATA + 3 * 512 + 32], build_record(b"NEXT", 0, 0xFFF, 9)[..]);
    assert_eq!(image[DATA + 3 * 512 + 32..DATA + 4 * 512], [0u8; 480]);
    let entries = enumerate(&image, inside);
    assert_eq!(entries.len(), 17);
    assert_eq!(&entries[16].name, b"NEXT       ");
    assert_eq!(entries[16].size, 9);
    assert_eq!(read_directory_entry(&image, inside, 16), build_record(b"NEXT", 0, 0xFFF, 9));
}

#[test]
fn file_in_a_full_subdirectory_gets_its_clusters_before_the_directory_grows() {
    let mut image = image_with_subdirectory();
    let inside = EntryRegion::Subdirectory { first_cluster: 2 };
    for number in 0..16 {
        let (next, result) =
            append_to_dir(image, format!("E{}", number), 0xFFF, false, inside, number);
        assert_eq!(result, Ok(()));
        image = next;
    }
    let content = vec![0x33u8; 700];
    let (image, result) = write_file(image, inside, "SEVENTEEN", &content, false);
    assert_eq!(result, Ok(()));
    assert_eq!(follow_chain(&image, 3), Some(vec![3, 4]));
    assert_eq!(follow_chain(&image, 2), Some(vec![2, 5]));
    let entries = enumerate(&image, inside);
    assert_eq!(entries.len(), 17);
    assert_eq!(entries[16].first_cluster, 3);
    assert_eq!(read_file(&image, 3, 700), content);
}

#[test]
fn full_subdirectory_on_a_full_disk_reports_directory_full() {
    let mut image = vec![0u8; DATA + 3 * 512];
    let (next, result) = write_file(image, EntryRegion::Root, "SUB", &Vec::new(), true);
    assert_eq!(result, Ok(()));
    image = next;
    let inside = EntryRegion::Subdirectory { first_cluster: 2 };
    for number in 0..16 {
        let (next, result) =
            append_to_dir(image, format!("E{}", number), 0xFFF, false, inside, number);
        assert_eq!(result, Ok(()));
        image = next;
    }
    let before = image.clone();
    let (image, result) = append_to_dir(image, String::from("MORE"), 0xFFF, false, inside, 0);
    assert_eq!(result, Err(FatError::DirectoryFull));
    assert_eq!(image, before);
}

#[test]
fn regions_that_the_image_does_not_hold_are_refused() {
    let image = fresh_image();
    assert_eq!(region_clusters(&image, EntryRegion::Root), Some(Vec::new()));
    assert_eq!(region_clusters(&vec![0u8; DATA - 1], EntryRegion::Root), None);
    assert_eq!(region_clusters(&vec![0u8; DATA], EntryRegion::Root), Some(Vec::new()));
    assert_eq!(region_clusters(&image, EntryRegion::Subdirectory { first_cluster: 2 }), None);
    assert_eq!(region_clusters(&image, EntryRegion::Subdirectory { first_cluster: 0xFFF }), None);
    let image = write_to_fat(image, 0xFFF, 2);
    assert_eq!(
        region_clusters(&image, EntryRegion::Subdirectory { first_cluster: 2 }),
        Some(vec![2])
    );
}

#[test]
fn entry_is_found_by_its_name() {
    let mut image = fresh_image();
    for (name, cluster) in [("ONE", 2usize), ("TWO", 3), ("ONE", 4)] {
        let (next, result) = append_to_root_dir(image, String::from(name), cluster, false, 10);
        assert_eq!(result, Ok(()));
        image = next;
    }
    let (slot, entry) = find_entry(&image, EntryRegion::Root, "TWO").unwrap();
    assert_eq!(slot, 1);
    assert_eq!(entry.first_cluster, 3);
    let (slot, entry) = find_entry(&image, EntryRegion::Root, "ONE").unwrap();
    assert_eq!(slot, 0);
    assert_eq!(entry.first_cluster, 2);
    assert_eq!(find_entry(&image, EntryRegion::Root, "THREE").err(), Some(FatError::NotFound));
    assert_eq!(find_entry(&image, EntryRegion::Root, "ON").err(), Some(FatError::NotFound));
    assert_eq!(find_entry(&image, EntryRegion::Root, "one").err(), Some(FatError::NotFound));
    image[ROOT] = 0xE5;
    let (slot, entry) = find_entry(&image, EntryRegion::Root, "ONE").unwrap();
    assert_eq!(slot, 2);
    assert_eq!(entry.first_cluster, 4);
}

#[test]
fn names_are_compared_by_their_first_eleven_bytes() {
    let (image, result) =
        append_to_root_dir(fresh_image(), String::from("LONGFILENAME.TXT"), 2, false, 0);
    assert_eq!(result, Ok(()));
    assert!(find_entry(&image, EntryRegion::Root, "LONGFILENAM").is_ok());
    assert!(find_entry(&image, EntryRegion::Root, "LONGFILENAMXYZ").is_ok());
    assert!(find_entry(&image, EntryRegion::Root, "LONGFILENAXYZ").is_err());
    assert!(find_entry(&image, EntryRegion::Root, "LONGFILENA").is_err());
    assert!(find_entry(&image, EntryRegion::Root, "LONGFILENAME.DOC").is_ok());
}

#[test]
fn name_that_begins_with_a_free_marker_is_stored_but_not_listed() {
    let (image, result) =
        append_to_root_dir(fresh_image(), String::from("\u{5000}X"), 2, false, 0);
    assert_eq!(result, Ok(()));
    assert_eq!(image[ROOT], 0xE5);
    assert_eq!(enumerate(&image, EntryRegion::Root).len(), 0);
}
