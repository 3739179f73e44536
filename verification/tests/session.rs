use fat12::bios_parameter_block::TOTAL_SECTORS;
use fat12::directories::{list_directory, make_directory};
use fat12::entry_region::EntryRegion;
use fat12::error::FatError;
use fat12::fat_section_util::write_to_fat;
use fat12::new_file::newfile;
use fat12::read_file::save_file_to_os;
use fat12::root_dir_util::{append_to_root_dir, list_root_directory};
use fat12::shell_images::{close_image, create_new_image, open_image, BYTES_PER_MEGABYTE};
use fat12::shell_parsing::{get_arg, ArgError};
use fat12::shell_state::ShellState;

fn fresh_image() -> Vec<u8> {
    vec![0u8; TOTAL_SECTORS * 512]
}

#[test]
fn new_session_has_no_image() {
    let state = ShellState::new();
    assert_eq!(state.bytes, Vec::<u8>::new());
    assert_eq!(state.get_cwd(), 0);
    assert!(state.is_root());
    assert!(!state.is_file_open());
    assert_eq!(state.image_filename(), "");
    assert_eq!(state.region(), EntryRegion::Root);
}

#[test]
fn set_bytes_changes_the_image_only() {
    let state = ShellState::new().set_cwd(7).set_bytes(vec![1, 2, 3]);
    assert_eq!(state.bytes, vec![1, 2, 3]);
    assert_eq!(state.get_cwd(), 7);
    assert!(!state.is_file_open());
}

#[test]
fn set_cwd_changes_the_directory_only() {
    let state = ShellState::new().set_bytes(vec![9]).set_cwd(12);
    assert_eq!(state.bytes, vec![9]);
    assert_eq!(state.get_cwd(), 12);
    assert!(!state.is_root());
    assert_eq!(state.region(), EntryRegion::Subdirectory { first_cluster: 12 });
    let state = state.set_cwd(0);
    assert!(state.is_root());
}

#[test]
fn open_image_takes_the_bytes_and_the_name() {
    let state = open_image(ShellState::new(), String::from("floppy.img"), vec![4, 5]);
    assert_eq!(state.bytes, vec![4, 5]);
    assert_eq!(state.image_filename(), "floppy.img");
    assert!(state.is_file_open());
    assert!(state.is_root());
    let state = ShellState::new().set_cwd(3).open_file(String::from("other.img"), vec![6]);
    assert_eq!(state.bytes, vec![6]);
    assert_eq!(state.image_filename(), "other.img");
    assert_eq!(state.get_cwd(), 3);
}

#[test]
fn close_image_starts_afresh() {
    let state = open_image(ShellState::new(), String::from("floppy.img"), vec![4, 5]).set_cwd(9);
    let state = close_image(state, vec!["close"]);
    assert_eq!(state.bytes, Vec::<u8>::new());
    assert_eq!(state.image_filename(), "");
    assert!(!state.is_file_open());
    assert!(state.is_root());
}

#[test]
fn get_arg_picks_the_argument() {
    let args = vec!["newfile", "host.txt", "GUEST.TXT"];
    assert_eq!(get_arg(&args, 0), Ok(String::from("newfile")));
    assert_eq!(get_arg(&args, 1), Ok(String::from("host.txt")));
    assert_eq!(get_arg(&args, 2), Ok(String::from("GUEST.TXT")));
}

#[test]
fn get_arg_reports_a_missing_argument() {
    let args = vec!["newfile", "host.txt"];
    assert_eq!(get_arg(&args, 2), Err(ArgError::NotEnoughArguments));
    assert_eq!(get_arg(&args, 100), Err(ArgError::NotEnoughArguments));
    assert_eq!(get_arg(&Vec::new(), 0), Err(ArgError::NotEnoughArguments));
}

#[test]
fn session_stores_lists_and_reads_a_file() {
    let state = ShellState::new().set_bytes(fresh_image());
    let content: Vec<u8> = (0..1000).map(|at| (at % 200) as u8).collect();
    let (state, result) = newfile(state, String::from("TEST"), content.clone());
    assert_eq!(result, Ok(()));
    let (state, listed) = list_directory(state);
    let entries = listed.unwrap();
    assert_eq!(entries.len(), 1);
    assert_eq!(&entries[0].name, b"TEST       ");
    assert_eq!(entries[0].size, 1000);
    assert!(!entries[0].is_subdirectory());
    let (state, listed) = list_root_directory(state);
    assert_eq!(listed.unwrap().len(), 1);
    let (state, read) = save_file_to_os(state, String::from("TEST"));
    assert_eq!(read, Ok(content));
    let (_, read) = save_file_to_os(state, String::from("OTHER"));
    assert_eq!(read, Err(FatError::NotFound));
}

#[test]
fn session_works_in_the_current_directory() {
    let state = ShellState::new().set_bytes(fresh_image());
    let (state, result) = make_directory(state, String::from("SUB"));
    assert_eq!(result, Ok(()));
    let state = state.set_cwd(2);
    let (state, result) = newfile(state, String::from("IN"), vec![1, 2, 3]);
    assert_eq!(result, Ok(()));
    let (state, listed) = list_directory(state);
    let entries = listed.unwrap();
    assert_eq!(entries.len(), 1);
    assert_eq!(&entries[0].name, b"IN         ");
    assert_eq!(entries[0].first_cluster, 3);
    let (state, read) = save_file_to_os(state, String::from("IN"));
    assert_eq!(read, Ok(vec![1, 2, 3]));
    let (state, listed) = list_root_directory(state);
    let entries = listed.unwrap();
    assert_eq!(entries.len(), 1);
    assert_eq!(&entries[0].name, b"SUB        ");
    let (_, read) = save_file_to_os(state.set_cwd(0), String::from("IN"));
    assert_eq!(read, Err(FatError::NotFound));
}

#[test]
fn session_without_an_image_reports_a_corrupt_image() {
    let (state, result) = newfile(ShellState::new(), String::from("A"), vec![1]);
    assert_eq!(result, Err(FatError::CorruptImage));
    assert_eq!(state.bytes, Vec::<u8>::new());
    let (state, result) = make_directory(state, String::from("D"));
    assert_eq!(result, Err(FatError::CorruptImage));
    let (state, listed) = list_directory(state);
    assert_eq!(listed.err(), Some(FatError::CorruptImage));
    let (state, listed) = list_root_directory(state);
    assert_eq!(listed.err(), Some(FatError::CorruptImage));
    let (_, read) = save_file_to_os(state, String::from("A"));
    assert_eq!(read, Err(FatError::CorruptImage));
}

#[test]
fn session_in_a_directory_that_is_not_there_reports_a_corrupt_image() {
    let state = ShellState::new().set_bytes(fresh_image()).set_cwd(40);
    let before = state.bytes.clone();
    let (state, result) = newfile(state, String::from("A"), vec![1]);
    assert_eq!(result, Err(FatError::CorruptImage));
    assert_eq!(state.bytes, before);
    let (_, listed) = list_directory(state);
    assert_eq!(listed.err(), Some(FatError::CorruptImage));
}

#[test]
fn reading_a_file_whose_chain_does_not_end_reports_a_corrupt_image() {
    let (image, result) = append_to_root_dir(fresh_image(), String::from("LOOP"), 2, false, 100);
    assert_eq!(result, Ok(()));
    let image = write_to_fat(image, 3, 2);
    let image = write_to_fat(image, 2, 3);
    let (state, read) = save_file_to_os(ShellState::new().set_bytes(image), String::from("LOOP"));
    assert_eq!(read, Err(FatError::CorruptImage));
    let image = write_to_fat(state.bytes, 0xFFF, 3);
    let (_, read) = save_file_to_os(ShellState::new().set_bytes(image), String::from("LOOP"));
    assert_eq!(read, Ok(vec![0u8; 100]));
}

#[test]
fn session_reports_a_full_disk() {
    let state = ShellState::new().set_bytes(vec![0u8; 16896 + 3 * 512]);
    let (state, result) = newfile(state, String::from("ONE"), vec![1; 512]);
    assert_eq!(result, Ok(()));
    let (state, result) = newfile(state, String::from("TWO"), vec![2; 1]);
    assert_eq!(result, Err(FatError::DiskFull));
    let (state, result) = make_directory(state, String::from("DIR"));
    assert_eq!(result, Err(FatError::DiskFull));
    let (_, read) = save_file_to_os(state, String::from("ONE"));
    assert_eq!(read, Ok(vec![1; 512]));
}

#[test]
fn new_image_is_all_zeros_and_open() {
    assert_eq!(BYTES_PER_MEGABYTE, 1 << 20);
    let state = create_new_image(ShellState::new().set_cwd(4), String::from("new.img"), 2);
    assert_eq!(state.bytes.len(), 2 * 1024 * 1024);
    assert!(state.bytes.iter().all(|byte| *byte == 0));
    assert_eq!(state.image_filename(), "new.img");
    assert!(state.is_file_open());
    assert_eq!(state.get_cwd(), 4);
    let state = create_new_image(state, String::from("none.img"), 0);
    assert_eq!(state.bytes, Vec::<u8>::new());
}

#[test]
fn new_image_takes_files() {
    let state = create_new_image(ShellState::new(), String::from("new.img"), 1);
    let (state, result) = newfile(state, String::from("A.TXT"), vec![65; 600]);
    assert_eq!(result, Ok(()));
    let (_, read) = save_file_to_os(state, String::from("A.TXT"));
    assert_eq!(read, Ok(vec![65; 600]));
}
