use fat12::bios_parameter_block::TOTAL_SECTORS;
use fat12::bootsector::{edit_bootsector, patch_boot_sector};
use fat12::error::FatError;
use fat12::shell_state::ShellState;

fn marked_image() -> Vec<u8> {
    (0..TOTAL_SECTORS * 512).map(|at| (at % 253) as u8).collect()
}

#[test]
fn boot_image_of_511_bytes_is_refused() {
    let before = marked_image();
    let (image, result) = patch_boot_sector(before.clone(), &vec![0xEBu8; 511]);
    assert_eq!(result, Err(FatError::InvalidBootSector));
    assert_eq!(image[..512], before[..512]);
    assert_eq!(image, before);
}

#[test]
fn boot_image_of_513_bytes_is_refused() {
    let before = marked_image();
    let (image, result) = patch_boot_sector(before.clone(), &vec![0xEBu8; 513]);
    assert_eq!(result, Err(FatError::InvalidBootSector));
    assert_eq!(image[..512], before[..512]);
    assert_eq!(image, before);
}

#[test]
fn empty_boot_image_is_refused() {
    let before = marked_image();
    let (image, result) = patch_boot_sector(before.clone(), &Vec::new());
    assert_eq!(result, Err(FatError::InvalidBootSector));
    assert_eq!(image, before);
}

#[test]
fn boot_image_of_one_sector_replaces_the_first_sector_only() {
    let before = marked_image();
    let boot: Vec<u8> = (0..512).map(|at| (255 - at % 256) as u8).collect();
    let (image, result) = patch_boot_sector(before.clone(), &boot);
    assert_eq!(result, Ok(()));
    assert_eq!(image.len(), before.len());
    assert_eq!(image[..512], boot[..]);
    assert_eq!(image[512..], before[512..]);
}

#[test]
fn boot_sector_of_an_image_of_one_sector_can_be_replaced() {
    let (image, result) = patch_boot_sector(vec![0u8; 512], &vec![7u8; 512]);
    assert_eq!(result, Ok(()));
    assert_eq!(image, vec![7u8; 512]);
}

#[test]
fn session_replaces_the_boot_sector() {
    let before = marked_image();
    let state = ShellState::new().set_bytes(before.clone()).set_cwd(5);
    let (state, result) = edit_bootsector(state, vec![0x90u8; 512]);
    assert_eq!(result, Ok(()));
    assert_eq!(state.bytes[..512], [0x90u8; 512]);
    assert_eq!(state.bytes[512..], before[512..]);
    assert_eq!(state.get_cwd(), 5);
    let (state, result) = edit_bootsector(state, vec![0x90u8; 10]);
    assert_eq!(result, Err(FatError::InvalidBootSector));
    assert_eq!(state.bytes[..512], [0x90u8; 512]);
}

#[test]
fn session_without_an_image_cannot_take_a_boot_sector() {
    let (state, result) = edit_bootsector(ShellState::new(), vec![0u8; 512]);
    assert_eq!(result, Err(FatError::CorruptImage));
    assert_eq!(state.bytes, Vec::<u8>::new());
    let (state, result) = edit_bootsector(state, vec![0u8; 511]);
    assert_eq!(result, Err(FatError::InvalidBootSector));
    assert_eq!(state.bytes, Vec::<u8>::new());
}
