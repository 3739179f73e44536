//! Replacing the boot sector.

use vstd::prelude::*;
use crate::bios_parameter_block::BYTES_PER_SECTOR;
use crate::buffer::{overwrite, with_bytes_at};
use crate::error::FatError;
use crate::shell_state::ShellState;

verus! {

/// Overwrites the first sector of the image with `boot` and hands the image
/// back.
///
/// A boot image that is not exactly one sector long is refused with
/// `InvalidBootSector`, and the image stays as it was. No byte behind the
/// first sector changes. The image has to hold a first sector.
pub fn patch_boot_sector(bytes: Vec<u8>, boot: &Vec<u8>) -> (out: (Vec<u8>, Result<(), FatError>))
    requires
        bytes.len() >= BYTES_PER_SECTOR,
    ensures
        match out.1 {
            Ok(_) => boot.len() == BYTES_PER_SECTOR && out.0@ == with_bytes_at(bytes@, 0, boot@),
            Err(error) => error == FatError::InvalidBootSector && boot.len() != BYTES_PER_SECTOR
                && out.0@ == bytes@,
        },
{
    if boot.len() != BYTES_PER_SECTOR {
        (bytes, Err(FatError::InvalidBootSector))
    } else {
        (overwrite(bytes, 0, boot), Ok(()))
    }
}

/// Replaces the boot sector of the image of the session by `boot_bytes`.
///
/// A boot image that is not exactly one sector long is refused with
/// `InvalidBootSector`; an image that is shorter than one sector with
/// `CorruptImage`. The session is then as it was.
pub fn edit_bootsector(shell_state: ShellState, boot_bytes: Vec<u8>) -> (out: (
    ShellState,
    Result<(), FatError>,
))
    ensures
        shell_state.same_session(&out.0),
        match out.1 {
            Ok(_) => boot_bytes.len() == BYTES_PER_SECTOR && shell_state.bytes.len()
                >= BYTES_PER_SECTOR && out.0.bytes@ == with_bytes_at(
                shell_state.bytes@,
                0,
                boot_bytes@,
            ),
            Err(error) => out.0.bytes@ == shell_state.bytes@ && if boot_bytes.len()
                != BYTES_PER_SECTOR {
                error == FatError::InvalidBootSector
            } else {
                error == FatError::CorruptImage && shell_state.bytes.len() < BYTES_PER_SECTOR
            },
        },
{
    let mut state = shell_state;
    if boot_bytes.len() != BYTES_PER_SECTOR {
        (state, Err(FatError::InvalidBootSector))
    } else if state.bytes.len() < BYTES_PER_SECTOR {
        (state, Err(FatError::CorruptImage))
    } else {
        let bytes = state.bytes;
        let (image, patched) = patch_boot_sector(bytes, &boot_bytes);
        state.bytes = image;
        (state, patched)
    }
}

} // verus!
