//! The root directory: the fixed array of slots behind the file allocation
//! table.

use vstd::prelude::*;
use crate::bios_parameter_block::{holds_volume, ROOT_ENTRIES};
use crate::dir_entry::{attribute_byte, DirectoryEntry, entry_record, name_bytes};
use crate::directories::{
    append_to_dir, can_append, enumerate, lists, read_directory_entry, with_appended_entry,
};
use crate::entry_region::{EntryRegion, region_clusters, slot_bytes};
use crate::error::FatError;
use crate::shell_state::ShellState;

verus! {

/// Adds an entry to the root directory, in its first free slot, and hands
/// the image back.
///
/// The call fails with `DirectoryFull`, and leaves the image as it was,
/// where the root directory has no free slot. The image has to hold the
/// volume.
pub fn append_to_root_dir(
    bytes: Vec<u8>,
    newfilename: String,
    first_entry: usize,
    is_subdir: bool,
    size: usize,
) -> (out: (Vec<u8>, Result<(), FatError>))
    requires
        holds_volume(bytes.len() as nat),
    ensures
        out.0.len() == bytes.len(),
        match out.1 {
            Ok(_) => {
                &&& can_append(bytes@, EntryRegion::Root)
                &&& out.0@ == with_appended_entry(
                    bytes@,
                    EntryRegion::Root,
                    entry_record(
                        name_bytes(newfilename@),
                        attribute_byte(is_subdir),
                        first_entry as int,
                        size as int,
                    ),
                )
            },
            Err(error) => {
                &&& error == FatError::DirectoryFull
                &&& !can_append(bytes@, EntryRegion::Root)
                &&& out.0@ == bytes@
            },
        },
{
    append_to_dir(bytes, newfilename, first_entry, is_subdir, EntryRegion::Root, size)
}

/// Copies the 32-byte record in slot `root_entry` of the root directory out
/// of the image.
///
/// The image has to hold the volume, and the root directory has to have such
/// a slot.
pub fn read_root_entry(bytes: &Vec<u8>, root_entry: usize) -> (record: Vec<u8>)
    requires
        holds_volume(bytes.len() as nat),
        root_entry < ROOT_ENTRIES,
    ensures
        record@ == slot_bytes(bytes@, EntryRegion::Root, root_entry as int),
        record.len() == 32,
{
    read_directory_entry(bytes, EntryRegion::Root, root_entry)
}

/// Lists the entries of the root directory, in the order of their slots, or
/// fails with `CorruptImage` where the image does not hold the volume. The
/// session stays as it was.
pub fn list_root_directory(shell_state: ShellState) -> (out: (
    ShellState,
    Result<Vec<DirectoryEntry>, FatError>,
))
    ensures
        out.0 == shell_state,
        match out.1 {
            Ok(entries) => {
                &&& holds_volume(shell_state.bytes.len() as nat)
                &&& lists(entries@, shell_state.bytes@, EntryRegion::Root)
            },
            Err(error) => {
                &&& error == FatError::CorruptImage
                &&& !holds_volume(shell_state.bytes.len() as nat)
            },
        },
{
    if region_clusters(&shell_state.bytes, EntryRegion::Root).is_none() {
        return (shell_state, Err(FatError::CorruptImage));
    }
    let entries: Vec<DirectoryEntry> = enumerate(&shell_state.bytes, EntryRegion::Root);
    (shell_state, Ok(entries))
}

} // verus!
