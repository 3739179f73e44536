//! Opening and closing an image.

use vstd::prelude::*;
use crate::shell_state::ShellState;

verus! {

/// Opens an image: the session goes on with `bytes`, the content of the
/// file `image_filename`, as its image.
pub fn open_image(shell_state: ShellState, image_filename: String, bytes: Vec<u8>) -> (state:
    ShellState)
    ensures
        state.bytes == bytes,
        state.spec_image_filename() == image_filename@,
        state.spec_is_file_open(),
        state.spec_get_cwd() == shell_state.spec_get_cwd(),
{
    shell_state.open_file(image_filename, bytes)
}

/// Bytes in one megabyte of a new image.
pub const BYTES_PER_MEGABYTE: usize = 0x10_0000;

/// Creates a new image of `size_in_mb` megabytes, all of it zero, and opens
/// it: the session goes on with it as the image of the file `filename`.
///
/// The size in bytes has to fit a machine word.
pub fn create_new_image(shell_state: ShellState, filename: String, size_in_mb: usize) -> (state:
    ShellState)
    requires
        size_in_mb * BYTES_PER_MEGABYTE <= usize::MAX,
    ensures
        state.bytes@ == Seq::new((size_in_mb * BYTES_PER_MEGABYTE) as nat, |i: int| 0u8),
        state.spec_image_filename() == filename@,
        state.spec_is_file_open(),
        state.spec_get_cwd() == shell_state.spec_get_cwd(),
{
    let len: usize = size_in_mb * BYTES_PER_MEGABYTE;
    let bytes: Vec<u8> = vec![0u8; len];
    assert(bytes@ =~= Seq::new(len as nat, |i: int| 0u8));
    shell_state.open_file(filename, bytes)
}

/// Closes the image: the session starts afresh, with no image open.
pub fn close_image(_shell_state: ShellState, _args: Vec<&str>) -> (state: ShellState)
    ensures
        state.bytes@ == Seq::<u8>::empty(),
        state.spec_image_filename() == Seq::<char>::empty(),
        state.spec_get_cwd() == 0,
        !state.spec_is_file_open(),
{
    ShellState::new()
}

} // verus!
