//! The state of a session: the image that is open, and the directory that
//! commands work in.

use vstd::prelude::*;
use crate::entry_region::EntryRegion;

verus! {

/// The state of a session.
pub struct ShellState {
    /// The name of the file that the image was opened from.
    pub image_filename: String,
    /// The bytes of the image that is open; empty where none is.
    pub bytes: Vec<u8>,
    /// The first cluster of the current directory; 0 stands for the root
    /// directory.
    pub cwd_cluster: usize,
    /// Whether an image is open.
    pub is_file_open: bool,
}

impl ShellState {
    /// The name of the file that the image was opened from.
    pub open spec fn spec_image_filename(&self) -> Seq<char> {
        self.image_filename@
    }

    /// The first cluster of the current directory; 0 stands for the root
    /// directory.
    pub open spec fn spec_get_cwd(&self) -> usize {
        self.cwd_cluster
    }

    /// Whether an image is open.
    pub open spec fn spec_is_file_open(&self) -> bool {
        self.is_file_open
    }

    /// Whether the current directory is the root directory.
    pub open spec fn spec_is_root(&self) -> bool {
        self.spec_get_cwd() == 0
    }

    /// The region of the current directory.
    pub open spec fn spec_region(&self) -> EntryRegion {
        if self.spec_get_cwd() == 0 {
            EntryRegion::Root
        } else {
            EntryRegion::Subdirectory { first_cluster: self.spec_get_cwd() }
        }
    }

    /// Whether `other` is this state but for the bytes of the image.
    pub open spec fn same_session(&self, other: &ShellState) -> bool {
        &&& other.spec_image_filename() == self.spec_image_filename()
        &&& other.spec_get_cwd() == self.spec_get_cwd()
        &&& other.spec_is_file_open() == self.spec_is_file_open()
    }

    /// A session with no image open, in the root directory.
    pub fn new() -> (state: Self)
        ensures
            state.bytes@ == Seq::<u8>::empty(),
            state.spec_image_filename() == Seq::<char>::empty(),
            state.spec_get_cwd() == 0,
            !state.spec_is_file_open(),
    {
        ShellState {
            image_filename: String::default(),
            bytes: Vec::new(),
            cwd_cluster: 0,
            is_file_open: false,
        }
    }

    /// The session with `bytes` as the image.
    pub fn set_bytes(self, bytes: Vec<u8>) -> (state: Self)
        ensures
            state.bytes == bytes,
            self.same_session(&state),
    {
        let mut state = self;
        state.bytes = bytes;
        state
    }

    /// The session with the directory whose chain starts at `cwd` as the
    /// current one; 0 stands for the root directory.
    pub fn set_cwd(self, cwd: usize) -> (state: Self)
        ensures
            state.bytes == self.bytes,
            state.spec_get_cwd() == cwd,
            state.spec_image_filename() == self.spec_image_filename(),
            state.spec_is_file_open() == self.spec_is_file_open(),
    {
        let mut state = self;
        state.cwd_cluster = cwd;
        state
    }

    /// The session with the image `bytes`, read from the file `filename`,
    /// open.
    pub fn open_file(self, filename: String, bytes: Vec<u8>) -> (state: Self)
        ensures
            state.bytes == bytes,
            state.spec_image_filename() == filename@,
            state.spec_is_file_open(),
            state.spec_get_cwd() == self.spec_get_cwd(),
    {
        let mut state = self.set_bytes(bytes);
        state.image_filename = filename;
        state.is_file_open = true;
        state
    }

    /// Whether the current directory is the root directory.
    #[verifier::when_used_as_spec(spec_is_root)]
    pub fn is_root(&self) -> (root: bool)
        ensures
            root == self.spec_is_root(),
    {
        self.cwd_cluster == 0
    }

    /// The first cluster of the current directory; 0 stands for the root
    /// directory.
    #[verifier::when_used_as_spec(spec_get_cwd)]
    pub fn get_cwd(&self) -> (cwd: usize)
        ensures
            cwd == self.spec_get_cwd(),
    {
        self.cwd_cluster
    }

    /// Whether an image is open.
    #[verifier::when_used_as_spec(spec_is_file_open)]
    pub fn is_file_open(&self) -> (open: bool)
        ensures
            open == self.spec_is_file_open(),
    {
        self.is_file_open
    }

    /// The name of the file that the image was opened from.
    pub fn image_filename(&self) -> (filename: &String)
        ensures
            filename@ == self.spec_image_filename(),
    {
        &self.image_filename
    }

    /// The region of the current directory.
    #[verifier::when_used_as_spec(spec_region)]
    pub fn region(&self) -> (region: EntryRegion)
        ensures
            region == self.spec_region(),
    {
        if self.cwd_cluster == 0 {
            EntryRegion::Root
        } else {
            EntryRegion::Subdirectory { first_cluster: self.cwd_cluster }
        }
    }
}

} // verus!
