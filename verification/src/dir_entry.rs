//! The 32-byte directory record.
//!
//! Bytes 0 to 10 hold the name, padded with spaces; byte 11 the attributes;
//! bytes 26 and 27 the first cluster, high byte first; bytes 28 to 31 the
//! size in bytes, low byte first. The other bytes are zero.

use vstd::prelude::*;
use vstd::utf8::encode_utf8;
use crate::bios_parameter_block::BYTES_PER_DIRECTORY_ENTRY;

verus! {

/// Bytes in the name field of a record.
pub const NAME_LEN: usize = 11;

/// The attribute bit that marks a subdirectory.
pub const ATTR_SUBDIRECTORY: u8 = 0x08;

/// The first byte of a slot that was never used.
pub const SLOT_NEVER_USED: u8 = 0x00;

/// The first byte of a slot whose entry was deleted.
pub const SLOT_DELETED: u8 = 0xE5;

/// What a directory slot in use says about a file or a subdirectory.
#[derive(Clone, Copy, Debug)]
pub struct DirectoryEntry {
    /// The name field, as it stands in the record.
    pub name: [u8; 11],
    /// The attribute byte.
    pub attributes: u8,
    /// The first cluster of the chain that holds the data.
    pub first_cluster: u16,
    /// The size of the data in bytes.
    pub size: u32,
}

/// The bytes of a name as they are stored.
pub open spec fn name_bytes(name: Seq<char>) -> Seq<u8> {
    encode_utf8(name)
}

/// The name field for a name: its first 11 bytes, padded with spaces.
pub open spec fn short_name(name: Seq<u8>) -> Seq<u8> {
    Seq::new(
        NAME_LEN as nat,
        |i: int|
            if i < name.len() {
                name[i]
            } else {
                0x20u8
            },
    )
}

/// The attribute byte of a new entry.
pub open spec fn attribute_byte(is_subdir: bool) -> u8 {
    if is_subdir {
        ATTR_SUBDIRECTORY
    } else {
        0u8
    }
}

/// The record for an entry: the name field of `name`, the attributes, the
/// low 16 bits of `first_cluster`, the low 32 bits of `size`, and zeros
/// elsewhere.
#[verifier::opaque]
pub open spec fn entry_record(name: Seq<u8>, attributes: u8, first_cluster: int, size: int) -> Seq<
    u8,
> {
    Seq::new(
        BYTES_PER_DIRECTORY_ENTRY as nat,
        |i: int|
            if i < NAME_LEN {
                short_name(name)[i]
            } else if i == 11 {
                attributes
            } else if i == 26 {
                ((first_cluster / 0x100) % 0x100) as u8
            } else if i == 27 {
                (first_cluster % 0x100) as u8
            } else if i == 28 {
                (size % 0x100) as u8
            } else if i == 29 {
                ((size / 0x100) % 0x100) as u8
            } else if i == 30 {
                ((size / 0x1_0000) % 0x100) as u8
            } else if i == 31 {
                ((size / 0x100_0000) % 0x100) as u8
            } else {
                0u8
            },
    )
}

/// The first cluster that a record names.
pub open spec fn record_first_cluster(raw: Seq<u8>) -> int {
    raw[26] as int * 0x100 + raw[27] as int
}

/// The size that a record gives.
pub open spec fn record_size(raw: Seq<u8>) -> int {
    raw[28] as int + raw[29] as int * 0x100 + raw[30] as int * 0x1_0000 + raw[31] as int
        * 0x100_0000
}

/// Whether the first byte of a slot marks the slot as free: never used, or
/// deleted.
pub open spec fn is_free_marker(first: u8) -> bool {
    first == SLOT_NEVER_USED || first == SLOT_DELETED
}

impl DirectoryEntry {
    /// Whether this entry says what the record `raw` holds.
    pub open spec fn describes(self, raw: Seq<u8>) -> bool {
        &&& self.name@ == raw.subrange(0, NAME_LEN as int)
        &&& self.attributes == raw[11]
        &&& self.first_cluster == record_first_cluster(raw)
        &&& self.size == record_size(raw)
    }

    /// Whether the entry stands for a subdirectory.
    pub open spec fn spec_is_subdirectory(self) -> bool {
        self.attributes as int / 8 % 2 == 1
    }

    /// Whether the entry stands for a subdirectory: attribute bit 0x08.
    #[verifier::when_used_as_spec(spec_is_subdirectory)]
    pub fn is_subdirectory(self) -> (subdir: bool)
        ensures
            subdir == self.spec_is_subdirectory(),
    {
        let attributes: u8 = self.attributes;
        assert((attributes & 0x08 != 0) == (attributes / 8 % 2 == 1)) by (bit_vector);
        self.attributes & ATTR_SUBDIRECTORY != 0
    }
}

/// A record read back gives the name field, the attributes, the low 16 bits
/// of the first cluster and the low 32 bits of the size that it was made
/// from.
pub proof fn lemma_record_reads_back(name: Seq<u8>, attributes: u8, first_cluster: int, size: int)
    requires
        0 <= first_cluster <= u64::MAX,
        0 <= size <= u64::MAX,
    ensures
        entry_record(name, attributes, first_cluster, size).len() == BYTES_PER_DIRECTORY_ENTRY,
        entry_record(name, attributes, first_cluster, size).subrange(0, NAME_LEN as int)
            == short_name(name),
        entry_record(name, attributes, first_cluster, size)[11] == attributes,
        record_first_cluster(entry_record(name, attributes, first_cluster, size)) == first_cluster
            % 0x1_0000,
        record_size(entry_record(name, attributes, first_cluster, size)) == size % 0x1_0000_0000,
        forall|i: int|
            12 <= i < 26 ==> #[trigger] entry_record(name, attributes, first_cluster, size)[i] == 0,
{
    reveal(entry_record);
    let raw = entry_record(name, attributes, first_cluster, size);
    assert(raw.subrange(0, NAME_LEN as int) =~= short_name(name));
    assert(raw[26] == (first_cluster / 0x100) % 0x100);
    assert(raw[27] == first_cluster % 0x100);
    assert(raw[28] == size % 0x100);
    assert(raw[29] == (size / 0x100) % 0x100);
    assert(raw[30] == (size / 0x1_0000) % 0x100);
    assert(raw[31] == (size / 0x100_0000) % 0x100);
    let c = first_cluster as u64;
    assert(((c / 0x100) % 0x100) * 0x100 + c % 0x100 == c % 0x1_0000) by (bit_vector);
    let s = size as u64;
    assert(s % 0x100 + ((s / 0x100) % 0x100) * 0x100 + ((s / 0x1_0000) % 0x100) * 0x1_0000 + ((s
        / 0x100_0000) % 0x100) * 0x100_0000 == s % 0x1_0000_0000) by (bit_vector);
}

/// Builds the record for an entry.
pub fn build_record(name: &[u8], attributes: u8, first_cluster: usize, size: usize) -> (record:
    Vec<u8>)
    ensures
        record@ == entry_record(name@, attributes, first_cluster as int, size as int),
        record.len() == BYTES_PER_DIRECTORY_ENTRY,
{
    proof {
        reveal(entry_record);
    }
    let mut record: Vec<u8> = Vec::new();
    let mut at: usize = 0;
    while at < BYTES_PER_DIRECTORY_ENTRY
        invariant
            at <= BYTES_PER_DIRECTORY_ENTRY,
            record.len() == at,
            forall|i: int|
                0 <= i < at ==> record@[i] == entry_record(
                    name@,
                    attributes,
                    first_cluster as int,
                    size as int,
                )[i],
        decreases BYTES_PER_DIRECTORY_ENTRY - at,
    {
        let byte: u8 = if at < NAME_LEN {
            if at < name.len() {
                name[at]
            } else {
                0x20u8
            }
        } else if at == 11 {
            attributes
        } else if at == 26 {
            ((first_cluster / 0x100) % 0x100) as u8
        } else if at == 27 {
            (first_cluster % 0x100) as u8
        } else if at == 28 {
            (size % 0x100) as u8
        } else if at == 29 {
            ((size / 0x100) % 0x100) as u8
        } else if at == 30 {
            ((size / 0x1_0000) % 0x100) as u8
        } else if at == 31 {
            ((size / 0x100_0000) % 0x100) as u8
        } else {
            0u8
        };
        proof {
            reveal(entry_record);
        }
        record.push(byte);
        at = at + 1;
    }
    assert(record@ =~= entry_record(name@, attributes, first_cluster as int, size as int)) by {
        reveal(entry_record);
    }
    record
}

/// Reads an entry out of a record.
pub fn parse_record(raw: &Vec<u8>) -> (entry: DirectoryEntry)
    requires
        raw.len() == BYTES_PER_DIRECTORY_ENTRY,
    ensures
        entry.describes(raw@),
{
    let mut name: [u8; 11] = [0x20u8; 11];
    let mut at: usize = 0;
    while at < NAME_LEN
        invariant
            at <= NAME_LEN,
            raw.len() == BYTES_PER_DIRECTORY_ENTRY,
            forall|i: int| 0 <= i < at ==> name@[i] == raw@[i],
        decreases NAME_LEN - at,
    {
        name[at] = raw[at];
        at = at + 1;
    }
    assert(name@ =~= raw@.subrange(0, NAME_LEN as int));
    let first_cluster: u16 = (raw[26] as u16) * 0x100 + raw[27] as u16;
    let size: u32 = raw[28] as u32 + (raw[29] as u32) * 0x100 + (raw[30] as u32) * 0x1_0000 + (
    raw[31] as u32) * 0x100_0000;
    DirectoryEntry { name, attributes: raw[11], first_cluster, size }
}

} // verus!
