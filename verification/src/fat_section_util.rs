//! Reading and writing single entries of the file allocation table.
//!
//! The table is an array of 12-bit entries, one per cluster, packed two to
//! every three bytes. An even entry takes a whole byte and the upper half of
//! the next one; the odd entry behind it takes the lower half of that byte and
//! the whole byte that follows. The table is stored twice; reads use the first
//! copy and writes change both.

use vstd::prelude::*;
use crate::bios_parameter_block::{
    BYTES_PER_SECTOR, fat_copy_len, fat_entry_count, fat_region_start, holds_volume, NUMBER_FATS,
    RESERVED_SECTORS, root_region_start, SECTORS_PER_FAT,
};

verus! {

/// The entry value that marks a cluster as free.
pub const FREE_CLUSTER: usize = 0;

/// The entry value that this engine writes at the end of a chain.
pub const END_OF_CHAIN: usize = 0xFFF;

/// The lowest entry value that marks the end of a chain.
pub const FIRST_END_OF_CHAIN: usize = 0xFF8;

/// The entry value that marks a cluster as bad. This engine never writes it;
/// a cluster so marked is never handed out, and a chain that runs into it
/// does not end.
pub const BAD_CLUSTER: usize = 0xFF7;

/// Whether an entry value marks the end of a chain.
pub open spec fn is_end_of_chain(value: int) -> bool {
    FIRST_END_OF_CHAIN <= value <= END_OF_CHAIN
}

/// Whether an entry value marks the end of a chain.
pub fn marks_end_of_chain(value: usize) -> (end: bool)
    ensures
        end == is_end_of_chain(value as int),
{
    FIRST_END_OF_CHAIN <= value && value <= END_OF_CHAIN
}

/// Byte offset of copy `copy` of the table.
pub open spec fn fat_copy_start(copy: int) -> int {
    fat_region_start() + copy * fat_copy_len()
}

/// Offset, inside a copy of the table, of the first of the two bytes that
/// hold entry `index`.
pub open spec fn entry_byte(index: int) -> int {
    index * 3 / 2
}

/// The value of entry `index`, read from its two bytes.
pub open spec fn unpack_entry(index: int, first: u8, second: u8) -> int {
    if index % 2 == 0 {
        first as int * 16 + second as int / 16
    } else {
        (first as int % 16) * 256 + second as int
    }
}

/// The first byte of entry `index` once the entry holds the 12-bit value
/// `low`: of an odd entry, the upper half of the byte stays as it was.
pub open spec fn pack_first(index: int, low: int, first: u8) -> u8 {
    if index % 2 == 0 {
        (low / 16) as u8
    } else {
        ((first as int / 16) * 16 + low / 256) as u8
    }
}

/// The second byte of entry `index` once the entry holds the 12-bit value
/// `low`: of an even entry, the lower half of the byte stays as it was.
pub open spec fn pack_second(index: int, low: int, second: u8) -> u8 {
    if index % 2 == 0 {
        ((low % 16) * 16 + second as int % 16) as u8
    } else {
        (low % 256) as u8
    }
}

/// Packing a 12-bit value and unpacking it again gives the value, and the
/// half byte that belongs to the neighbouring entry stays as it was.
pub proof fn lemma_pack_unpack(index: int, low: int, first: u8, second: u8)
    requires
        0 <= low < 4096,
    ensures
        unpack_entry(index, pack_first(index, low, first), pack_second(index, low, second)) == low,
        index % 2 == 0 ==> pack_second(index, low, second) as int % 16 == second as int % 16,
        index % 2 != 0 ==> pack_first(index, low, first) as int / 16 == first as int / 16,
{
    if index % 2 == 0 {
        let high = low / 16;
        let rest = low % 16;
        let kept = second as int % 16;
        assert(0 <= high < 256);
        assert(pack_first(index, low, first) == high);
        assert(0 <= rest * 16 + kept < 256);
        assert(pack_second(index, low, second) == rest * 16 + kept);
        assert((rest * 16 + kept) / 16 == rest);
        assert((rest * 16 + kept) % 16 == kept);
        assert(high * 16 + rest == low);
    } else {
        let high = low / 256;
        let rest = low % 256;
        let kept = first as int / 16;
        assert(0 <= high < 16);
        assert(0 <= kept * 16 + high < 256);
        assert(pack_first(index, low, first) == kept * 16 + high);
        assert(pack_second(index, low, second) == rest);
        assert((kept * 16 + high) % 16 == high);
        assert((kept * 16 + high) / 16 == kept);
        assert(high * 256 + rest == low);
    }
}

/// Entry `index` of copy `copy` of the table.
#[verifier::opaque]
pub open spec fn fat_copy_entry(image: Seq<u8>, copy: int, index: int) -> int {
    let at = fat_copy_start(copy) + entry_byte(index);
    unpack_entry(index, image[at], image[at + 1])
}

/// Entry `index` of the table, as reads see it.
pub open spec fn fat_entry(image: Seq<u8>, index: int) -> int {
    fat_copy_entry(image, 0, index)
}

/// The image with entry `index` of copy `copy` set to the low 12 bits of
/// `value`.
#[verifier::opaque]
pub open spec fn with_fat_copy_entry(image: Seq<u8>, copy: int, index: int, value: int) -> Seq<u8> {
    let at = fat_copy_start(copy) + entry_byte(index);
    let low = value % 4096;
    image.update(at, pack_first(index, low, image[at])).update(
        at + 1,
        pack_second(index, low, image[at + 1]),
    )
}

/// The image with entry `index` set to the low 12 bits of `value` in both
/// copies of the table.
pub open spec fn with_fat_entry(image: Seq<u8>, index: int, value: int) -> Seq<u8> {
    with_fat_copy_entry(with_fat_copy_entry(image, 0, index, value), 1, index, value)
}

/// The two bytes of an entry lie inside its copy of the table.
pub proof fn lemma_entry_bytes_in_copy(copy: int, index: int)
    requires
        0 <= copy < NUMBER_FATS,
        0 <= index < fat_entry_count(),
    ensures
        fat_copy_start(copy) <= fat_copy_start(copy) + entry_byte(index),
        fat_copy_start(copy) + entry_byte(index) + 1 < fat_copy_start(copy) + fat_copy_len(),
        fat_copy_start(copy) + fat_copy_len() <= root_region_start(),
{
}

/// An entry that was just written reads back as the low 12 bits of the value.
pub proof fn lemma_copy_entry_written(image: Seq<u8>, copy: int, index: int, value: int)
    requires
        holds_volume(image.len()),
        0 <= copy < NUMBER_FATS,
        0 <= index < fat_entry_count(),
    ensures
        with_fat_copy_entry(image, copy, index, value).len() == image.len(),
        fat_copy_entry(with_fat_copy_entry(image, copy, index, value), copy, index) == value % 4096,
{
    reveal(fat_copy_entry);
    reveal(with_fat_copy_entry);
    let at = fat_copy_start(copy) + entry_byte(index);
    lemma_entry_bytes_in_copy(copy, index);
    lemma_pack_unpack(index, value % 4096, image[at], image[at + 1]);
    let after = with_fat_copy_entry(image, copy, index, value);
    assert(after[at] == pack_first(index, value % 4096, image[at]));
    assert(after[at + 1] == pack_second(index, value % 4096, image[at + 1]));
}

/// Writing an entry of one copy leaves every other entry of both copies as
/// it was.
pub proof fn lemma_copy_entry_kept(
    image: Seq<u8>,
    copy: int,
    index: int,
    value: int,
    other_copy: int,
    other: int,
)
    requires
        holds_volume(image.len()),
        0 <= copy < NUMBER_FATS,
        0 <= other_copy < NUMBER_FATS,
        0 <= index < fat_entry_count(),
        0 <= other < fat_entry_count(),
        other_copy != copy || other != index,
    ensures
        fat_copy_entry(with_fat_copy_entry(image, copy, index, value), other_copy, other)
            == fat_copy_entry(image, other_copy, other),
{
    reveal(fat_copy_entry);
    reveal(with_fat_copy_entry);
    let at = fat_copy_start(copy) + entry_byte(index);
    let there = fat_copy_start(other_copy) + entry_byte(other);
    let after = with_fat_copy_entry(image, copy, index, value);
    lemma_entry_bytes_in_copy(copy, index);
    lemma_entry_bytes_in_copy(other_copy, other);
    lemma_pack_unpack(index, value % 4096, image[at], image[at + 1]);
    assert(after[at] == pack_first(index, value % 4096, image[at]));
    assert(after[at + 1] == pack_second(index, value % 4096, image[at + 1]));
    if other_copy == copy {
        if other == index + 1 && index % 2 == 0 {
            assert(there == at + 1);
            assert(after[there + 1] == image[there + 1]);
        } else if other + 1 == index && index % 2 != 0 {
            assert(there + 1 == at);
            assert(after[there] == image[there]);
        } else {
            assert(there != at && there != at + 1 && there + 1 != at && there + 1 != at + 1);
            assert(after[there] == image[there]);
            assert(after[there + 1] == image[there + 1]);
        }
    } else {
        assert(there != at && there != at + 1 && there + 1 != at && there + 1 != at + 1);
        assert(after[there] == image[there]);
        assert(after[there + 1] == image[there + 1]);
    }
}

/// Whatever is written to an entry, reading that entry gives the low 12 bits
/// of it, in both copies of the table: a 12-bit value reads back as it was
/// written, at even and at odd indices.
pub proof fn lemma_write_then_read(image: Seq<u8>, index: int, value: int)
    requires
        holds_volume(image.len()),
        0 <= index < fat_entry_count(),
    ensures
        with_fat_entry(image, index, value).len() == image.len(),
        fat_entry(with_fat_entry(image, index, value), index) == value % 4096,
        fat_copy_entry(with_fat_entry(image, index, value), 1, index) == value % 4096,
        0 <= value <= 0xFFF ==> fat_entry(with_fat_entry(image, index, value), index) == value,
{
    let once = with_fat_copy_entry(image, 0, index, value);
    lemma_copy_entry_written(image, 0, index, value);
    lemma_copy_entry_written(once, 1, index, value);
    lemma_copy_entry_kept(once, 1, index, value, 0, index);
}

/// Writing an entry leaves every other entry as it was, the two neighbours
/// that share a byte with it included, in both copies of the table.
pub proof fn lemma_write_keeps_other_entries(image: Seq<u8>, index: int, value: int, other: int)
    requires
        holds_volume(image.len()),
        0 <= index < fat_entry_count(),
        0 <= other < fat_entry_count(),
        other != index,
    ensures
        fat_entry(with_fat_entry(image, index, value), other) == fat_entry(image, other),
        fat_copy_entry(with_fat_entry(image, index, value), 1, other) == fat_copy_entry(
            image,
            1,
            other,
        ),
{
    let once = with_fat_copy_entry(image, 0, index, value);
    lemma_copy_entry_written(image, 0, index, value);
    lemma_copy_entry_kept(image, 0, index, value, 0, other);
    lemma_copy_entry_kept(image, 0, index, value, 1, other);
    lemma_copy_entry_kept(once, 1, index, value, 0, other);
    lemma_copy_entry_kept(once, 1, index, value, 1, other);
}

/// Writing an entry leaves every byte outside the two copies of the table as
/// it was.
pub proof fn lemma_write_keeps_other_regions(image: Seq<u8>, index: int, value: int)
    requires
        holds_volume(image.len()),
        0 <= index < fat_entry_count(),
    ensures
        with_fat_entry(image, index, value).len() == image.len(),
        forall|at: int|
            0 <= at < image.len() && !(fat_region_start() <= at < root_region_start())
                ==> #[trigger] with_fat_entry(image, index, value)[at] == image[at],
{
    reveal(with_fat_copy_entry);
    lemma_entry_bytes_in_copy(0, index);
    lemma_entry_bytes_in_copy(1, index);
}

/// All that writing an entry does: the entry holds the low 12 bits of the
/// value in both copies of the table, every other entry is as it was, and
/// so is every byte outside the table.
pub proof fn lemma_write_effect(image: Seq<u8>, index: int, value: int)
    requires
        holds_volume(image.len()),
        0 <= index < fat_entry_count(),
    ensures
        with_fat_entry(image, index, value).len() == image.len(),
        forall|copy: int|
            0 <= copy < NUMBER_FATS ==> #[trigger] fat_copy_entry(
                with_fat_entry(image, index, value),
                copy,
                index,
            ) == value % 4096,
        forall|copy: int, other: int|
            0 <= copy < NUMBER_FATS && 0 <= other < fat_entry_count() && other != index
                ==> #[trigger] fat_copy_entry(with_fat_entry(image, index, value), copy, other)
                == fat_copy_entry(image, copy, other),
        forall|at: int|
            0 <= at < image.len() && !(fat_region_start() <= at < root_region_start())
                ==> #[trigger] with_fat_entry(image, index, value)[at] == image[at],
{
    lemma_write_then_read(image, index, value);
    lemma_write_keeps_other_regions(image, index, value);
    assert forall|copy: int, other: int|
        0 <= copy < NUMBER_FATS && 0 <= other < fat_entry_count() && other != index
            implies #[trigger] fat_copy_entry(with_fat_entry(image, index, value), copy, other)
        == fat_copy_entry(image, copy, other) by {
        lemma_write_keeps_other_entries(image, index, value, other);
    }
}

/// The entries of a copy of the table fix its bytes: two images whose copies
/// hold the same entries hold the same bytes there.
pub proof fn lemma_entries_fix_bytes(one: Seq<u8>, other: Seq<u8>, copy: int)
    requires
        holds_volume(one.len()),
        other.len() == one.len(),
        0 <= copy < NUMBER_FATS,
        forall|index: int|
            0 <= index < fat_entry_count() ==> #[trigger] fat_copy_entry(one, copy, index)
                == fat_copy_entry(other, copy, index),
    ensures
        forall|at: int|
            fat_copy_start(copy) <= at < fat_copy_start(copy) + fat_copy_len() ==> one[at]
                == other[at],
{
    assert forall|at: int|
        fat_copy_start(copy) <= at < fat_copy_start(copy) + fat_copy_len() implies one[at]
        == other[at] by {
        reveal(fat_copy_entry);
        let start = fat_copy_start(copy);
        let pair = (at - start) / 3;
        let even = 2 * pair;
        let odd = 2 * pair + 1;
        assert(entry_byte(even) == 3 * pair);
        assert(entry_byte(odd) == 3 * pair + 1);
        assert(fat_copy_entry(one, copy, even) == fat_copy_entry(other, copy, even));
        assert(fat_copy_entry(one, copy, odd) == fat_copy_entry(other, copy, odd));
        let first = start + 3 * pair;
        assert(one[first] as int * 16 + one[first + 1] as int / 16 == other[first] as int * 16
            + other[first + 1] as int / 16);
        assert((one[first + 1] as int % 16) * 256 + one[first + 2] as int == (other[first
            + 1] as int % 16) * 256 + other[first + 2] as int);
        assert(one[first] == other[first]);
        assert(one[first + 2] == other[first + 2]);
        assert(one[first + 1] as int / 16 == other[first + 1] as int / 16);
        assert(one[first + 1] as int % 16 == other[first + 1] as int % 16);
        assert(one[first + 1] == other[first + 1]);
    }
}

/// Every entry is a 12-bit value.
pub proof fn lemma_entry_is_12_bits(image: Seq<u8>, copy: int, index: int)
    ensures
        0 <= fat_copy_entry(image, copy, index) <= 0xFFF,
{
    reveal(fat_copy_entry);
}

/// Sets entry `index` of copy `copy` of the table to the low 12 bits of
/// `value`.
fn set_copy_entry(bytes: Vec<u8>, copy: usize, index: usize, value: usize) -> (image: Vec<u8>)
    requires
        holds_volume(bytes.len() as nat),
        copy < NUMBER_FATS,
        index < fat_entry_count(),
    ensures
        image@ == with_fat_copy_entry(bytes@, copy as int, index as int, value as int),
        image.len() == bytes.len(),
{
    let mut bytes = bytes;
    let at: usize = RESERVED_SECTORS * BYTES_PER_SECTOR + copy * (SECTORS_PER_FAT
        * BYTES_PER_SECTOR) + index * 3 / 2;
    let first: u8 = bytes[at];
    let second: u8 = bytes[at + 1];
    let low: usize = value & 0xFFF;
    assert(low == value % 4096) by (bit_vector)
        requires
            low == value & 0xFFF,
    ;
    let ghost before = bytes@;
    if index % 2 == 0 {
        let new_first: u8 = (low >> 4) as u8;
        let new_second: u8 = (((low & 0x0F) << 4) as u8) | (second & 0x0F);
        assert(new_first == low / 16 && new_second == (low % 16) * 16 + second % 16)
            by (bit_vector)
            requires
                low <= 0xFFF,
                new_first == (low >> 4) as u8,
                new_second == (((low & 0x0F) << 4) as u8) | (second & 0x0F),
        ;
        bytes[at] = new_first;
        bytes[at + 1] = new_second;
    } else {
        let new_first: u8 = (first & 0xF0) | ((low >> 8) as u8);
        let new_second: u8 = (low & 0xFF) as u8;
        assert(new_first == (first / 16) * 16 + low / 256 && new_second == low % 256)
            by (bit_vector)
            requires
                low <= 0xFFF,
                new_first == (first & 0xF0) | ((low >> 8) as u8),
                new_second == (low & 0xFF) as u8,
        ;
        bytes[at] = new_first;
        bytes[at + 1] = new_second;
    }
    assert(bytes@ =~= with_fat_copy_entry(before, copy as int, index as int, value as int)) by {
        reveal(with_fat_copy_entry);
    }
    bytes
}

/// Reads entry `entry_num` of the file allocation table.
///
/// The buffer has to hold the table, and the table has to have such an entry.
pub fn get_fat_entry(bytes: &Vec<u8>, entry_num: usize) -> (value: usize)
    requires
        holds_volume(bytes.len() as nat),
        entry_num < fat_entry_count(),
    ensures
        value == fat_entry(bytes@, entry_num as int),
        value <= 0xFFF,
{
    proof {
        reveal(fat_copy_entry);
    }
    let fat_start: usize = RESERVED_SECTORS * BYTES_PER_SECTOR;
    let entry_start_byte: usize = fat_start + entry_num * 3 / 2;
    let first: u8 = bytes[entry_start_byte];
    let second: u8 = bytes[entry_start_byte + 1];
    if entry_num % 2 == 0 {
        let value: usize = ((first as usize) << 4) | ((second >> 4) as usize);
        assert(value == first as usize * 16 + second as usize / 16) by (bit_vector)
            requires
                value == ((first as usize) << 4) | ((second >> 4) as usize),
        ;
        value
    } else {
        let value: usize = (((first & 0x0F) as usize) << 8) | (second as usize);
        assert(value == (first as usize % 16) * 256 + second as usize) by (bit_vector)
            requires
                value == (((first & 0x0F) as usize) << 8) | (second as usize),
        ;
        value
    }
}

/// Writes the low 12 bits of `entry_num` to entry `last_entry_num` of the
/// file allocation table, in both copies, and hands the image back.
///
/// Each of the two bytes that the entry shares with a neighbour keeps the
/// neighbour's half. The buffer has to hold the table, and the table has to
/// have such an entry.
pub fn write_to_fat(bytes: Vec<u8>, entry_num: usize, last_entry_num: usize) -> (image: Vec<u8>)
    requires
        holds_volume(bytes.len() as nat),
        last_entry_num < fat_entry_count(),
    ensures
        image@ == with_fat_entry(bytes@, last_entry_num as int, entry_num as int),
        image.len() == bytes.len(),
{
    let once = set_copy_entry(bytes, 0, last_entry_num, entry_num);
    set_copy_entry(once, 1, last_entry_num, entry_num)
}

} // verus!
