//! Overwriting a stretch of the image in place.

use vstd::prelude::*;

verus! {

/// The image with the bytes from `at` on replaced by `data`, byte for byte.
pub open spec fn with_bytes_at(image: Seq<u8>, at: int, data: Seq<u8>) -> Seq<u8> {
    Seq::new(
        image.len(),
        |i: int|
            if at <= i < at + data.len() {
                data[i - at]
            } else {
                image[i]
            },
    )
}

/// Replaces the bytes of the image from `at` on by `data` and hands the image
/// back. The stretch has to lie in the image.
pub(crate) fn overwrite(bytes: Vec<u8>, at: usize, data: &Vec<u8>) -> (image: Vec<u8>)
    requires
        at + data.len() <= bytes.len(),
    ensures
        image@ == with_bytes_at(bytes@, at as int, data@),
        image.len() == bytes.len(),
{
    let ghost before = bytes@;
    let mut bytes = bytes;
    let mut done: usize = 0;
    while done < data.len()
        invariant
            done <= data.len(),
            at + data.len() <= bytes.len(),
            bytes.len() == before.len(),
            forall|i: int|
                0 <= i < bytes.len() ==> bytes@[i] == if at <= i < at + done {
                    data@[i - at]
                } else {
                    before[i]
                },
        decreases data.len() - done,
    {
        bytes[at + done] = data[done];
        done = done + 1;
    }
    assert(bytes@ =~= with_bytes_at(before, at as int, data@));
    bytes
}

} // verus!
