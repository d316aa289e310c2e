//! The rolling checksum that filters candidate block matches.
//!
//! The scanner keeps an Adler-32 checksum of the last `B` bytes it has
//! read and looks the value up in the repository's fingerprint set before
//! it pays for a cryptographic digest. The checksum is computed by an
//! outside crate; this module gives its value a name, `adler32_of`, and
//! wraps the two ways the scanner obtains it: directly from a window, and
//! by rolling an existing value one byte forward.

use vstd::prelude::*;

verus! {

/// The Adler-32 checksum of a byte sequence.
pub uninterp spec fn adler32_of(bytes: Seq<u8>) -> u32;

/// Relies on `adler32::RollingAdler32::from_buffer` and `hash`: the
/// checksum depends on the window bytes alone.
#[verifier::external_body]
pub(crate) fn adler_hash_of(window: &[u8]) -> (r: u32)
    ensures
        r == adler32_of(window@),
{
    adler32::RollingAdler32::from_buffer(window).hash()
}

/// Relies on `adler32::RollingAdler32::from_value`, `remove`, `update` and
/// `hash`: removing the oldest byte of a window and appending a new one
/// yields the checksum of the shifted window. The crate's `remove`
/// computes the size term in 32-bit arithmetic that is exact only while
/// the window is no longer than the Adler-32 modulus, 65521; wider windows
/// are outside this contract and the scanner recomputes instead.
#[verifier::external_body]
pub(crate) fn adler_roll(h: u32, size: usize, out_byte: u8, in_byte: u8) -> (r: u32)
    requires
        1 <= size <= 65521,
    ensures
        forall|w: Seq<u8>|
            (w.len() == size && w.first() == out_byte && h == #[trigger] adler32_of(w))
                ==> r == adler32_of(w.drop_first().push(in_byte)),
{
    let mut roll = adler32::RollingAdler32::from_value(h);
    roll.remove(size, out_byte);
    roll.update(in_byte);
    roll.hash()
}

} // verus!
