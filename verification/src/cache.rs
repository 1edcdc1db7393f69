//! The color hash cache: a fixed table of 64 recently seen colors, indexed by
//! a hash of the color's channels.

use vstd::prelude::*;
use crate::chunk::QoiError;

verus! {

/// One pixel: red, green, blue and alpha channels, each 0-255.
pub type Pixel = (u8, u8, u8, u8);

/// The cache slot a pixel belongs to: `(3r + 5g + 7b + 11a) mod 64`.
pub open spec fn hash_of(p: Pixel) -> int {
    (p.0 * 3 + p.1 * 5 + p.2 * 7 + p.3 * 11) % 64
}

/// The previous pixel at the start of a reconstruction pass.
pub open spec fn initial_pixel() -> Pixel {
    (0u8, 0u8, 0u8, 255u8)
}

/// The cache at the start of a reconstruction pass: every slot black and
/// fully transparent.
pub open spec fn initial_cache() -> Seq<Pixel> {
    Seq::new(64, |i: int| (0u8, 0u8, 0u8, 0u8))
}

/// A cache is well formed when every slot still holds its initial value or a
/// pixel whose hash is the slot number. Every store writes a pixel into the
/// slot it hashes to, so reconstruction preserves this.
pub open spec fn cache_wf(cache: Seq<Pixel>) -> bool {
    &&& cache.len() == 64
    &&& forall|i: int|
        0 <= i < 64 ==> #[trigger] cache[i] == (0u8, 0u8, 0u8, 0u8) || hash_of(cache[i]) == i
}

/// Convert a color into a number from 0..64.
pub fn color_hash(r: u8, g: u8, b: u8, a: u8) -> (h: usize)
    ensures
        h == hash_of((r, g, b, a)),
        h < 64,
{
    (r as usize * 3 + g as usize * 5 + b as usize * 7 + a as usize * 11) % 64
}

/// Return the pixel at a cache slot verbatim; a slot number at or beyond 64
/// is out of range and must not be clamped.
pub fn lookup(array: &[Pixel; 64], idx: usize) -> (r: Result<Pixel, QoiError>)
    ensures
        idx < 64 ==> r == Ok::<Pixel, QoiError>(array@[idx as int]),
        idx >= 64 ==> r == Err::<Pixel, QoiError>(QoiError::IndexOutOfRange),
{
    if idx < 64 {
        Ok(array[idx])
    } else {
        Err(QoiError::IndexOutOfRange)
    }
}

/// Store a color in the slot it hashes to, evicting any prior occupant, and
/// record it as the previous pixel.
pub fn add_hash_and_last(
    r: u8,
    g: u8,
    b: u8,
    a: u8,
    array: &mut [Pixel; 64],
    last: &mut Pixel,
)
    ensures
        final(array)@ == old(array)@.update(hash_of((r, g, b, a)), (r, g, b, a)),
        *final(last) == (r, g, b, a),
{
    let hash = color_hash(r, g, b, a);
    array[hash] = (r, g, b, a);
    *last = (r, g, b, a);
}

} // verus!
