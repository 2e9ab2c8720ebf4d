//! The outside crates that the library calls: `rand` for random fills and
//! `bmp` for reading the pixels of a decoded bitmap.
use rand::rngs::StdRng;
use rand::Rng;
use rand::SeedableRng;
use vstd::prelude::*;

verus! {

#[verifier::external_type_specification]
#[verifier::external_body]
pub struct ExImage(bmp::Image);

/// The width and height that a decoded bitmap reports.
pub uninterp spec fn bitmap_dims(img: bmp::Image) -> (u32, u32);

/// The pixels of a decoded bitmap as `(r, g, b)`: what `get_pixel(x, y)`
/// reports stands at index `y * width + x`.
pub uninterp spec fn bitmap_pixels(img: bmp::Image) -> Seq<(u8, u8, u8)>;

/// `n` draws at ratio `numerator / denominator` from a `StdRng` seeded
/// with `seed`, in the order drawn.
pub uninterp spec fn seeded_draws(seed: u64, numerator: u32, denominator: u32, n: nat) -> Seq<bool>;

/// Relies on rand's `SeedableRng::from_entropy` for `StdRng` and on
/// `Rng::gen_ratio`: `n` values, each `true` with probability
/// `numerator / denominator`. `gen_ratio` returns `false` for a zero
/// numerator without fail, `true` when the two are equal, and panics unless
/// `0 < denominator` and `numerator <= denominator`.
#[verifier::external_body]
pub(crate) fn draw_entropy(numerator: u32, denominator: u32, n: usize) -> (r: Vec<bool>)
    requires
        0 < denominator,
        numerator <= denominator,
    ensures
        r@.len() == n,
        numerator == 0 ==> forall|i: int| 0 <= i < n ==> !#[trigger] r@[i],
        numerator == denominator ==> forall|i: int| 0 <= i < n ==> #[trigger] r@[i],
{
    let mut rng = StdRng::from_entropy();
    (0..n).map(|_| rng.gen_ratio(numerator, denominator)).collect()
}

/// Relies on rand's `SeedableRng::seed_from_u64` for `StdRng` and on
/// `Rng::gen_ratio`, as `draw_entropy` does; a `StdRng` is deterministic, so
/// the draws are fixed by the seed, the ratio and their number.
#[verifier::external_body]
pub(crate) fn draw_seeded(seed: u64, numerator: u32, denominator: u32, n: usize) -> (r: Vec<bool>)
    requires
        0 < denominator,
        numerator <= denominator,
    ensures
        r@ == seeded_draws(seed, numerator, denominator, n as nat),
        r@.len() == n,
        numerator == 0 ==> forall|i: int| 0 <= i < n ==> !#[trigger] r@[i],
        numerator == denominator ==> forall|i: int| 0 <= i < n ==> #[trigger] r@[i],
{
    let mut rng = StdRng::seed_from_u64(seed);
    (0..n).map(|_| rng.gen_ratio(numerator, denominator)).collect()
}

/// Relies on bmp's `Image::get_width`.
#[verifier::external_body]
pub(crate) fn image_width(img: &bmp::Image) -> (r: u32)
    ensures
        r == bitmap_dims(*img).0,
{
    img.get_width()
}

/// Relies on bmp's `Image::get_height`.
#[verifier::external_body]
pub(crate) fn image_height(img: &bmp::Image) -> (r: u32)
    ensures
        r == bitmap_dims(*img).1,
{
    img.get_height()
}

/// Relies on bmp's `Image::get_pixel`, which reads the stored pixel of
/// `(x, y)`; it panics outside the image, and computes the pixel's index in
/// `u32`.
#[verifier::external_body]
pub(crate) fn image_pixel(img: &bmp::Image, x: u32, y: u32) -> (r: (u8, u8, u8))
    requires
        x < bitmap_dims(*img).0,
        y < bitmap_dims(*img).1,
        bitmap_dims(*img).0 * bitmap_dims(*img).1 <= u32::MAX,
    ensures
        r == bitmap_pixels(*img)[y * bitmap_dims(*img).0 + x],
{
    let p = img.get_pixel(x, y);
    (p.r, p.g, p.b)
}

} // verus!
