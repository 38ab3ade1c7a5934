//! Perceptual hashes of images: the average hash and the difference hash.
//!
//! Both reduce the image to a small grid of 16-bit gray levels and turn the
//! grid into 64 bits, read row by row, the first bit ending up as the most
//! significant bit of the hash.

use vstd::prelude::*;
use image::DynamicImage;
use crate::status_mgr::{ImageData, StatusMgr, StatusView};
use vstd::arithmetic::power2::{
    pow2, lemma_pow2_unfold, lemma_pow2_strictly_increases, lemma2_to64, lemma2_to64_rest,
};

verus! {

/// The image type of the `image` crate; the hashes only hand it on to the
/// crate's resizing.
#[verifier::external_type_specification]
#[verifier::external_body]
pub struct ExDynamicImage(image::DynamicImage);

/// Packs a sequence of bits into a number, the first bit most significant.
pub open spec fn pack_bits(bits: Seq<bool>) -> nat
    decreases bits.len(),
{
    if bits.len() == 0 {
        0
    } else {
        2 * pack_bits(bits.drop_last()) + (if bits.last() { 1nat } else { 0nat })
    }
}

/// `n` packed bits make a number below `2^n`.
pub proof fn lemma_pack_bits_bound(bits: Seq<bool>)
    ensures
        pack_bits(bits) < pow2(bits.len()),
    decreases bits.len(),
{
    if bits.len() > 0 {
        lemma_pack_bits_bound(bits.drop_last());
        lemma_pow2_unfold(bits.len());
    } else {
        assert(pow2(0) == 1) by {
            lemma2_to64();
        }
    }
}

/// Bit `k` of `n` packed bits, counted from the first, is the bit of the
/// packed number worth `2^(n - 1 - k)`.
pub proof fn lemma_pack_bits_bit(bits: Seq<bool>, k: int)
    requires
        0 <= k < bits.len(),
    ensures
        (pack_bits(bits) / pow2((bits.len() - 1 - k) as nat)) % 2 == (if bits[k] { 1int } else { 0int }),
    decreases bits.len(),
{
    let n = bits.len();
    let front = bits.drop_last();
    let b: int = if bits.last() { 1 } else { 0 };
    assert(pack_bits(bits) == 2 * pack_bits(front) + b);
    if k == n - 1 {
        lemma2_to64();
        assert((bits.len() - 1 - k) as nat == 0);
        assert(pow2(0) == 1);
        let x = pack_bits(bits) as int;
        assert(x / 1 == x) by (nonlinear_arith);
        assert(pack_bits(bits) / pow2(0) == pack_bits(bits));
        assert((2 * pack_bits(front) + b) % 2 == b);
    } else {
        lemma_pack_bits_bit(front, k);
        let e = (n - 2 - k) as nat;
        assert((bits.len() - 1 - k) as nat == e + 1);
        assert((front.len() - 1 - k) as nat == e);
        lemma_pow2_unfold((e + 1) as nat);
        vstd::arithmetic::power2::lemma_pow2_pos(e);
        vstd::arithmetic::div_mod::lemma_div_denominator(pack_bits(bits) as int, 2, pow2(e) as int);
        assert((2 * pack_bits(front) + b) / 2 == pack_bits(front));
        assert(pack_bits(bits) / pow2(e + 1) == pack_bits(front) / pow2(e));
        assert(front[k] == bits[k]);
    }
}

/// Bit `k` of a hash of 64 packed bits, counted from the most significant
/// bit, is the `k`-th of the packed bits.
pub proof fn lemma_hash_bit(bits: Seq<bool>, k: int)
    requires
        bits.len() == 64,
        0 <= k < 64,
    ensures
        ((pack_bits(bits) as u64 >> ((63 - k) as u64)) & 1 == 1) == bits[k],
{
    lemma_pack_bits_bound(bits);
    lemma2_to64();
    let h = pack_bits(bits) as u64;
    assert(h == pack_bits(bits));
    let shift = (63 - k) as u64;
    vstd::bits::lemma_u64_shr_is_div(h, shift);
    lemma_pack_bits_bit(bits, k);
    let q = h >> shift;
    assert((q & 1 == 1) == (q % 2 == 1)) by (bit_vector);
}

/// Bit `k` of the average hash, counted from the most significant bit, is
/// set exactly when level `k` of the grid is above the mean level.
pub proof fn lemma_ahash_bit(levels: Seq<u16>, k: int)
    requires
        levels.len() == 64,
        0 <= k < 64,
    ensures
        ((ahash_of_levels(levels) >> ((63 - k) as u64)) & 1 == 1) == (levels[k] > mean_level(levels)),
{
    lemma_hash_bit(ahash_bits(levels), k);
}

/// Bit `8 * row + col` of the difference hash, counted from the most
/// significant bit, is set exactly when the level at `col` of `row` is
/// above the level to its right.
pub proof fn lemma_dhash_bit(levels: Seq<u16>, row: int, col: int)
    requires
        levels.len() == 72,
        0 <= row < 8,
        0 <= col < 8,
    ensures
        ((dhash_of_levels(levels) >> ((63 - (8 * row + col)) as u64)) & 1 == 1) == (levels[9 * row
            + col] > levels[9 * row + col + 1]),
{
    let k = 8 * row + col;
    assert(k / 8 == row && k % 8 == col);
    lemma_hash_bit(dhash_bits(levels), k);
}

/// The sum of the levels agrees with a left fold that adds them up.
proof fn lemma_sum_levels_fold(levels: Seq<u16>)
    ensures
        sum_levels(levels) == levels.fold_left(0int, |acc: int, x: u16| acc + x),
    decreases levels.len(),
{
    if levels.len() > 0 {
        lemma_sum_levels_fold(levels.drop_last());
    }
}

/// The threshold of the average hash is the mean: bit `k` of the average
/// hash of 64 levels, counted from the most significant bit, is set exactly
/// when level `k` is above the sum of all 64 levels divided by 64, rounded
/// down.
pub proof fn lemma_ahash_above_mean(levels: Seq<u16>, k: int)
    requires
        levels.len() == 64,
        0 <= k < 64,
    ensures
        ((ahash_of_levels(levels) >> ((63 - k) as u64)) & 1 == 1) == (levels[k] as int > levels.fold_left(
            0int,
            |acc: int, x: u16| acc + x,
        ) / 64),
{
    lemma_sum_levels_fold(levels);
    lemma_ahash_bit(levels, k);
}

/// The sum of a sequence of gray levels.
pub open spec fn sum_levels(levels: Seq<u16>) -> nat
    decreases levels.len(),
{
    if levels.len() == 0 {
        0
    } else {
        sum_levels(levels.drop_last()) + levels.last() as nat
    }
}

proof fn lemma_sum_levels_bound(levels: Seq<u16>)
    ensures
        sum_levels(levels) <= levels.len() * 65535,
    decreases levels.len(),
{
    if levels.len() > 0 {
        lemma_sum_levels_bound(levels.drop_last());
    }
}

/// The mean gray level of an 8 by 8 grid, rounded down.
pub open spec fn mean_level(levels: Seq<u16>) -> nat {
    sum_levels(levels) / 64
}

/// The bits of the average hash: bit `k` is set when the `k`-th level of
/// the 8 by 8 grid (row by row) is above the mean level.
pub open spec fn ahash_bits(levels: Seq<u16>) -> Seq<bool> {
    Seq::new(64, |k: int| levels[k] > mean_level(levels))
}

/// The bits of the difference hash: for the 9 by 8 grid (9 levels per row),
/// bit `8 * row + col` is set when the level at `col` of that row is above
/// its right neighbour.
pub open spec fn dhash_bits(levels: Seq<u16>) -> Seq<bool> {
    Seq::new(64, |k: int| levels[(k / 8) * 9 + k % 8] > levels[(k / 8) * 9 + k % 8 + 1])
}

/// The average hash of an 8 by 8 grid of gray levels.
pub open spec fn ahash_of_levels(levels: Seq<u16>) -> u64 {
    pack_bits(ahash_bits(levels)) as u64
}

/// The difference hash of a 9 by 8 grid of gray levels.
pub open spec fn dhash_of_levels(levels: Seq<u16>) -> u64 {
    pack_bits(dhash_bits(levels)) as u64
}

/// Shifts `hash` left by one and adds `bit`.
fn push_bit(hash: u64, bit: bool, Ghost(bits): Ghost<Seq<bool>>) -> (next: u64)
    requires
        hash == pack_bits(bits),
        bits.len() < 64,
    ensures
        next == pack_bits(bits.push(bit)),
{
    proof {
        lemma_pack_bits_bound(bits);
        if bits.len() < 63 {
            lemma_pow2_strictly_increases(bits.len(), 63);
        }
        lemma2_to64_rest();
        assert(hash < 0x8000_0000_0000_0000u64);
        assert(hash < 0x8000_0000_0000_0000u64 ==> hash << 1u64 == 2 * hash) by (bit_vector);
        assert(bits.push(bit).drop_last() =~= bits);
    }
    let mut next = hash << 1u64;
    if bit {
        next += 1;
    }
    next
}

/// The average hash of an 8 by 8 grid of gray levels, given row by row:
/// one bit per level, set when the level is above the mean level.
pub fn ahash_of_grid(levels: &Vec<u16>) -> (hash: u64)
    requires
        levels.len() == 64,
    ensures
        hash == ahash_of_levels(levels@),
{
    let mut total: u32 = 0;
    let mut i: usize = 0;
    while i < 64
        invariant
            levels.len() == 64,
            i <= 64,
            total == sum_levels(levels@.take(i as int)),
        decreases 64 - i,
    {
        proof {
            lemma_sum_levels_bound(levels@.take(i as int));
            assert(levels@.take(i as int + 1).drop_last() =~= levels@.take(i as int));
        }
        total = total + levels[i] as u32;
        i += 1;
    }
    assert(levels@.take(64) =~= levels@);
    proof {
        lemma_sum_levels_bound(levels@);
    }
    let avg: u16 = (total / 64) as u16;
    let ghost bits = ahash_bits(levels@);
    let mut hash: u64 = 0;
    let mut row: usize = 0;
    while row < 8
        invariant
            levels.len() == 64,
            row <= 8,
            avg == mean_level(levels@),
            bits == ahash_bits(levels@),
            hash == pack_bits(bits.take(8 * row as int)),
        decreases 8 - row,
    {
        let mut col: usize = 0;
        while col < 8
            invariant
                levels.len() == 64,
                row < 8,
                col <= 8,
                avg == mean_level(levels@),
                bits == ahash_bits(levels@),
                hash == pack_bits(bits.take(8 * row + col)),
            decreases 8 - col,
        {
            let k = 8 * row + col;
            let bit = levels[k] > avg;
            assert(bits.take(k as int).push(bit) =~= bits.take(k as int + 1));
            hash = push_bit(hash, bit, Ghost(bits.take(k as int)));
            col += 1;
        }
        row += 1;
    }
    assert(bits.take(64) =~= bits);
    hash
}

/// The difference hash of a 9 by 8 grid of gray levels, given row by row
/// with 9 levels per row: one bit per adjacent pair in a row, set when the
/// left level is above the right one.
pub fn dhash_of_grid(levels: &Vec<u16>) -> (hash: u64)
    requires
        levels.len() == 72,
    ensures
        hash == dhash_of_levels(levels@),
{
    let ghost bits = dhash_bits(levels@);
    let mut hash: u64 = 0;
    let mut row: usize = 0;
    while row < 8
        invariant
            levels.len() == 72,
            row <= 8,
            bits == dhash_bits(levels@),
            hash == pack_bits(bits.take(8 * row as int)),
        decreases 8 - row,
    {
        let mut col: usize = 0;
        while col < 8
            invariant
                levels.len() == 72,
                row < 8,
                col <= 8,
                bits == dhash_bits(levels@),
                hash == pack_bits(bits.take(8 * row + col)),
            decreases 8 - col,
        {
            let left = levels[9 * row + col];
            let right = levels[9 * row + col + 1];
            let bit = left > right;
            let ghost k = 8 * row + col;
            assert(k / 8 == row as int && k % 8 == col as int);
            assert(bits.take(k).push(bit) =~= bits.take(k + 1));
            hash = push_bit(hash, bit, Ghost(bits.take(k)));
            col += 1;
        }
        row += 1;
    }
    assert(bits.take(64) =~= bits);
    hash
}

/// `levels` are, row by row, the 16-bit gray levels of a reduction of
/// `image` to `width` by `height` pixels with the Gaussian filter of the
/// `image` crate. This is a relation, not a function: the crate's kernel uses
/// floating point, so the levels need not be the same on every machine.
pub uninterp spec fn gaussian_reduction(image: DynamicImage, width: u32, height: u32, levels: Seq<u16>) -> bool;

/// Calls `DynamicImage::resize_exact` of the `image` crate with the Gaussian
/// filter and turns the result into 16-bit gray levels with
/// `DynamicImage::to_luma16`, row by row. The contract claims that there is
/// one level per pixel of the `width` by `height` result and that the levels
/// are such a reduction of `image`; which levels the crate's resampling
/// yields is not stated.
#[verifier::external_body]
fn reduced_gray_levels(image: &DynamicImage, width: u32, height: u32) -> (levels: Vec<u16>)
    requires
        1 <= width <= 9,
        1 <= height <= 8,
    ensures
        levels@.len() == width * height,
        gaussian_reduction(*image, width, height, levels@),
{
    image.resize_exact(width, height, image::imageops::FilterType::Gaussian).to_luma16().into_raw()
}

/// The average hash of an image: the image is reduced to 8 by 8 gray levels
/// and hashed by `ahash_of_grid`.
pub fn ahash(image: &DynamicImage) -> (hash: u64)
    ensures
        exists|levels: Seq<u16>|
            levels.len() == 64 && gaussian_reduction(*image, 8, 8, levels) && hash == ahash_of_levels(levels),
{
    let levels = reduced_gray_levels(image, 8, 8);
    ahash_of_grid(&levels)
}

/// The difference hash of an image: the image is reduced to 9 by 8 gray
/// levels and hashed by `dhash_of_grid`.
pub fn dhash(image: &DynamicImage) -> (hash: u64)
    ensures
        exists|levels: Seq<u16>|
            levels.len() == 72 && gaussian_reduction(*image, 9, 8, levels) && hash == dhash_of_levels(levels),
{
    let levels = reduced_gray_levels(image, 9, 8);
    dhash_of_grid(&levels)
}

/// `gray` is the grayscale version of `image` that the `image` crate's
/// `DynamicImage::grayscale` gives.
pub uninterp spec fn grayscale_of(image: DynamicImage, gray: DynamicImage) -> bool;

/// Calls `DynamicImage::grayscale` of the `image` crate. The contract claims
/// only that the result is that crate's grayscale version of `image`; what
/// its pixels are is not stated.
#[verifier::external_body]
fn gray_version(image: &DynamicImage) -> (gray: DynamicImage)
    ensures
        grayscale_of(*image, gray),
{
    image.grayscale()
}

/// The grayscale version of a decoded image, which the hashes are computed
/// from.
pub fn grayscale(image: &DynamicImage) -> (gray: DynamicImage)
    ensures
        grayscale_of(*image, gray),
{
    gray_version(image)
}

/// The average hash of a decoded image: of its grayscale version, reduced
/// to 8 by 8 gray levels.
pub fn ahash_of_decoded(image: &DynamicImage) -> (hash: u64)
    ensures
        exists|gray: DynamicImage, levels: Seq<u16>|
            grayscale_of(*image, gray) && levels.len() == 64 && gaussian_reduction(gray, 8, 8, levels)
                && hash == ahash_of_levels(levels),
{
    let gray = grayscale(image);
    ahash(&gray)
}

/// The difference hash of a decoded image: of its grayscale version,
/// reduced to 9 by 8 gray levels.
pub fn dhash_of_decoded(image: &DynamicImage) -> (hash: u64)
    ensures
        exists|gray: DynamicImage, levels: Seq<u16>|
            grayscale_of(*image, gray) && levels.len() == 72 && gaussian_reduction(gray, 9, 8, levels)
                && hash == dhash_of_levels(levels),
{
    let gray = grayscale(image);
    dhash(&gray)
}

/// A perceptual hash: how it is computed from an image, and where it is
/// kept in an image's data.
pub trait Hasher {
    /// The number of gray levels the image is reduced to.
    spec fn grid_len(&self) -> nat;

    /// The width of the grid the image is reduced to.
    spec fn grid_width(&self) -> u32;

    /// The height of the grid the image is reduced to.
    spec fn grid_height(&self) -> u32;

    /// The hash of the reduced gray levels.
    spec fn hash_of_levels(&self, levels: Seq<u16>) -> u64;

    /// The hash kept in an image's data.
    spec fn stored_hash(&self, data: ImageData) -> Option<u64>;

    /// An image's data with `hash` kept as this hash.
    spec fn with_hash(&self, data: ImageData, hash: u64) -> ImageData;

    /// The hash kept in data is the one last put there.
    proof fn lemma_stored_with(&self, data: ImageData, hash: u64)
        ensures
            self.stored_hash(self.with_hash(data, hash)) == Some(hash),
    ;

    /// Hashes an image.
    fn hash(&self, image: &DynamicImage) -> (hash: u64)
        ensures
            exists|levels: Seq<u16>|
                levels.len() == self.grid_len() && gaussian_reduction(
                    *image,
                    self.grid_width(),
                    self.grid_height(),
                    levels,
                ) && hash == self.hash_of_levels(levels),
    ;

    /// This hash is still to be computed for an image with `data`.
    fn needs_hash(&self, data: &ImageData) -> (needed: bool)
        ensures
            needed == (self.stored_hash(*data) is None),
    ;

    /// The hash kept for the image at `path`, if any.
    fn hash_getter(&self, mgr: &StatusMgr, path: &String) -> (hash: Option<u64>)
        ensures
            hash == (if mgr@.data.dom().contains(path@) {
                self.stored_hash(mgr@.data[path@])
            } else {
                None
            }),
    ;

    /// Keeps `hsh` as the hash of the image at `path`.
    fn hash_setter(&self, mgr: &mut StatusMgr, path: String, hsh: u64)
        ensures
            final(mgr)@ == old(mgr)@.recorded(path@, self.with_hash(old(mgr)@.data_or_default(path@), hsh)),
    ;
}

/// A hash kept by `hash_setter` is what `hash_getter` reads back for the
/// same path.
pub proof fn lemma_getter_after_setter<H: Hasher>(hasher: &H, state: StatusView, path: Seq<char>, hsh: u64)
    ensures
        ({
            let after = state.recorded(path, hasher.with_hash(state.data_or_default(path), hsh));
            after.data.dom().contains(path) && hasher.stored_hash(after.data[path]) == Some(hsh)
        }),
{
    hasher.lemma_stored_with(state.data_or_default(path), hsh);
}

/// The average hash.
pub struct AHasher;

/// The difference hash.
pub struct DHasher;

impl Hasher for AHasher {
    open spec fn grid_len(&self) -> nat {
        64
    }

    open spec fn grid_width(&self) -> u32 {
        8
    }

    open spec fn grid_height(&self) -> u32 {
        8
    }

    open spec fn hash_of_levels(&self, levels: Seq<u16>) -> u64 {
        ahash_of_levels(levels)
    }

    open spec fn stored_hash(&self, data: ImageData) -> Option<u64> {
        data.a_hash
    }

    open spec fn with_hash(&self, data: ImageData, hash: u64) -> ImageData {
        ImageData { a_hash: Some(hash), ..data }
    }

    proof fn lemma_stored_with(&self, data: ImageData, hash: u64) {
    }

    fn hash(&self, image: &DynamicImage) -> (hash: u64) {
        ahash(image)
    }

    fn hash_getter(&self, mgr: &StatusMgr, path: &String) -> (hash: Option<u64>) {
        match mgr.get_image_data(path) {
            Some(data) => data.a_hash,
            None => None,
        }
    }

    fn hash_setter(&self, mgr: &mut StatusMgr, path: String, hsh: u64) {
        mgr.ahash(path, hsh);
    }

    fn needs_hash(&self, data: &ImageData) -> (needed: bool) {
        data.a_hash.is_none()
    }
}

impl Hasher for DHasher {
    open spec fn grid_len(&self) -> nat {
        72
    }

    open spec fn grid_width(&self) -> u32 {
        9
    }

    open spec fn grid_height(&self) -> u32 {
        8
    }

    open spec fn hash_of_levels(&self, levels: Seq<u16>) -> u64 {
        dhash_of_levels(levels)
    }

    open spec fn stored_hash(&self, data: ImageData) -> Option<u64> {
        data.d_hash
    }

    open spec fn with_hash(&self, data: ImageData, hash: u64) -> ImageData {
        ImageData { d_hash: Some(hash), ..data }
    }

    proof fn lemma_stored_with(&self, data: ImageData, hash: u64) {
    }

    fn hash(&self, image: &DynamicImage) -> (hash: u64) {
        dhash(image)
    }

    fn hash_getter(&self, mgr: &StatusMgr, path: &String) -> (hash: Option<u64>) {
        match mgr.get_image_data(path) {
            Some(data) => data.d_hash,
            None => None,
        }
    }

    fn hash_setter(&self, mgr: &mut StatusMgr, path: String, hsh: u64) {
        mgr.dhash(path, hsh);
    }

    fn needs_hash(&self, data: &ImageData) -> (needed: bool) {
        data.d_hash.is_none()
    }
}

} // verus!
