//! Fingerprints for file content: an exact 64-bit content digest for
//! byte-identity tests, and an optional perceptual digest for images — an
//! 8x8 average hash compared by Hamming distance.
//!
//! The content digest and the decoded 8x8 luminance grid come from outside
//! crates through trusted wrappers; everything built on top of them (the
//! average hash, the distance metric, image-type classification) is
//! verified.

use vstd::prelude::*;
use vstd::string::*;

use crate::strutil::{eq_ignore_case, extension_of, path_extension, str_eq_ignore_case};

verus! {

/// Perceptual hash algorithm selector. Only the average hash is
/// implemented; the others are accepted for configuration compatibility
/// and hash like the average variant.
#[derive(Debug, Clone, Copy, PartialEq, Eq, Structural)]
pub enum SemanticHashType {
    Average,
    Gradient,
    DoubleGradient,
    Blockhash,
    VertGradient,
    Mean,
}

impl Default for SemanticHashType {
    fn default() -> (r: Self)
        ensures
            r == SemanticHashType::Average,
    {
        SemanticHashType::Average
    }
}

/// A fingerprint of one file's content: the exact digest is always
/// present; the perceptual digest is present exactly when the source was
/// treated as an image.
#[derive(Debug, Clone, PartialEq, Eq, Hash)]
pub struct SemanticHash {
    pub perceptual: Option<Vec<u8>>,
    pub content: u64,
}

/// Mathematical model of a [`SemanticHash`].
pub ghost struct SemanticHashModel {
    pub perceptual: Option<Seq<u8>>,
    pub content: u64,
}

impl View for SemanticHash {
    type V = SemanticHashModel;

    open spec fn view(&self) -> SemanticHashModel {
        SemanticHashModel {
            perceptual: match self.perceptual {
                Some(v) => Some(v@),
                None => None,
            },
            content: self.content,
        }
    }
}

/// Why a fingerprint computation failed.
#[derive(Debug, Clone, Copy, PartialEq, Eq, Structural)]
pub enum ComputeError {
    /// The file's bytes could not be read (reported by the caller that did
    /// the reading).
    Unreadable,
    /// The bytes of a recognized image type could not be decoded.
    Undecodable,
}

/// The 64-bit digest that the outside hash computes for a byte sequence.
pub uninterp spec fn xxh3_of(bytes: Seq<u8>) -> u64;

/// The 8x8 luminance grid that decoding and downsampling an image yields,
/// or `None` when the bytes do not decode as an image.
pub uninterp spec fn luma8x8_of(bytes: Seq<u8>) -> Option<Seq<u8>>;

/// Relies on xxhash_rust::xxh3::xxh3_64: a 64-bit digest that is a pure
/// function of the input bytes.
#[verifier::external_body]
fn xxh3_digest(bytes: &Vec<u8>) -> (r: u64)
    ensures
        r == xxh3_of(bytes@),
{
    xxhash_rust::xxh3::xxh3_64(bytes.as_slice())
}

/// Relies on image::load_from_memory, DynamicImage::to_luma8 and
/// image::imageops::resize: decoding is a pure function of the bytes alone,
/// and resizing a luminance image to 8x8 yields exactly 64 samples in grid
/// order.
#[verifier::external_body]
fn decode_luma_8x8(bytes: &Vec<u8>) -> (r: Result<Vec<u8>, ()>)
    ensures
        r matches Ok(g) ==> luma8x8_of(bytes@) == Some(g@) && g@.len() == 64,
        r is Err ==> luma8x8_of(bytes@) is None,
{
    match image::load_from_memory(bytes.as_slice()) {
        Ok(img) => {
            let gray = img.to_luma8();
            let small = image::imageops::resize(
                &gray,
                8,
                8,
                image::imageops::FilterType::Lanczos3,
            );
            Ok(small.into_raw())
        },
        Err(_) => Err(()),
    }
}

/// Two fingerprints computed over the same, unmodified content always
/// carry the same exact digest.
pub proof fn lemma_exact_digest_deterministic(
    bytes: Seq<u8>,
    h1: SemanticHashModel,
    h2: SemanticHashModel,
)
    requires
        h1.content == xxh3_of(bytes),
        h2.content == xxh3_of(bytes),
    ensures
        h1.content == h2.content,
{
}

/// Number of set bits in one byte.
pub open spec fn popcnt8(b: u8) -> nat {
    ((b as nat) % 2 + ((b as nat) / 2) % 2 + ((b as nat) / 4) % 2 + ((b as nat) / 8) % 2 + ((
    b as nat) / 16) % 2 + ((b as nat) / 32) % 2 + ((b as nat) / 64) % 2 + ((b as nat) / 128)
        % 2) as nat
}

/// Hamming distance between two equal-length byte sequences: the number of
/// bit positions where they differ.
pub open spec fn hamming(a: Seq<u8>, b: Seq<u8>) -> nat
    recommends
        a.len() == b.len(),
    decreases a.len(),
{
    if a.len() == 0 {
        0
    } else {
        popcnt8(a.last() ^ b.last()) + hamming(a.drop_last(), b.drop_last())
    }
}

fn popcount8(b: u8) -> (r: u32)
    ensures
        r == popcnt8(b),
{
    let x = b as u32;
    x % 2 + (x / 2) % 2 + (x / 4) % 2 + (x / 8) % 2 + (x / 16) % 2 + (x / 32) % 2 + (x / 64) % 2 + (
    x / 128) % 2
}

/// The distance between equal-length sequences is bounded by eight bits a
/// byte.
pub proof fn lemma_hamming_le(a: Seq<u8>, b: Seq<u8>)
    requires
        a.len() == b.len(),
    ensures
        hamming(a, b) <= 8 * a.len(),
    decreases a.len(),
{
    if a.len() > 0 {
        lemma_hamming_le(a.drop_last(), b.drop_last());
    }
}

/// The perceptual distance from a digest to itself is zero.
pub proof fn lemma_hamming_self_zero(a: Seq<u8>)
    ensures
        hamming(a, a) == 0,
    decreases a.len(),
{
    if a.len() > 0 {
        let x = a.last();
        assert(x ^ x == 0) by (bit_vector);
        lemma_hamming_self_zero(a.drop_last());
    }
}

/// The perceptual distance is symmetric.
pub proof fn lemma_hamming_symmetric(a: Seq<u8>, b: Seq<u8>)
    requires
        a.len() == b.len(),
    ensures
        hamming(a, b) == hamming(b, a),
    decreases a.len(),
{
    if a.len() > 0 {
        let x = a.last();
        let y = b.last();
        assert(x ^ y == y ^ x) by (bit_vector);
        lemma_hamming_symmetric(a.drop_last(), b.drop_last());
    }
}

/// Sum of the samples of a luminance grid.
pub open spec fn sample_sum(g: Seq<u8>) -> nat
    decreases g.len(),
{
    if g.len() == 0 {
        0
    } else {
        (sample_sum(g.drop_last()) + g.last()) as nat
    }
}

/// Mean sample value of a 64-cell grid, rounded down.
pub open spec fn grid_mean(g: Seq<u8>) -> u32
    recommends
        g.len() == 64,
{
    (sample_sum(g) / 64) as u32
}

/// Byte `i` of the average hash of grid `g`: one bit per cell of the
/// `i`-th chunk of eight, set when the cell's sample exceeds the mean.
pub open spec fn ahash_byte(g: Seq<u8>, mean: u32, i: int) -> u8
    recommends
        g.len() == 64,
        0 <= i < 8,
{
    (bit_term(g, mean, 8 * i + 0, 1) + bit_term(g, mean, 8 * i + 1, 2) + bit_term(
        g,
        mean,
        8 * i + 2,
        4,
    ) + bit_term(g, mean, 8 * i + 3, 8) + bit_term(g, mean, 8 * i + 4, 16) + bit_term(
        g,
        mean,
        8 * i + 5,
        32,
    ) + bit_term(g, mean, 8 * i + 6, 64) + bit_term(g, mean, 8 * i + 7, 128)) as u8
}

pub open spec fn bit_term(g: Seq<u8>, mean: u32, k: int, weight: int) -> int
    recommends
        0 <= k < g.len(),
{
    if g[k] as u32 > mean {
        weight
    } else {
        0
    }
}

fn sample_sum_exec(g: &Vec<u8>) -> (r: u32)
    requires
        g@.len() == 64,
    ensures
        r == sample_sum(g@),
{
    let mut acc: u32 = 0;
    let mut i: usize = 0;
    while i < 64
        invariant
            i <= 64,
            g@.len() == 64,
            acc == sample_sum(g@.take(i as int)),
            acc <= 255 * i,
        decreases 64 - i,
    {
        proof {
            assert(g@.take(i + 1).drop_last() =~= g@.take(i as int));
            assert(g@.take(i + 1).last() == g@[i as int]);
        }
        acc = acc + g[i] as u32;
        i += 1;
    }
    proof {
        assert(g@.take(64) =~= g@);
    }
    acc
}

fn ahash_cell(g: &Vec<u8>, mean: u32, i: usize) -> (r: u8)
    requires
        g@.len() == 64,
        i < 8,
    ensures
        r == ahash_byte(g@, mean, i as int),
{
    let base = 8 * i;
    let mut byte: u8 = 0;
    if g[base] as u32 > mean {
        byte = byte + 1;
    }
    if g[base + 1] as u32 > mean {
        byte = byte + 2;
    }
    if g[base + 2] as u32 > mean {
        byte = byte + 4;
    }
    if g[base + 3] as u32 > mean {
        byte = byte + 8;
    }
    if g[base + 4] as u32 > mean {
        byte = byte + 16;
    }
    if g[base + 5] as u32 > mean {
        byte = byte + 32;
    }
    if g[base + 6] as u32 > mean {
        byte = byte + 64;
    }
    if g[base + 7] as u32 > mean {
        byte = byte + 128;
    }
    byte
}

/// The average hash of a 64-sample luminance grid: eight bytes, one bit a
/// cell, set when the cell exceeds the grid mean.
pub fn average_hash(g: &Vec<u8>) -> (r: Vec<u8>)
    requires
        g@.len() == 64,
    ensures
        r@.len() == 8,
        forall|i: int| 0 <= i < 8 ==> r@[i] == ahash_byte(g@, grid_mean(g@), i),
{
    let sum = sample_sum_exec(g);
    let mean = sum / 64;
    let mut out: Vec<u8> = Vec::new();
    let mut i: usize = 0;
    while i < 8
        invariant
            i <= 8,
            g@.len() == 64,
            mean == grid_mean(g@),
            out@.len() == i,
            forall|j: int| 0 <= j < i ==> out@[j] == ahash_byte(g@, grid_mean(g@), j),
        decreases 8 - i,
    {
        let b = ahash_cell(g, mean, i);
        out.push(b);
        i += 1;
    }
    out
}

impl SemanticHash {
    /// Computes the fingerprint of one file's bytes. The exact digest is
    /// always computed; the perceptual digest only when the caller
    /// classified the file as an image, and a decode failure is then an
    /// error, never a silent absence.
    pub fn compute(content: &Vec<u8>, is_image: bool, _hash_type: SemanticHashType) -> (r: Result<
        SemanticHash,
        ComputeError,
    >)
        ensures
            r matches Ok(h) ==> h@.content == xxh3_of(content@),
            r matches Ok(h) ==> (is_image ==> (luma8x8_of(content@) matches Some(g)
                && h@.perceptual matches Some(d) && d.len() == 8 && forall|i: int|
                0 <= i < 8 ==> d[i] == ahash_byte(g, grid_mean(g), i))),
            r matches Ok(h) ==> (!is_image ==> h@.perceptual is None),
            r is Err <==> is_image && luma8x8_of(content@) is None,
            r matches Err(e) ==> e == ComputeError::Undecodable,
    {
        let perceptual: Option<Vec<u8>> = if is_image {
            match decode_luma_8x8(content) {
                Ok(grid) => Some(average_hash(&grid)),
                Err(_) => {
                    return Err(ComputeError::Undecodable);
                },
            }
        } else {
            None
        };
        let content_digest = xxh3_digest(content);
        Ok(SemanticHash { perceptual, content: content_digest })
    }

    /// Hamming distance between the perceptual digests of two image
    /// fingerprints of one fixed grid size.
    pub fn perceptual_distance(&self, other: &Self) -> (r: u32)
        requires
            self@.perceptual is Some,
            other@.perceptual is Some,
            self@.perceptual.unwrap().len() == other@.perceptual.unwrap().len(),
            self@.perceptual.unwrap().len() <= 0x1000_0000,
        ensures
            r == hamming(self@.perceptual.unwrap(), other@.perceptual.unwrap()),
    {
        match (&self.perceptual, &other.perceptual) {
            (Some(a), Some(b)) => hamming_distance(a, b),
            _ => vstd::pervasive::unreached(),
        }
    }

    /// Whether two fingerprints have byte-identical content: the
    /// authoritative duplicate test.
    pub fn content_matches(&self, other: &Self) -> (r: bool)
        ensures
            r == (self@.content == other@.content),
    {
        self.content == other.content
    }
}

/// Hamming distance between two equal-length digests.
pub fn hamming_distance(a: &Vec<u8>, b: &Vec<u8>) -> (r: u32)
    requires
        a@.len() == b@.len(),
        a@.len() <= 0x1000_0000,
    ensures
        r == hamming(a@, b@),
{
    let n = a.len();
    let mut acc: u32 = 0;
    let mut i: usize = 0;
    while i < n
        invariant
            i <= n,
            n == a@.len(),
            n == b@.len(),
            n <= 0x1000_0000,
            acc == hamming(a@.take(i as int), b@.take(i as int)),
            acc <= 8 * i,
        decreases n - i,
    {
        proof {
            assert(a@.take(i + 1).drop_last() =~= a@.take(i as int));
            assert(b@.take(i + 1).drop_last() =~= b@.take(i as int));
            assert(a@.take(i + 1).last() == a@[i as int]);
            assert(b@.take(i + 1).last() == b@[i as int]);
        }
        let d = popcount8(a[i] ^ b[i]);
        acc = acc + d;
        i += 1;
    }
    proof {
        assert(a@.take(n as int) =~= a@);
        assert(b@.take(n as int) =~= b@);
    }
    acc
}

/// Whether a path names a recognized image type, by its extension.
pub open spec fn is_image_path(p: Seq<char>) -> bool {
    match extension_of(p) {
        Some(e) => is_image_ext(e),
        None => false,
    }
}

/// The extension allow-list for perceptual hashing.
pub open spec fn is_image_ext(e: Seq<char>) -> bool {
    ||| eq_ignore_case(e, "jpg"@)
    ||| eq_ignore_case(e, "jpeg"@)
    ||| eq_ignore_case(e, "png"@)
    ||| eq_ignore_case(e, "gif"@)
    ||| eq_ignore_case(e, "bmp"@)
    ||| eq_ignore_case(e, "tiff"@)
    ||| eq_ignore_case(e, "tif"@)
    ||| eq_ignore_case(e, "webp"@)
}

/// Whether the path's extension matches the image allow-list,
/// case-insensitively.
pub fn is_image_file(path: &str) -> (r: bool)
    ensures
        r == is_image_path(path@),
{
    match path_extension(path) {
        Some(e) => {
            let ext = e.as_str();
            str_eq_ignore_case(ext, "jpg") || str_eq_ignore_case(ext, "jpeg")
                || str_eq_ignore_case(ext, "png") || str_eq_ignore_case(ext, "gif")
                || str_eq_ignore_case(ext, "bmp") || str_eq_ignore_case(ext, "tiff")
                || str_eq_ignore_case(ext, "tif") || str_eq_ignore_case(ext, "webp")
        },
        None => false,
    }
}

} // verus!
