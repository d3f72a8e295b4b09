//! Perceptual image hashes as the library holds them: the bytes of an
//! `image_hasher::ImageHash`, how they are computed from an image file's
//! contents, their Base64 text, and the Hamming distance between two of them.
use vstd::prelude::*;

use image_hasher::{HasherConfig, ImageHash};

verus! {

/// A character of the standard Base64 alphabet (`A-Z`, `a-z`, `0-9`, `+`, `/`).
pub open spec fn is_base64_char(c: char) -> bool {
    ||| ('A' <= c && c <= 'Z')
    ||| ('a' <= c && c <= 'z')
    ||| ('0' <= c && c <= '9')
    ||| c == '+'
    ||| c == '/'
}

/// Every character of `s` is in the standard Base64 alphabet.
pub open spec fn is_base64_text(s: Seq<char>) -> bool {
    forall|i: int| 0 <= i < s.len() ==> is_base64_char(#[trigger] s[i])
}

/// Bytes that can be turned into an `ImageHash` and back to text: not empty,
/// and short enough that counting their bits fits in a `usize`.
pub open spec fn valid_hash_bytes(b: Seq<u8>) -> bool {
    0 < b.len() && b.len() <= usize::MAX / 8
}

/// The hash bytes that `ImageHash::from_base64` reads from the text `s`, or
/// `None` where it refuses the text.
pub uninterp spec fn hash_bytes_of_base64(s: Seq<char>) -> Option<Seq<u8>>;

/// The text that `ImageHash::to_base64` writes for the hash with bytes `b`.
pub uninterp spec fn base64_of_hash_bytes(b: Seq<u8>) -> Seq<char>;

/// Reads a hash from its Base64 text with `ImageHash::from_base64`
/// (standard alphabet, no padding) and hands back its bytes.
///
/// Claimed of the outside code: the result is the named
/// `hash_bytes_of_base64(s)`; an accepted text holds only Base64 characters
/// and gives a nonempty hash of at most three bytes for every four
/// characters.  The bound on the length of `s` keeps the byte count of a
/// decoded hash (an accepted text is ASCII, one byte per character), times
/// eight, inside a `usize`, as `from_bytes` computes it; a longer text that
/// decodes overflows there.
#[verifier::external_body]
pub(crate) fn decode_hash(s: &str) -> (r: Option<Vec<u8>>)
    requires
        s@.len() <= usize::MAX / 6,
    ensures
        match r {
            Some(b) => hash_bytes_of_base64(s@) == Some(b@),
            None => hash_bytes_of_base64(s@) is None,
        },
        r matches Some(b) ==> 0 < b@.len() && 4 * b@.len() <= 3 * s@.len() && is_base64_text(s@),
{
    ImageHash::<Box<[u8]>>::from_base64(s).ok().map(|h| h.as_bytes().to_vec())
}

/// Writes the Base64 text of the hash with the given bytes, through
/// `ImageHash::from_bytes` and `ImageHash::to_base64` (standard alphabet, no
/// padding).
///
/// Claimed of the outside code: the result is the named
/// `base64_of_hash_bytes(bytes)`; it has the unpadded Base64 length, holds
/// only Base64 characters, and `from_base64` reads the same bytes back from it.
#[verifier::external_body]
pub(crate) fn encode_hash(bytes: &[u8]) -> (r: String)
    requires
        valid_hash_bytes(bytes@),
    ensures
        r@ == base64_of_hash_bytes(bytes@),
        r@.len() == (4 * bytes@.len() + 2) / 3,
        is_base64_text(r@),
        hash_bytes_of_base64(r@) == Some(bytes@),
{
    ImageHash::<Box<[u8]>>::from_bytes(bytes).unwrap().to_base64()
}

/// The Base64 text of a hash (`ImageHash::to_base64`).
pub fn hash_to_base64(bytes: &[u8]) -> (r: String)
    requires
        valid_hash_bytes(bytes@),
    ensures
        r@ == base64_of_hash_bytes(bytes@),
        r@.len() == (4 * bytes@.len() + 2) / 3,
        is_base64_text(r@),
        hash_bytes_of_base64(r@) == Some(bytes@),
{
    encode_hash(bytes)
}

/// The hash bytes that `image_hasher` computes, with the settings of
/// `HasherConfig::new()`, for the image held by the file contents `data`,
/// decoded in the format that the extension of `path` names (as
/// `image::open` picks it); `None` where no format is named or the data
/// does not decode.
pub uninterp spec fn image_hash_of(path: Seq<char>, data: Seq<u8>) -> Option<Seq<u8>>;

/// Decodes an image file's contents with the `image` crate, in the format
/// that the path's extension names (`ImageFormat::from_path`,
/// `image::load_from_memory_with_format`), and hashes it with
/// `HasherConfig::new().to_hasher().hash_image`, handing back the hash bytes.
///
/// Claimed of the outside code: the result is the named
/// `image_hash_of(path, data)`, and a hash of the default size, which packs
/// the comparisons of an 8 x 8 grayscale thumbnail, has between one and
/// eight bytes.
#[verifier::external_body]
pub(crate) fn hash_image_data(path: &str, data: &[u8]) -> (r: Option<Vec<u8>>)
    ensures
        match r {
            Some(b) => image_hash_of(path@, data@) == Some(b@),
            None => image_hash_of(path@, data@) is None,
        },
        r matches Some(b) ==> 0 < b@.len() <= 8,
{
    let format = image::ImageFormat::from_path(std::path::Path::new(path)).ok()?;
    let image = image::load_from_memory_with_format(data, format).ok()?;
    Some(HasherConfig::new().to_hasher().hash_image(&image).as_bytes().to_vec())
}

/// The number of one bits of a byte.
pub open spec fn ones(x: u8) -> nat {
    ((x & 1u8) + ((x >> 1u8) & 1u8) + ((x >> 2u8) & 1u8) + ((x >> 3u8) & 1u8) + ((x >> 4u8) & 1u8)
        + ((x >> 5u8) & 1u8) + ((x >> 6u8) & 1u8) + ((x >> 7u8) & 1u8)) as nat
}

/// The Hamming distance of two hashes: the one bits of their bytewise XOR,
/// over the bytes that both have (as `ImageHash::dist` counts them).
pub open spec fn hamming(a: Seq<u8>, b: Seq<u8>) -> nat
    decreases a.len(),
{
    if a.len() == 0 || b.len() == 0 {
        0
    } else {
        ones(a[0] ^ b[0]) + hamming(a.drop_first(), b.drop_first())
    }
}

/// Law: a byte with no one bit has none counted, and flipping any one of
/// the eight bits of a byte changes the count of its one bits by exactly one.
pub proof fn lemma_ones_flip(x: u8, k: u8)
    requires
        k < 8,
    ensures
        ones(0) == 0,
        x & (1u8 << k) == 0 ==> ones(x ^ (1u8 << k)) == ones(x) + 1,
        x & (1u8 << k) != 0 ==> ones(x ^ (1u8 << k)) + 1 == ones(x),
{
    let y = x ^ (1u8 << k);
    assert(((0u8 & 1u8) + ((0u8 >> 1u8) & 1u8) + ((0u8 >> 2u8) & 1u8) + ((0u8 >> 3u8) & 1u8) + ((0u8
        >> 4u8) & 1u8) + ((0u8 >> 5u8) & 1u8) + ((0u8 >> 6u8) & 1u8) + ((0u8 >> 7u8) & 1u8)) == 0)
        by (bit_vector);
    assert(x & (1u8 << k) == 0 ==> ((y & 1u8) + ((y >> 1u8) & 1u8) + ((y >> 2u8) & 1u8) + ((y
        >> 3u8) & 1u8) + ((y >> 4u8) & 1u8) + ((y >> 5u8) & 1u8) + ((y >> 6u8) & 1u8) + ((y >> 7u8)
        & 1u8)) == ((x & 1u8) + ((x >> 1u8) & 1u8) + ((x >> 2u8) & 1u8) + ((x >> 3u8) & 1u8) + ((x
        >> 4u8) & 1u8) + ((x >> 5u8) & 1u8) + ((x >> 6u8) & 1u8) + ((x >> 7u8) & 1u8)) + 1)
        by (bit_vector)
        requires
            k < 8,
            y == x ^ (1u8 << k),
    ;
    assert(x & (1u8 << k) != 0 ==> ((y & 1u8) + ((y >> 1u8) & 1u8) + ((y >> 2u8) & 1u8) + ((y
        >> 3u8) & 1u8) + ((y >> 4u8) & 1u8) + ((y >> 5u8) & 1u8) + ((y >> 6u8) & 1u8) + ((y >> 7u8)
        & 1u8)) + 1 == ((x & 1u8) + ((x >> 1u8) & 1u8) + ((x >> 2u8) & 1u8) + ((x >> 3u8) & 1u8) + ((
        x >> 4u8) & 1u8) + ((x >> 5u8) & 1u8) + ((x >> 6u8) & 1u8) + ((x >> 7u8) & 1u8)))
        by (bit_vector)
        requires
            k < 8,
            y == x ^ (1u8 << k),
    ;
}

/// Law: the distance between two single bytes is the number of bits in
/// which they differ, and between hashes with no common byte it is zero.
pub proof fn lemma_hamming_byte(x: u8, y: u8, a: Seq<u8>)
    ensures
        hamming(seq![x], seq![y]) == ones(x ^ y),
        hamming(a, Seq::<u8>::empty()) == 0,
        hamming(Seq::<u8>::empty(), a) == 0,
{
    assert(seq![x].drop_first() =~= Seq::<u8>::empty());
    assert(seq![y].drop_first() =~= Seq::<u8>::empty());
    assert(hamming(Seq::<u8>::empty(), Seq::<u8>::empty()) == 0);
    assert(seq![x][0] == x && seq![y][0] == y);
    assert(hamming(seq![x], seq![y]) == ones(x ^ y) + hamming(
        Seq::<u8>::empty(),
        Seq::<u8>::empty(),
    ));
}

/// Law: the distance adds up over the parts of two hashes cut at the same
/// place: every common byte counts, wherever it stands.
pub proof fn lemma_hamming_concat(a1: Seq<u8>, a2: Seq<u8>, b1: Seq<u8>, b2: Seq<u8>)
    requires
        a1.len() == b1.len(),
    ensures
        hamming(a1 + a2, b1 + b2) == hamming(a1, b1) + hamming(a2, b2),
    decreases a1.len(),
{
    if a1.len() == 0 {
        assert(a1 + a2 =~= a2);
        assert(b1 + b2 =~= b2);
    } else {
        assert((a1 + a2).drop_first() =~= a1.drop_first() + a2);
        assert((b1 + b2).drop_first() =~= b1.drop_first() + b2);
        assert((a1 + a2)[0] == a1[0]);
        assert((b1 + b2)[0] == b1[0]);
        lemma_hamming_concat(a1.drop_first(), a2, b1.drop_first(), b2);
    }
}

/// Law: the bytes of the longer hash past the end of the shorter one do
/// not count.
pub proof fn lemma_hamming_common(a: Seq<u8>, b: Seq<u8>)
    ensures
        hamming(a, b) == hamming(a.take(b.len() as int), b) || a.len() < b.len(),
        a.len() >= b.len() ==> hamming(a, b) == hamming(a.take(b.len() as int), b),
        b.len() >= a.len() ==> hamming(a, b) == hamming(a, b.take(a.len() as int)),
    decreases a.len(),
{
    if a.len() == 0 || b.len() == 0 {
        if a.len() >= b.len() {
            assert(hamming(a.take(b.len() as int), b) == 0);
        }
        if b.len() >= a.len() {
            assert(hamming(a, b.take(a.len() as int)) == 0);
        }
    } else {
        lemma_hamming_common(a.drop_first(), b.drop_first());
        if a.len() >= b.len() {
            assert(a.take(b.len() as int).drop_first() =~= a.drop_first().take(b.drop_first().len() as int));
            assert(a.take(b.len() as int)[0] == a[0]);
        }
        if b.len() >= a.len() {
            assert(b.take(a.len() as int).drop_first() =~= b.drop_first().take(a.drop_first().len() as int));
            assert(b.take(a.len() as int)[0] == b[0]);
        }
    }
}

/// A hash whose distance to any other hash fits in a `u32`.
pub open spec fn hash_fits(b: Seq<u8>) -> bool {
    b.len() * 8 <= u32::MAX
}

/// A byte has at most eight one bits.
pub proof fn lemma_ones_bound(x: u8)
    ensures
        ones(x) <= 8,
{
    assert((x & 1u8) <= 1 && ((x >> 1u8) & 1u8) <= 1 && ((x >> 2u8) & 1u8) <= 1 && ((x >> 3u8)
        & 1u8) <= 1 && ((x >> 4u8) & 1u8) <= 1 && ((x >> 5u8) & 1u8) <= 1 && ((x >> 6u8) & 1u8)
        <= 1 && ((x >> 7u8) & 1u8) <= 1) by (bit_vector);
}

/// Two hashes are at most eight bits apart per common byte.
pub proof fn lemma_hamming_bound(a: Seq<u8>, b: Seq<u8>)
    ensures
        hamming(a, b) <= 8 * a.len(),
    decreases a.len(),
{
    if a.len() == 0 || b.len() == 0 {
    } else {
        lemma_ones_bound(a[0] ^ b[0]);
        lemma_hamming_bound(a.drop_first(), b.drop_first());
    }
}

/// Hamming distance is symmetric.
pub proof fn lemma_hamming_symmetric(a: Seq<u8>, b: Seq<u8>)
    ensures
        hamming(a, b) == hamming(b, a),
    decreases a.len(),
{
    if a.len() == 0 || b.len() == 0 {
    } else {
        let x = a[0];
        let y = b[0];
        assert(x ^ y == y ^ x) by (bit_vector);
        lemma_hamming_symmetric(a.drop_first(), b.drop_first());
    }
}

/// A hash is at distance zero from itself.
pub proof fn lemma_hamming_self(a: Seq<u8>)
    ensures
        hamming(a, a) == 0,
    decreases a.len(),
{
    if a.len() > 0 {
        let x = a[0];
        assert(x ^ x == 0u8) by (bit_vector);
        assert(ones(0u8) == 0) by (bit_vector);
        lemma_hamming_self(a.drop_first());
    }
}

/// The number of one bits of a byte.
fn count_ones(x: u8) -> (r: u32)
    ensures
        r == ones(x),
{
    assert((x & 1u8) <= 1 && ((x >> 1u8) & 1u8) <= 1 && ((x >> 2u8) & 1u8) <= 1 && ((x >> 3u8)
        & 1u8) <= 1 && ((x >> 4u8) & 1u8) <= 1 && ((x >> 5u8) & 1u8) <= 1 && ((x >> 6u8) & 1u8)
        <= 1 && ((x >> 7u8) & 1u8) <= 1) by (bit_vector);
    ((x & 1) + ((x >> 1) & 1) + ((x >> 2) & 1) + ((x >> 3) & 1) + ((x >> 4) & 1) + ((x >> 5) & 1) + (
    (x >> 6) & 1) + ((x >> 7) & 1)) as u32
}

/// The Hamming distance between two hashes (`ImageHash::dist`).
pub fn hash_distance(a: &[u8], b: &[u8]) -> (r: u32)
    requires
        hash_fits(a@) || hash_fits(b@),
    ensures
        r == hamming(a@, b@),
{
    let n = if a.len() < b.len() {
        a.len()
    } else {
        b.len()
    };
    proof {
        lemma_hamming_bound(a@, b@);
        lemma_hamming_bound(b@, a@);
        lemma_hamming_symmetric(a@, b@);
    }
    let mut total: u32 = 0;
    let mut i: usize = 0;
    assert(a@.skip(0) =~= a@);
    assert(b@.skip(0) =~= b@);
    while i < n
        invariant
            n == if a@.len() < b@.len() { a@.len() } else { b@.len() },
            i <= n,
            total + hamming(a@.skip(i as int), b@.skip(i as int)) == hamming(a@, b@),
            hamming(a@, b@) <= u32::MAX,
        decreases n - i,
    {
        let x = a[i] ^ b[i];
        let c = count_ones(x);
        assert(a@.skip(i as int).drop_first() =~= a@.skip(i + 1));
        assert(b@.skip(i as int).drop_first() =~= b@.skip(i + 1));
        total = total + c;
        i = i + 1;
    }
    total
}

} // verus!
