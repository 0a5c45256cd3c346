//! The serialized image of a filter, as the engine writes and reads it.
//!
//! Every image starts with eight flag bytes: the format version, the variant
//! tag and six zero bytes. Three little-endian words follow: the capacity, the
//! bit pattern of the false-positive rate and the number of hash rounds.
//!
//! Version 1 goes on with the number of bits, the entry count, and the bits in
//! 64-bit words. Version 2 goes on with the entry count, the size of the lookup
//! cache in bits, the cache, the number of buckets, and the buckets of 4096
//! bytes each.
//!
//! An image is complete when nothing follows the bits. This module says which
//! byte strings are complete, consistent images, and decides it. It also says
//! which images are in normal form, the form in which this crate keeps every
//! filter: without a lookup cache, and with no bit set behind the last bit of
//! the bit array.

use vstd::prelude::*;
use vstd::slice::{slice_subrange, slice_to_vec};
use crate::error::ExPoppyError;
use crate::bits::bit;
use crate::params::{
    engine_rate, is_engine_rate, is_valid_rate, supported_version, valid_rate, MAX_VARIANT_TAG,
};

verus! {

/// Length of the flag bytes.
pub const FLAGS_LEN: usize = 8;

/// Length of the part of the header that both versions have at fixed offsets.
pub const HEADER_LEN: usize = 48;

/// Bytes in one bucket of a version 2 filter.
pub const BUCKET_BYTES: u64 = 4096;

/// Bits in one bucket of a version 2 filter.
pub const BUCKET_BITS: u64 = 32768;

/// The largest bit count the engine's sizing arithmetic represents exactly.
pub const MAX_BITS: u64 = 0x20_0000_0000_0000;

/// The largest bucket count whose bits stay within `MAX_BITS`.
pub const MAX_BUCKETS: u64 = 0x40_0000_0000;

/// The little-endian value of the eight bytes of `s` that start at `at`.
pub open spec fn word_at(s: Seq<u8>, at: int) -> int {
    (s[at] as int) + 0x100 * (s[at + 1] as int) + 0x1_0000 * (s[at + 2] as int) + 0x100_0000 * (s[at
        + 3] as int) + 0x1_0000_0000 * (s[at + 4] as int) + 0x100_0000_0000 * (s[at + 5] as int)
        + 0x1_0000_0000_0000 * (s[at + 6] as int) + 0x100_0000_0000_0000 * (s[at + 7] as int)
}

/// The format version an image names.
pub open spec fn image_version(s: Seq<u8>) -> u8 {
    s[0]
}

/// The variant tag an image names.
pub open spec fn image_variant(s: Seq<u8>) -> u8 {
    s[1]
}

/// Whether the six flag bytes after version and variant are zero.
pub open spec fn reserved_clear(s: Seq<u8>) -> bool {
    s[2] == 0 && s[3] == 0 && s[4] == 0 && s[5] == 0 && s[6] == 0 && s[7] == 0
}

/// The capacity an image names.
pub open spec fn image_capacity(s: Seq<u8>) -> int {
    word_at(s, 8)
}

/// The bit pattern of the false-positive rate an image names.
pub open spec fn image_rate(s: Seq<u8>) -> int {
    word_at(s, 16)
}

/// The number of hash rounds an image names.
pub open spec fn image_hashes(s: Seq<u8>) -> int {
    word_at(s, 24)
}

/// The number of entries an image counts.
pub open spec fn image_count(s: Seq<u8>) -> int {
    if image_version(s) == 1 {
        word_at(s, 40)
    } else {
        word_at(s, 32)
    }
}

/// The size in bits of the lookup cache of an image; version 1 has none.
pub open spec fn image_cache_bits(s: Seq<u8>) -> int {
    if image_version(s) == 1 {
        0
    } else {
        word_at(s, 40)
    }
}

/// The number of buckets of a version 2 image, which stands behind the cache.
pub open spec fn image_buckets(s: Seq<u8>) -> int {
    word_at(s, HEADER_LEN + image_cache_bits(s) / 8)
}

/// The number of bits of the bit array of an image.
pub open spec fn image_bit_size(s: Seq<u8>) -> int {
    if image_version(s) == 1 {
        word_at(s, 32)
    } else {
        BUCKET_BITS * image_buckets(s)
    }
}

/// Where the count of an image stands.
pub open spec fn count_at(s: Seq<u8>) -> int {
    if image_version(s) == 1 {
        40
    } else {
        32
    }
}

/// The first byte of the bit array of an image.
pub open spec fn array_base(s: Seq<u8>) -> int {
    if image_version(s) == 1 {
        HEADER_LEN as int
    } else {
        HEADER_LEN + image_cache_bits(s) / 8 + 8
    }
}

/// The bytes of an image that hold its bit array.
pub open spec fn bit_data(s: Seq<u8>) -> Seq<u8> {
    s.subrange(array_base(s), s.len() as int)
}

/// The length that the header of an image asks the image to have.
pub open spec fn image_expected_len(s: Seq<u8>) -> int {
    if image_version(s) == 1 {
        HEADER_LEN + 8 * ((image_bit_size(s) + 63) / 64)
    } else {
        HEADER_LEN + image_cache_bits(s) / 8 + 8 + BUCKET_BYTES * image_buckets(s)
    }
}

/// What is wrong with the bit array of a version 1 image whose parameters are
/// in order.
pub open spec fn body_fault_v1(s: Seq<u8>) -> Option<ExPoppyError> {
    if image_bit_size(s) == 0 {
        Some(ExPoppyError::InvalidParameter)
    } else if image_bit_size(s) > MAX_BITS || image_hashes(s) > image_bit_size(s) || image_count(s)
        > image_capacity(s) || s.len() != image_expected_len(s) {
        Some(ExPoppyError::CorruptFormat)
    } else {
        None
    }
}

/// What is wrong with cache and buckets of a version 2 image whose parameters
/// are in order.
pub open spec fn body_fault_v2(s: Seq<u8>) -> Option<ExPoppyError> {
    if image_count(s) > image_capacity(s) || image_cache_bits(s) % 8 != 0 || image_cache_bits(s)
        > MAX_BITS || s.len() < HEADER_LEN + image_cache_bits(s) / 8 + 8 {
        Some(ExPoppyError::CorruptFormat)
    } else if image_buckets(s) == 0 {
        Some(ExPoppyError::InvalidParameter)
    } else if image_buckets(s) > MAX_BUCKETS || image_hashes(s) > image_bit_size(s) || s.len()
        != image_expected_len(s) {
        Some(ExPoppyError::CorruptFormat)
    } else {
        None
    }
}

/// Whether the rate of an image is one that the engine reads in an image of
/// its version: any valid rate in version 1, a normal one in version 2.
pub open spec fn image_rate_fits(s: Seq<u8>) -> bool {
    if image_version(s) == 1 {
        valid_rate(image_rate(s) as u64)
    } else {
        engine_rate(image_rate(s) as u64)
    }
}

/// Why `s` is not a complete, consistent image, or `None` if it is one.
///
/// * `InvalidFormat`: fewer than eight bytes, or a reserved flag byte is set.
/// * `UnsupportedVersion`: the version is neither 1 nor 2.
/// * `InvalidVariant`: the tag is above 3, or not 0 in version 1, which has no
///   variants.
/// * `InvalidParameter`: the capacity is zero or does not fit the machine, the
///   rate is not one the engine reads, or there are no hash rounds, no bits or
///   no buckets.
/// * `CorruptFormat`: the header is cut short, the count exceeds the capacity,
///   there are more hash rounds than bits, a size is beyond what the engine
///   stores, or the length of the image is not the length that its header asks
///   for.
pub open spec fn image_fault(s: Seq<u8>) -> Option<ExPoppyError> {
    if s.len() < FLAGS_LEN || !reserved_clear(s) {
        Some(ExPoppyError::InvalidFormat)
    } else if !supported_version(image_version(s)) {
        Some(ExPoppyError::UnsupportedVersion(image_version(s)))
    } else if image_variant(s) > MAX_VARIANT_TAG || (image_version(s) == 1 && image_variant(s)
        != 0) {
        Some(ExPoppyError::InvalidVariant(image_variant(s)))
    } else if s.len() < HEADER_LEN {
        Some(ExPoppyError::CorruptFormat)
    } else if image_capacity(s) == 0 || image_capacity(s) > usize::MAX || !image_rate_fits(s)
        || image_hashes(s) == 0 {
        Some(ExPoppyError::InvalidParameter)
    } else if image_version(s) == 1 {
        body_fault_v1(s)
    } else {
        body_fault_v2(s)
    }
}

/// Whether `s` is a complete, consistent image.
pub open spec fn well_formed(s: Seq<u8>) -> bool {
    image_fault(s) is None
}

/// The header of an image, read out.
#[derive(Debug, Clone, Copy, PartialEq, Eq, Structural)]
pub struct Header {
    /// The format version.
    pub version: u8,
    /// The variant tag.
    pub variant: u8,
    /// The number of entries the filter is sized for.
    pub capacity: u64,
    /// The bit pattern of the false-positive rate.
    pub rate_bits: u64,
    /// The number of hash rounds.
    pub hashes: u64,
    /// The number of entries counted.
    pub count: u64,
    /// The number of bits of the bit array.
    pub bit_size: u64,
    /// The number of bits of the lookup cache.
    pub cache_bits: u64,
}

/// The header of the image `s`.
pub open spec fn header_of(s: Seq<u8>) -> Header {
    Header {
        version: image_version(s),
        variant: image_variant(s),
        capacity: image_capacity(s) as u64,
        rate_bits: image_rate(s) as u64,
        hashes: image_hashes(s) as u64,
        count: image_count(s) as u64,
        bit_size: image_bit_size(s) as u64,
        cache_bits: image_cache_bits(s) as u64,
    }
}

/// A word is a 64-bit value.
pub proof fn lemma_word_range(s: Seq<u8>, at: int)
    ensures
        0 <= word_at(s, at) <= u64::MAX,
{
}

/// A word depends on its eight bytes alone.
pub proof fn lemma_word_same(a: Seq<u8>, b: Seq<u8>, at: int)
    requires
        forall|i: int| at <= i < at + 8 ==> a[i] == b[i],
    ensures
        word_at(a, at) == word_at(b, at),
{
}

/// A word has the value of any word with the same eight bytes.
pub proof fn lemma_word_moved(a: Seq<u8>, at: int, b: Seq<u8>, to: int)
    requires
        a[at] == b[to],
        a[at + 1] == b[to + 1],
        a[at + 2] == b[to + 2],
        a[at + 3] == b[to + 3],
        a[at + 4] == b[to + 4],
        a[at + 5] == b[to + 5],
        a[at + 6] == b[to + 6],
        a[at + 7] == b[to + 7],
    ensures
        word_at(a, at) == word_at(b, to),
{
}

/// `s` with the eight bytes that start at `at` replaced by the little-endian
/// bytes of `v`.
pub open spec fn put_word(s: Seq<u8>, at: int, v: int) -> Seq<u8> {
    s.update(at, (v % 0x100) as u8).update(at + 1, (v / 0x100 % 0x100) as u8).update(
        at + 2,
        (v / 0x1_0000 % 0x100) as u8,
    ).update(at + 3, (v / 0x100_0000 % 0x100) as u8).update(
        at + 4,
        (v / 0x1_0000_0000 % 0x100) as u8,
    ).update(at + 5, (v / 0x100_0000_0000 % 0x100) as u8).update(
        at + 6,
        (v / 0x1_0000_0000_0000 % 0x100) as u8,
    ).update(at + 7, (v / 0x100_0000_0000_0000 % 0x100) as u8)
}

/// A 64-bit value is the sum of its eight little-endian bytes, each at its
/// place.
pub proof fn lemma_word_digits(v: u64)
    ensures
        v == (v % 0x100) + 0x100 * (v / 0x100 % 0x100) + 0x1_0000 * (v / 0x1_0000 % 0x100)
            + 0x100_0000 * (v / 0x100_0000 % 0x100) + 0x1_0000_0000 * (v / 0x1_0000_0000 % 0x100)
            + 0x100_0000_0000 * (v / 0x100_0000_0000 % 0x100) + 0x1_0000_0000_0000 * (v
            / 0x1_0000_0000_0000 % 0x100) + 0x100_0000_0000_0000 * (v / 0x100_0000_0000_0000
            % 0x100),
{
    assert(v == (v % 0x100) + 0x100 * (v / 0x100 % 0x100) + 0x1_0000 * (v / 0x1_0000 % 0x100)
        + 0x100_0000 * (v / 0x100_0000 % 0x100) + 0x1_0000_0000 * (v / 0x1_0000_0000 % 0x100)
        + 0x100_0000_0000 * (v / 0x100_0000_0000 % 0x100) + 0x1_0000_0000_0000 * (v
        / 0x1_0000_0000_0000 % 0x100) + 0x100_0000_0000_0000 * (v / 0x100_0000_0000_0000
        % 0x100)) by (bit_vector);
}

/// A word that was put is the word that is read, and no other byte changes.
pub proof fn lemma_put_word(s: Seq<u8>, at: int, v: int)
    requires
        0 <= at,
        at + 8 <= s.len(),
        0 <= v <= u64::MAX,
    ensures
        put_word(s, at, v).len() == s.len(),
        word_at(put_word(s, at, v), at) == v,
        forall|i: int| 0 <= i < s.len() && !(at <= i < at + 8) ==> put_word(s, at, v)[i] == s[i],
{
    let t = put_word(s, at, v);
    lemma_word_digits(v as u64);
    assert(t[at] == (v % 0x100) as u8);
    assert(t[at + 1] == (v / 0x100 % 0x100) as u8);
    assert(t[at + 2] == (v / 0x1_0000 % 0x100) as u8);
    assert(t[at + 3] == (v / 0x100_0000 % 0x100) as u8);
    assert(t[at + 4] == (v / 0x1_0000_0000 % 0x100) as u8);
    assert(t[at + 5] == (v / 0x100_0000_0000 % 0x100) as u8);
    assert(t[at + 6] == (v / 0x1_0000_0000_0000 % 0x100) as u8);
    assert(t[at + 7] == (v / 0x100_0000_0000_0000 % 0x100) as u8);
}

/// Reads the little-endian word that starts at `at`.
pub fn read_word(bytes: &[u8], at: usize) -> (w: u64)
    requires
        at + 8 <= bytes.len(),
    ensures
        w == word_at(bytes@, at as int),
{
    let b0: u64 = bytes[at] as u64;
    let b1: u64 = bytes[at + 1] as u64;
    let b2: u64 = bytes[at + 2] as u64;
    let b3: u64 = bytes[at + 3] as u64;
    let b4: u64 = bytes[at + 4] as u64;
    let b5: u64 = bytes[at + 5] as u64;
    let b6: u64 = bytes[at + 6] as u64;
    let b7: u64 = bytes[at + 7] as u64;
    b0 + 0x100 * b1 + 0x1_0000 * b2 + 0x100_0000 * b3 + 0x1_0000_0000 * b4 + 0x100_0000_0000 * b5
        + 0x1_0000_0000_0000 * b6 + 0x100_0000_0000_0000 * b7
}

/// Decides whether `bytes` is a complete, consistent image and reads its header.
pub fn check_image(bytes: &[u8]) -> (r: Result<Header, ExPoppyError>)
    ensures
        r == match image_fault(bytes@) {
            Some(e) => Err::<Header, ExPoppyError>(e),
            None => Ok(header_of(bytes@)),
        },
        r is Ok <==> well_formed(bytes@),
{
    let len: usize = bytes.len();
    if len < FLAGS_LEN {
        return Err(ExPoppyError::InvalidFormat);
    }
    if bytes[2] != 0 || bytes[3] != 0 || bytes[4] != 0 || bytes[5] != 0 || bytes[6] != 0
        || bytes[7] != 0 {
        return Err(ExPoppyError::InvalidFormat);
    }
    let version: u8 = bytes[0];
    let variant: u8 = bytes[1];
    if version != 1 && version != 2 {
        return Err(ExPoppyError::UnsupportedVersion(version));
    }
    if variant > MAX_VARIANT_TAG || (version == 1 && variant != 0) {
        return Err(ExPoppyError::InvalidVariant(variant));
    }
    if len < HEADER_LEN {
        return Err(ExPoppyError::CorruptFormat);
    }
    let capacity: u64 = read_word(bytes, 8);
    let rate_bits: u64 = read_word(bytes, 16);
    let hashes: u64 = read_word(bytes, 24);
    let rate_fits = if version == 1 {
        is_valid_rate(rate_bits)
    } else {
        is_engine_rate(rate_bits)
    };
    if capacity == 0 || capacity > usize::MAX as u64 || !rate_fits || hashes == 0 {
        return Err(ExPoppyError::InvalidParameter);
    }
    let total: u64 = len as u64;
    if version == 1 {
        let bit_size: u64 = read_word(bytes, 32);
        let count: u64 = read_word(bytes, 40);
        if bit_size == 0 {
            return Err(ExPoppyError::InvalidParameter);
        }
        if bit_size > MAX_BITS || hashes > bit_size || count > capacity {
            return Err(ExPoppyError::CorruptFormat);
        }
        let words: u64 = (bit_size + 63) / 64;
        if total != 48 + 8 * words {
            return Err(ExPoppyError::CorruptFormat);
        }
        Ok(Header { version, variant, capacity, rate_bits, hashes, count, bit_size, cache_bits: 0 })
    } else {
        let count: u64 = read_word(bytes, 32);
        let cache_bits: u64 = read_word(bytes, 40);
        if count > capacity || cache_bits % 8 != 0 || cache_bits > MAX_BITS {
            return Err(ExPoppyError::CorruptFormat);
        }
        let cache_bytes: u64 = cache_bits / 8;
        if total < 56 + cache_bytes {
            return Err(ExPoppyError::CorruptFormat);
        }
        let at: usize = (48 + cache_bytes) as usize;
        let buckets: u64 = read_word(bytes, at);
        if buckets == 0 {
            return Err(ExPoppyError::InvalidParameter);
        }
        if buckets > MAX_BUCKETS || hashes > BUCKET_BITS * buckets || total != 56 + cache_bytes
            + BUCKET_BYTES * buckets {
            return Err(ExPoppyError::CorruptFormat);
        }
        Ok(
            Header {
                version,
                variant,
                capacity,
                rate_bits,
                hashes,
                count,
                bit_size: BUCKET_BITS * buckets,
                cache_bits,
            },
        )
    }
}

/// Whether no bit is set behind the last bit of the bit array: the bits that
/// fill up the last word of a version 1 image are unset.
pub open spec fn padding_clear(s: Seq<u8>) -> bool {
    forall|q: int|
        image_bit_size(s) <= q < 8 * (s.len() - array_base(s)) ==> !#[trigger] bit(
            s,
            8 * array_base(s) + q,
        )
}

/// Whether an image is in normal form: it has no lookup cache and its padding
/// is clear.
pub open spec fn normal(s: Seq<u8>) -> bool {
    image_cache_bits(s) == 0 && padding_clear(s)
}

/// Whether an image is well formed and in normal form.
pub open spec fn sound(s: Seq<u8>) -> bool {
    well_formed(s) && normal(s)
}

/// Eight zero bytes.
pub open spec fn zero_word() -> Seq<u8> {
    seq![0u8, 0u8, 0u8, 0u8, 0u8, 0u8, 0u8, 0u8]
}

/// The image `s` without its lookup cache and with a count of zero: the header
/// up to the count, a zero count, in version 2 a zero cache size, and what
/// stands behind the cache.
pub open spec fn normalised(s: Seq<u8>) -> Seq<u8> {
    if image_version(s) == 1 {
        s.subrange(0, 40) + zero_word() + s.subrange(48, s.len() as int)
    } else {
        s.subrange(0, 32) + zero_word() + zero_word() + s.subrange(
            HEADER_LEN + image_cache_bits(s) / 8,
            s.len() as int,
        )
    }
}

/// Taking the cache out of a well-formed image and zeroing its count leaves a
/// well-formed image without a cache, with the same parameters and sizes and
/// with the same bytes in its bit array.
pub proof fn lemma_normalised(s: Seq<u8>)
    requires
        well_formed(s),
    ensures
        well_formed(normalised(s)),
        image_cache_bits(normalised(s)) == 0,
        image_count(normalised(s)) == 0,
        image_version(normalised(s)) == image_version(s),
        image_variant(normalised(s)) == image_variant(s),
        image_capacity(normalised(s)) == image_capacity(s),
        image_rate(normalised(s)) == image_rate(s),
        image_hashes(normalised(s)) == image_hashes(s),
        image_bit_size(normalised(s)) == image_bit_size(s),
        normalised(s).len() - array_base(normalised(s)) == s.len() - array_base(s),
        forall|i: int|
            0 <= i < s.len() - array_base(s) ==> #[trigger] normalised(s)[array_base(
                normalised(s),
            ) + i] == s[array_base(s) + i],
{
    let t = normalised(s);
    lemma_word_range(s, 8);
    lemma_word_range(s, 32);
    lemma_word_range(s, 40);
    assert(forall|i: int| 0 <= i < 32 ==> t[i] == s[i]);
    lemma_word_same(s, t, 8);
    lemma_word_same(s, t, 16);
    lemma_word_same(s, t, 24);
    if image_version(s) == 1 {
        assert(t.len() == s.len());
        assert(forall|i: int| 32 <= i < 40 ==> t[i] == s[i]);
        assert(forall|i: int| 40 <= i < 48 ==> t[i] == 0);
        assert(forall|i: int| 48 <= i < s.len() ==> t[i] == s[i]);
        lemma_word_same(s, t, 32);
        assert(word_at(t, 40) == 0);
    } else {
        let cut = HEADER_LEN + image_cache_bits(s) / 8;
        assert(t.len() == s.len() - image_cache_bits(s) / 8);
        assert(forall|i: int| 32 <= i < 48 ==> t[i] == 0);
        assert(forall|i: int| 48 <= i < t.len() ==> t[i] == s[i - 48 + cut]);
        assert(word_at(t, 32) == 0);
        assert(word_at(t, 40) == 0);
        lemma_word_moved(t, 48, s, cut);
    }
}

/// Takes the cache out of an image and zeroes its count.
pub fn normalise(image: &[u8]) -> (out: Vec<u8>)
    requires
        well_formed(image@),
    ensures
        out@ == normalised(image@),
{
    proof {
        lemma_word_range(image@, 40);
    }
    let version = image[0];
    let mut out: Vec<u8>;
    let from: usize;
    if version == 1 {
        out = slice_to_vec(slice_subrange(image, 0, 40));
        push_zero_word(&mut out);
        from = 48;
    } else {
        let cache_bits = read_word(image, 40);
        out = slice_to_vec(slice_subrange(image, 0, 32));
        push_zero_word(&mut out);
        push_zero_word(&mut out);
        from = 48 + (cache_bits / 8) as usize;
    }
    let mut rest = slice_to_vec(slice_subrange(image, from, image.len()));
    out.append(&mut rest);
    out
}

/// Appends eight zero bytes.
pub fn push_zero_word(out: &mut Vec<u8>)
    ensures
        final(out)@ == old(out)@ + zero_word(),
{
    out.push(0);
    out.push(0);
    out.push(0);
    out.push(0);
    out.push(0);
    out.push(0);
    out.push(0);
    out.push(0);
    proof {
        assert(out@ =~= old(out)@ + zero_word());
    }
}

/// Tells whether the padding of a well-formed image is clear.
pub fn padding_is_clear(image: &[u8], header: &Header) -> (b: bool)
    requires
        well_formed(image@),
        *header == header_of(image@),
    ensures
        b == padding_clear(image@),
{
    proof {
        lemma_word_range(image@, 32);
        lemma_word_range(image@, 40);
        lemma_word_range(image@, HEADER_LEN + image_cache_bits(image@) / 8);
    }
    if header.version != 1 {
        return true;
    }
    let base: usize = 48;
    let len: usize = image.len();
    let end: u64 = 8 * ((len - base) as u64);
    let mut q: u64 = header.bit_size;
    while q < end
        invariant
            well_formed(image@),
            image_version(image@) == 1,
            base == array_base(image@),
            len == image@.len(),
            base <= len,
            end == 8 * (len - base),
            header.bit_size <= q <= end,
            header.bit_size == image_bit_size(image@),
            forall|p: int| image_bit_size(image@) <= p < q ==> !#[trigger] bit(image@, 8 * base + p),
        decreases end - q,
    {
        assert(q / 8 < len - base);
        let byte = image[base + (q / 8) as usize];
        let j: u8 = (q % 8) as u8;
        proof {
            assert((8 * base + q) / 8 == base + q / 8);
            assert((8 * base + q) % 8 == q % 8);
        }
        if byte & (1u8 << j) != 0 {
            assert(bit(image@, 8 * base + q));
            return false;
        }
        q += 1;
    }
    true
}

/// The eight little-endian bytes of `v`.
pub open spec fn word_bytes(v: int) -> Seq<u8> {
    put_word(zero_word(), 0, v)
}

/// The bytes of a word are the bytes of its value.
pub proof fn lemma_word_bytes(v: int)
    requires
        0 <= v <= u64::MAX,
    ensures
        word_bytes(v).len() == 8,
        word_at(word_bytes(v), 0) == v,
{
    lemma_put_word(zero_word(), 0, v);
}

/// Appends the eight little-endian bytes of `v`.
pub fn push_word(out: &mut Vec<u8>, v: u64)
    ensures
        final(out)@ == old(out)@ + word_bytes(v as int),
{
    out.push((v % 0x100) as u8);
    out.push((v / 0x100 % 0x100) as u8);
    out.push((v / 0x1_0000 % 0x100) as u8);
    out.push((v / 0x100_0000 % 0x100) as u8);
    out.push((v / 0x1_0000_0000 % 0x100) as u8);
    out.push((v / 0x100_0000_0000 % 0x100) as u8);
    out.push((v / 0x1_0000_0000_0000 % 0x100) as u8);
    out.push((v / 0x100_0000_0000_0000 % 0x100) as u8);
    proof {
        assert(out@ =~= old(out)@ + word_bytes(v as int));
    }
}

/// The image `s` with its sizes bounded from below: at least one hash round,
/// and at least one bit. The engine sizes a filter for few entries at a high
/// rate to no bits or no hash rounds; such a filter is given one hash round,
/// and in version 1 one word for its one bit.
pub open spec fn lifted(s: Seq<u8>) -> Seq<u8> {
    if s.len() < HEADER_LEN {
        s
    } else if image_version(s) == 1 && word_at(s, 32) == 0 {
        s.subrange(0, 24) + word_bytes(1) + word_bytes(1) + s.subrange(40, s.len() as int)
            + zero_word()
    } else if image_hashes(s) == 0 {
        s.subrange(0, 24) + word_bytes(1) + s.subrange(32, s.len() as int)
    } else {
        s
    }
}

/// Bounds the sizes of an image from below.
pub fn lift(image: Vec<u8>) -> (out: Vec<u8>)
    ensures
        out@ == lifted(image@),
{
    if image.len() < HEADER_LEN {
        return image;
    }
    let bytes = image.as_slice();
    let version = bytes[0];
    let hashes = read_word(bytes, 24);
    let bit_size = read_word(bytes, 32);
    if version == 1 && bit_size == 0 {
        let mut out = slice_to_vec(slice_subrange(bytes, 0, 24));
        push_word(&mut out, 1);
        push_word(&mut out, 1);
        let mut rest = slice_to_vec(slice_subrange(bytes, 40, bytes.len()));
        out.append(&mut rest);
        push_zero_word(&mut out);
        out
    } else if hashes == 0 {
        let mut out = slice_to_vec(slice_subrange(bytes, 0, 24));
        push_word(&mut out, 1);
        let mut rest = slice_to_vec(slice_subrange(bytes, 32, bytes.len()));
        out.append(&mut rest);
        out
    } else {
        image
    }
}

} // verus!
