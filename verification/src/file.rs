//! The file of a filter: the bytes that `save` writes and `load_filter` reads.
//!
//! A file starts with the four magic bytes `POPY`. The format version and the
//! variant tag follow, one byte each, and then four little-endian words: the
//! capacity, the bit pattern of the false-positive rate, the number k of hash
//! rounds and the number m of bits. The bit array stands behind them in
//! `ceil(m / 8)` bytes, bit `i` at bit `i % 8` of byte `i / 8`; the bits that
//! fill up the last byte are unset.
//!
//! The engine keeps its filters in a layout of its own, the image. This module
//! says which bytes are a file, and carries a file over to the image of the
//! same filter and an image back to the file.

use vstd::prelude::*;
use vstd::slice::{slice_subrange, slice_to_vec};
use crate::bits::bit;
use crate::error::ExPoppyError;
use crate::image::{
    array_base, image_bit_size, image_cache_bits, image_capacity, image_count, image_hashes,
    image_rate, image_variant, image_version, lemma_word_bytes, lemma_word_moved,
    lemma_word_range, push_word, push_zero_word, read_word, sound, well_formed, word_at,
    word_bytes, zero_word, Header, BUCKET_BITS, HEADER_LEN, MAX_BITS,
};
use crate::membership::{view_of_image, FilterView};
use crate::params::{
    engine_rate, is_engine_rate, is_valid_rate, supported_version, valid_rate, MAX_VARIANT_TAG,
};

verus! {

/// Length of the magic bytes.
pub const MAGIC_LEN: usize = 4;

/// Length of the header of a file: magic, version, variant and four words.
pub const FILE_HEADER_LEN: usize = 38;

/// Whether `f` starts with the magic bytes, `POPY`.
pub open spec fn has_magic(f: Seq<u8>) -> bool {
    f[0] == 0x50 && f[1] == 0x4f && f[2] == 0x50 && f[3] == 0x59
}

/// The format version a file names.
pub open spec fn file_version(f: Seq<u8>) -> u8 {
    f[4]
}

/// The variant tag a file names.
pub open spec fn file_variant(f: Seq<u8>) -> u8 {
    f[5]
}

/// The capacity a file names.
pub open spec fn file_capacity(f: Seq<u8>) -> int {
    word_at(f, 6)
}

/// The bit pattern of the false-positive rate a file names.
pub open spec fn file_rate(f: Seq<u8>) -> int {
    word_at(f, 14)
}

/// The number of hash rounds a file names, k.
pub open spec fn file_hashes(f: Seq<u8>) -> int {
    word_at(f, 22)
}

/// The number of bits a file names, m.
pub open spec fn file_bit_size(f: Seq<u8>) -> int {
    word_at(f, 30)
}

/// The number of bytes that hold the bit array of a file: `ceil(m / 8)`.
pub open spec fn file_data_len(f: Seq<u8>) -> int {
    (file_bit_size(f) + 7) / 8
}

/// Whether the bits that fill up the last byte of a file are unset.
pub open spec fn file_padding_clear(f: Seq<u8>) -> bool {
    forall|q: int|
        file_bit_size(f) <= q < 8 * file_data_len(f) ==> !#[trigger] bit(
            f,
            8 * FILE_HEADER_LEN + q,
        )
}

/// Whether the rate of a file is one that a filter of its version can have:
/// any valid rate in version 1; in version 2 a normal one, since the engine
/// reads no other.
pub open spec fn file_rate_fits(f: Seq<u8>) -> bool {
    if file_version(f) == 1 {
        valid_rate(file_rate(f) as u64)
    } else {
        engine_rate(file_rate(f) as u64)
    }
}

/// Why `f` is not the file of a filter, or `None` if it is one.
///
/// * `InvalidFormat`: `f` does not start with the magic bytes.
/// * `UnsupportedVersion`: the version is neither 1 nor 2.
/// * `InvalidVariant`: the tag is above 3, or not 0 in version 1, which has no
///   variants.
/// * `InvalidParameter`: the capacity is zero or does not fit the machine, the
///   rate does not fit, or there are no hash rounds or no bits.
/// * `CorruptFormat`: the header is cut short, there are more bits than the
///   engine stores or more hash rounds than bits, the bits of version 2 are no
///   whole buckets, the length of the file is not the length that its header
///   asks for, or a bit is set behind the last bit of the bit array.
pub open spec fn file_fault(f: Seq<u8>) -> Option<ExPoppyError> {
    if f.len() < MAGIC_LEN || !has_magic(f) {
        Some(ExPoppyError::InvalidFormat)
    } else if f.len() < FILE_HEADER_LEN {
        Some(ExPoppyError::CorruptFormat)
    } else if !supported_version(file_version(f)) {
        Some(ExPoppyError::UnsupportedVersion(file_version(f)))
    } else if file_variant(f) > MAX_VARIANT_TAG || (file_version(f) == 1 && file_variant(f) != 0) {
        Some(ExPoppyError::InvalidVariant(file_variant(f)))
    } else if file_capacity(f) == 0 || file_capacity(f) > usize::MAX || !file_rate_fits(f)
        || file_hashes(f) == 0 || file_bit_size(f) == 0 {
        Some(ExPoppyError::InvalidParameter)
    } else if file_bit_size(f) > MAX_BITS || file_hashes(f) > file_bit_size(f) || (file_version(f)
        == 2 && file_bit_size(f) % (BUCKET_BITS as int) != 0) || f.len() != FILE_HEADER_LEN
        + file_data_len(f) || !file_padding_clear(f) {
        Some(ExPoppyError::CorruptFormat)
    } else {
        None
    }
}

/// The filter that a file stands for.
pub open spec fn view_of_file(f: Seq<u8>) -> FilterView {
    FilterView {
        version: file_version(f),
        variant: file_variant(f),
        capacity: file_capacity(f) as nat,
        rate_bits: file_rate(f) as u64,
        hash_count: file_hashes(f) as nat,
        bit_size: file_bit_size(f) as nat,
        bits: Seq::new(file_bit_size(f) as nat, |j: int| bit(f, 8 * FILE_HEADER_LEN + j)),
    }
}

/// `n` zero bytes.
pub open spec fn zeros(n: int) -> Seq<u8> {
    Seq::new(n as nat, |i: int| 0u8)
}

/// The number of bytes that fill up the bit array of a version 1 image to
/// whole words of eight bytes.
pub open spec fn fill_len(m: int) -> int {
    8 * ((m + 63) / 64) - (m + 7) / 8
}

/// The image of the filter that the file `f` stands for, with a count of zero
/// and without a lookup cache.
pub open spec fn image_of_file(f: Seq<u8>) -> Seq<u8> {
    let flags = seq![f[4], f[5], 0u8, 0u8, 0u8, 0u8, 0u8, 0u8];
    if file_version(f) == 1 {
        flags + f.subrange(6, 38) + zero_word() + f.subrange(38, f.len() as int) + zeros(
            fill_len(file_bit_size(f)),
        )
    } else {
        flags + f.subrange(6, 30) + zero_word() + zero_word() + word_bytes(
            file_bit_size(f) / (BUCKET_BITS as int),
        ) + f.subrange(38, f.len() as int)
    }
}

/// The file of the filter that the sound image `s` stands for.
pub open spec fn file_of_image(s: Seq<u8>) -> Seq<u8> {
    seq![0x50u8, 0x4fu8, 0x50u8, 0x59u8, s[0], s[1]] + s.subrange(8, 32) + word_bytes(
        image_bit_size(s),
    ) + s.subrange(array_base(s), array_base(s) + (image_bit_size(s) + 7) / 8)
}

/// A bit has the value of the bit at the same place of an equal byte.
pub proof fn lemma_bit_moved(a: Seq<u8>, base: int, b: Seq<u8>, to: int, j: int)
    requires
        0 <= j,
        0 <= base,
        0 <= to,
        a[base + j / 8] == b[to + j / 8],
    ensures
        bit(a, 8 * base + j) == bit(b, 8 * to + j),
{
    assert((8 * base + j) / 8 == base + j / 8);
    assert((8 * to + j) / 8 == to + j / 8);
    assert((8 * base + j) % 8 == j % 8);
    assert((8 * to + j) % 8 == j % 8);
}

/// No bit of a zero byte is set.
pub proof fn lemma_zero_byte(j: u8)
    requires
        j < 8,
    ensures
        !crate::bits::has_bit(0u8, j),
{
    assert(j < 8 ==> 0u8 & (1u8 << j) == 0) by (bit_vector);
}

/// Whether the image `g` holds what the file `f` holds, each byte at its
/// place: flags, parameters, sizes, a zero count, no cache, and the bit array
/// with `fill` zero bytes behind it.
pub open spec fn carries(f: Seq<u8>, g: Seq<u8>, base: int, data: int, fill: int) -> bool {
    &&& f.len() == FILE_HEADER_LEN + data
    &&& g.len() == base + data + fill
    &&& g[0] == f[4] && g[1] == f[5]
    &&& g[2] == 0 && g[3] == 0 && g[4] == 0 && g[5] == 0 && g[6] == 0 && g[7] == 0
    &&& forall|i: int| 8 <= i < 32 ==> #[trigger] g[i] == f[i - 2]
    &&& forall|i: int| base <= i < base + data ==> #[trigger] g[i] == f[i - base + 38]
    &&& forall|i: int| base + data <= i < g.len() ==> #[trigger] g[i] == 0
}

/// The image of a version 1 file holds what the file holds.
pub proof fn lemma_carries_v1(f: Seq<u8>)
    requires
        f.len() == FILE_HEADER_LEN + file_data_len(f),
        0 <= file_bit_size(f),
        file_version(f) == 1,
    ensures
        carries(f, image_of_file(f), 48, file_data_len(f), fill_len(file_bit_size(f))),
        forall|i: int| 32 <= i < 40 ==> #[trigger] image_of_file(f)[i] == f[i - 2],
        forall|i: int| 40 <= i < 48 ==> #[trigger] image_of_file(f)[i] == 0,
{
}

/// The image of a version 2 file holds what the file holds, and the number of
/// its buckets.
pub proof fn lemma_carries_v2(f: Seq<u8>)
    requires
        f.len() == FILE_HEADER_LEN + file_data_len(f),
        0 <= file_bit_size(f) <= u64::MAX,
        file_version(f) != 1,
    ensures
        carries(f, image_of_file(f), 56, file_data_len(f), 0),
        forall|i: int| 32 <= i < 48 ==> #[trigger] image_of_file(f)[i] == 0,
        word_at(image_of_file(f), 48) == file_bit_size(f) / (BUCKET_BITS as int),
{
    let g = image_of_file(f);
    let buckets = file_bit_size(f) / (BUCKET_BITS as int);
    lemma_word_bytes(buckets);
    let w = word_bytes(buckets);
    assert(forall|i: int| 48 <= i < 56 ==> #[trigger] g[i] == w[i - 48]);
    lemma_word_moved(g, 48, w, 0);
}

/// An image that holds what a file holds names the same parameters.
pub proof fn lemma_carried_fields(f: Seq<u8>, g: Seq<u8>, base: int, data: int, fill: int)
    requires
        carries(f, g, base, data, fill),
        base >= 32,
    ensures
        image_version(g) == file_version(f),
        image_variant(g) == file_variant(f),
        image_capacity(g) == file_capacity(f),
        image_rate(g) == file_rate(f),
        image_hashes(g) == file_hashes(f),
{
    lemma_word_moved(g, 8, f, 6);
    lemma_word_moved(g, 16, f, 14);
    lemma_word_moved(g, 24, f, 22);
}

/// An image that holds what a file holds has the same bits in its bit array,
/// and none set behind them.
pub proof fn lemma_carried_bits(f: Seq<u8>, g: Seq<u8>, base: int, data: int, fill: int, j: int)
    requires
        carries(f, g, base, data, fill),
        base >= 32,
        0 <= j < 8 * (data + fill),
    ensures
        j < 8 * data ==> bit(g, 8 * base + j) == bit(f, 8 * FILE_HEADER_LEN + j),
        j >= 8 * data ==> !bit(g, 8 * base + j),
{
    if j < 8 * data {
        assert(g[base + j / 8] == f[base + j / 8 - base + 38]);
        lemma_bit_moved(g, base, f, 38, j);
    } else {
        assert(g[base + j / 8] == 0);
        assert((8 * base + j) / 8 == base + j / 8);
        lemma_zero_byte(((8 * base + j) % 8) as u8);
    }
}

/// The image of a version 1 file is well formed, with the sizes of the file and
/// a count of zero.
proof fn lemma_image_of_file_v1(f: Seq<u8>)
    requires
        file_fault(f) is None,
        file_version(f) == 1,
    ensures
        well_formed(image_of_file(f)),
        image_count(image_of_file(f)) == 0,
        image_cache_bits(image_of_file(f)) == 0,
        image_bit_size(image_of_file(f)) == file_bit_size(f),
        array_base(image_of_file(f)) == 48,
        carries(f, image_of_file(f), 48, file_data_len(f), fill_len(file_bit_size(f))),
{
    let g = image_of_file(f);
    lemma_word_range(f, 6);
    lemma_word_range(f, 14);
    lemma_word_range(f, 22);
    lemma_word_range(f, 30);
    lemma_carries_v1(f);
    lemma_carried_fields(f, g, 48, file_data_len(f), fill_len(file_bit_size(f)));
    lemma_word_moved(g, 32, f, 30);
    assert(word_at(g, 40) == 0);
}

/// The image of a version 2 file is well formed, with the sizes of the file, a
/// count of zero and no cache.
proof fn lemma_image_of_file_v2(f: Seq<u8>)
    requires
        file_fault(f) is None,
        file_version(f) == 2,
    ensures
        well_formed(image_of_file(f)),
        image_count(image_of_file(f)) == 0,
        image_cache_bits(image_of_file(f)) == 0,
        image_bit_size(image_of_file(f)) == file_bit_size(f),
        array_base(image_of_file(f)) == 56,
        carries(f, image_of_file(f), 56, file_data_len(f), 0),
{
    let g = image_of_file(f);
    lemma_word_range(f, 6);
    lemma_word_range(f, 14);
    lemma_word_range(f, 22);
    lemma_word_range(f, 30);
    lemma_carries_v2(f);
    lemma_carried_fields(f, g, 56, file_data_len(f), 0);
    assert(word_at(g, 32) == 0);
    assert(word_at(g, 40) == 0);
}

/// The image of a file is sound, has a count of zero and stands for the filter
/// that the file stands for.
pub proof fn lemma_image_of_file(f: Seq<u8>)
    requires
        file_fault(f) is None,
    ensures
        sound(image_of_file(f)),
        image_count(image_of_file(f)) == 0,
        view_of_image(image_of_file(f)) == view_of_file(f),
{
    let g = image_of_file(f);
    let m = file_bit_size(f);
    let d = file_data_len(f);
    let base: int = if file_version(f) == 1 {
        48
    } else {
        56
    };
    let fill: int = if file_version(f) == 1 {
        fill_len(m)
    } else {
        0
    };
    if file_version(f) == 1 {
        lemma_image_of_file_v1(f);
    } else {
        lemma_image_of_file_v2(f);
    }
    lemma_carried_fields(f, g, base, d, fill);
    lemma_word_range(f, 30);
    assert forall|q: int| image_bit_size(g) <= q < 8 * (g.len() - array_base(g)) implies !#[trigger] bit(
        g,
        8 * array_base(g) + q,
    ) by {
        lemma_carried_bits(f, g, base, d, fill, q);
        if q < 8 * d {
            assert(!bit(f, 8 * FILE_HEADER_LEN + q));
        }
    }
    assert forall|j: int| 0 <= j < m implies #[trigger] view_of_image(g).bits[j] == view_of_file(
        f,
    ).bits[j] by {
        lemma_carried_bits(f, g, base, d, fill, j);
    }
    assert(view_of_image(g).bits =~= view_of_file(f).bits);
}

/// Whether the file `f` holds what the image `s` holds, each byte at its
/// place: magic, version, variant, parameters, the number of bits and the bit
/// array.
pub open spec fn packs(s: Seq<u8>, f: Seq<u8>, base: int, data: int) -> bool {
    &&& f.len() == FILE_HEADER_LEN + data
    &&& has_magic(f)
    &&& f[4] == s[0] && f[5] == s[1]
    &&& forall|i: int| 6 <= i < 30 ==> #[trigger] f[i] == s[i + 2]
    &&& forall|i: int| 38 <= i < 38 + data ==> #[trigger] f[i] == s[i - 38 + base]
}

/// The file of an image holds what the image holds.
pub proof fn lemma_packs(s: Seq<u8>)
    requires
        s.len() >= array_base(s) + (image_bit_size(s) + 7) / 8,
        array_base(s) >= HEADER_LEN,
        0 <= image_bit_size(s) <= u64::MAX,
    ensures
        packs(s, file_of_image(s), array_base(s), (image_bit_size(s) + 7) / 8),
        file_bit_size(file_of_image(s)) == image_bit_size(s),
{
    let f = file_of_image(s);
    let w = word_bytes(image_bit_size(s));
    lemma_word_bytes(image_bit_size(s));
    assert(forall|i: int| 30 <= i < 38 ==> #[trigger] f[i] == w[i - 30]);
    lemma_word_moved(f, 30, w, 0);
}

/// A file that holds what an image holds names the same parameters.
pub proof fn lemma_packed_fields(s: Seq<u8>, f: Seq<u8>, base: int, data: int)
    requires
        packs(s, f, base, data),
    ensures
        file_version(f) == image_version(s),
        file_variant(f) == image_variant(s),
        file_capacity(f) == image_capacity(s),
        file_rate(f) == image_rate(s),
        file_hashes(f) == image_hashes(s),
{
    lemma_word_moved(f, 6, s, 8);
    lemma_word_moved(f, 14, s, 16);
    lemma_word_moved(f, 22, s, 24);
}

/// A file that holds what an image holds has the bits of its bit array.
pub proof fn lemma_packed_bits(s: Seq<u8>, f: Seq<u8>, base: int, data: int, j: int)
    requires
        packs(s, f, base, data),
        base >= 0,
        0 <= j < 8 * data,
    ensures
        bit(f, 8 * FILE_HEADER_LEN + j) == bit(s, 8 * base + j),
{
    assert(f[38 + j / 8] == s[38 + j / 8 - 38 + base]);
    lemma_bit_moved(f, 38, s, base, j);
}

/// The bit array of a well-formed image lies within the image, behind the
/// header.
pub proof fn lemma_data_fits(s: Seq<u8>)
    requires
        well_formed(s),
    ensures
        HEADER_LEN <= array_base(s),
        array_base(s) + (image_bit_size(s) + 7) / 8 <= s.len(),
        1 <= image_bit_size(s) <= MAX_BITS,
        image_version(s) == 1 ==> array_base(s) == 48,
        image_version(s) != 1 ==> array_base(s) == 56 + image_cache_bits(s) / 8,
        image_version(s) != 1 ==> image_bit_size(s) % (BUCKET_BITS as int) == 0,
{
    lemma_word_range(s, 32);
    lemma_word_range(s, 40);
    lemma_word_range(s, HEADER_LEN + image_cache_bits(s) / 8);
}

/// The file of a sound image stands for the filter that the image stands for,
/// and its padding is clear.
pub proof fn lemma_file_of_image_view(s: Seq<u8>)
    requires
        sound(s),
    ensures
        view_of_file(file_of_image(s)) == view_of_image(s),
        file_padding_clear(file_of_image(s)),
        file_of_image(s).len() == FILE_HEADER_LEN + file_data_len(file_of_image(s)),
        has_magic(file_of_image(s)),
{
    let f = file_of_image(s);
    let m = image_bit_size(s);
    let d = (m + 7) / 8;
    let base = array_base(s);
    lemma_data_fits(s);
    lemma_word_range(s, 8);
    lemma_word_range(s, 16);
    lemma_word_range(s, 24);
    lemma_packs(s);
    lemma_packed_fields(s, f, base, d);
    assert forall|q: int| m <= q < 8 * d implies !#[trigger] bit(f, 8 * FILE_HEADER_LEN + q) by {
        lemma_packed_bits(s, f, base, d, q);
        assert(!bit(s, 8 * base + q));
    }
    assert forall|j: int| 0 <= j < m implies #[trigger] view_of_file(f).bits[j] == view_of_image(
        s,
    ).bits[j] by {
        lemma_packed_bits(s, f, base, d, j);
    }
    assert(view_of_file(f).bits =~= view_of_image(s).bits);
}

/// The file of a sound image is a file, and stands for the filter that the
/// image stands for.
pub proof fn lemma_file_of_image(s: Seq<u8>)
    requires
        sound(s),
    ensures
        file_fault(file_of_image(s)) is None,
        view_of_file(file_of_image(s)) == view_of_image(s),
{
    let f = file_of_image(s);
    lemma_file_of_image_view(s);
    lemma_data_fits(s);
    lemma_word_range(s, 8);
    lemma_word_range(s, 16);
    lemma_word_range(s, 24);
    assert(file_version(f) == image_version(s));
    assert(file_variant(f) == image_variant(s));
    assert(file_capacity(f) == image_capacity(s));
    assert(file_rate(f) == image_rate(s));
    assert(file_hashes(f) == image_hashes(s));
    assert(file_bit_size(f) == image_bit_size(s));
}

/// Corruption: a file cut short anywhere behind its magic bytes is refused as
/// `CorruptFormat`.
pub proof fn lemma_truncated_file(f: Seq<u8>, kept: int)
    requires
        file_fault(f) is None,
        MAGIC_LEN <= kept < f.len(),
    ensures
        file_fault(f.subrange(0, kept)) == Some(ExPoppyError::CorruptFormat),
{
    let cut = f.subrange(0, kept);
    assert(forall|i: int| 0 <= i < kept ==> cut[i] == f[i]);
    if kept >= FILE_HEADER_LEN {
        lemma_word_moved(cut, 6, f, 6);
        lemma_word_moved(cut, 14, f, 14);
        lemma_word_moved(cut, 22, f, 22);
        lemma_word_moved(cut, 30, f, 30);
    }
}

/// The header of a file, read out.
#[derive(Debug, Clone, Copy, PartialEq, Eq, Structural)]
pub struct FileHeader {
    /// The format version.
    pub version: u8,
    /// The variant tag.
    pub variant: u8,
    /// The number of entries the filter is sized for.
    pub capacity: u64,
    /// The bit pattern of the false-positive rate.
    pub rate_bits: u64,
    /// The number of hash rounds, k.
    pub hashes: u64,
    /// The number of bits of the bit array, m.
    pub bit_size: u64,
}

/// The header of the file `f`.
pub open spec fn file_header_of(f: Seq<u8>) -> FileHeader {
    FileHeader {
        version: file_version(f),
        variant: file_variant(f),
        capacity: file_capacity(f) as u64,
        rate_bits: file_rate(f) as u64,
        hashes: file_hashes(f) as u64,
        bit_size: file_bit_size(f) as u64,
    }
}

/// Tells whether the bits that fill up the last byte of a file are unset.
pub fn file_padding_is_clear(bytes: &[u8], bit_size: u64) -> (b: bool)
    requires
        bit_size == file_bit_size(bytes@),
        bit_size <= MAX_BITS,
        bytes@.len() == FILE_HEADER_LEN + file_data_len(bytes@),
    ensures
        b == file_padding_clear(bytes@),
{
    let len: usize = bytes.len();
    let data_len: u64 = (bit_size + 7) / 8;
    let end: u64 = 8 * data_len;
    let mut q: u64 = bit_size;
    while q < end
        invariant
            len == bytes@.len(),
            len == 38 + data_len,
            data_len == file_data_len(bytes@),
            bit_size == file_bit_size(bytes@),
            end == 8 * data_len,
            bit_size <= q <= end,
            forall|p: int| bit_size <= p < q ==> !#[trigger] bit(bytes@, 8 * FILE_HEADER_LEN + p),
        decreases end - q,
    {
        assert(q / 8 < data_len);
        let byte = bytes[38 + (q / 8) as usize];
        let j: u8 = (q % 8) as u8;
        proof {
            assert((8 * 38 + q) / 8 == 38 + q / 8);
            assert((8 * 38 + q) % 8 == q % 8);
        }
        if byte & (1u8 << j) != 0 {
            assert(bit(bytes@, 8 * FILE_HEADER_LEN + q));
            return false;
        }
        q += 1;
    }
    true
}

/// Decides whether `bytes` is the file of a filter and reads its header.
pub fn check_file(bytes: &[u8]) -> (r: Result<FileHeader, ExPoppyError>)
    ensures
        r == match file_fault(bytes@) {
            Some(e) => Err::<FileHeader, ExPoppyError>(e),
            None => Ok(file_header_of(bytes@)),
        },
{
    let len: usize = bytes.len();
    if len < MAGIC_LEN {
        return Err(ExPoppyError::InvalidFormat);
    }
    if bytes[0] != 0x50 || bytes[1] != 0x4f || bytes[2] != 0x50 || bytes[3] != 0x59 {
        return Err(ExPoppyError::InvalidFormat);
    }
    if len < FILE_HEADER_LEN {
        return Err(ExPoppyError::CorruptFormat);
    }
    let version: u8 = bytes[4];
    let variant: u8 = bytes[5];
    if version != 1 && version != 2 {
        return Err(ExPoppyError::UnsupportedVersion(version));
    }
    if variant > MAX_VARIANT_TAG || (version == 1 && variant != 0) {
        return Err(ExPoppyError::InvalidVariant(variant));
    }
    let capacity: u64 = read_word(bytes, 6);
    let rate_bits: u64 = read_word(bytes, 14);
    let hashes: u64 = read_word(bytes, 22);
    let bit_size: u64 = read_word(bytes, 30);
    let rate_fits = if version == 1 {
        is_valid_rate(rate_bits)
    } else {
        is_engine_rate(rate_bits)
    };
    if capacity == 0 || capacity > usize::MAX as u64 || !rate_fits || hashes == 0 || bit_size == 0 {
        return Err(ExPoppyError::InvalidParameter);
    }
    if bit_size > MAX_BITS || hashes > bit_size || (version == 2 && bit_size % BUCKET_BITS != 0) {
        return Err(ExPoppyError::CorruptFormat);
    }
    let data_len: u64 = (bit_size + 7) / 8;
    if len as u64 != 38 + data_len {
        return Err(ExPoppyError::CorruptFormat);
    }
    if !file_padding_is_clear(bytes, bit_size) {
        return Err(ExPoppyError::CorruptFormat);
    }
    Ok(FileHeader { version, variant, capacity, rate_bits, hashes, bit_size })
}

/// Builds the image of the filter that a file stands for.
pub fn build_image(bytes: &[u8], header: &FileHeader) -> (out: Vec<u8>)
    requires
        file_fault(bytes@) is None,
        *header == file_header_of(bytes@),
    ensures
        out@ == image_of_file(bytes@),
{
    proof {
        lemma_word_range(bytes@, 30);
    }
    let mut out: Vec<u8> = Vec::new();
    out.push(header.version);
    out.push(header.variant);
    out.push(0);
    out.push(0);
    out.push(0);
    out.push(0);
    out.push(0);
    out.push(0);
    let ghost flags = seq![bytes@[4], bytes@[5], 0u8, 0u8, 0u8, 0u8, 0u8, 0u8];
    assert(out@ =~= flags);
    if header.version == 1 {
        let mut head = slice_to_vec(slice_subrange(bytes, 6, 38));
        out.append(&mut head);
        push_zero_word(&mut out);
        let mut data = slice_to_vec(slice_subrange(bytes, 38, bytes.len()));
        out.append(&mut data);
        let ghost before = out@;
        let fill: u64 = 8 * ((header.bit_size + 63) / 64) - (header.bit_size + 7) / 8;
        let mut i: u64 = 0;
        while i < fill
            invariant
                i <= fill,
                out@ == before + zeros(i as int),
            decreases fill - i,
        {
            out.push(0);
            proof {
                assert(out@ =~= before + zeros(i + 1));
            }
            i += 1;
        }
        proof {
            assert(zeros(0) =~= Seq::<u8>::empty());
        }
    } else {
        let mut head = slice_to_vec(slice_subrange(bytes, 6, 30));
        out.append(&mut head);
        push_zero_word(&mut out);
        push_zero_word(&mut out);
        push_word(&mut out, header.bit_size / BUCKET_BITS);
        let mut data = slice_to_vec(slice_subrange(bytes, 38, bytes.len()));
        out.append(&mut data);
    }
    out
}

/// Puts a file together from the pieces of an image.
fn assemble_file(image: &[u8], version: u8, variant: u8, bit_size: u64, base: usize) -> (out: Vec<
    u8,
>)
    requires
        32 <= base,
        bit_size <= MAX_BITS,
        base + (bit_size + 7) / 8 <= image@.len(),
    ensures
        out@ == seq![0x50u8, 0x4fu8, 0x50u8, 0x59u8, version, variant] + image@.subrange(8, 32)
            + word_bytes(bit_size as int) + image@.subrange(
            base as int,
            base + (bit_size + 7) / 8,
        ),
{
    let mut out: Vec<u8> = Vec::new();
    out.push(0x50);
    out.push(0x4f);
    out.push(0x50);
    out.push(0x59);
    out.push(version);
    out.push(variant);
    assert(out@ =~= seq![0x50u8, 0x4fu8, 0x50u8, 0x59u8, version, variant]);
    let mut head = slice_to_vec(slice_subrange(image, 8, 32));
    out.append(&mut head);
    push_word(&mut out, bit_size);
    let len: usize = image.len();
    assert((bit_size + 7) / 8 <= len - base);
    let data_len: usize = ((bit_size + 7) / 8) as usize;
    let end: usize = base + data_len;
    let mut data = slice_to_vec(slice_subrange(image, base, end));
    out.append(&mut data);
    out
}

/// Writes the file of the filter that a well-formed image without a cache
/// stands for.
pub fn write_file(image: &[u8], header: &Header) -> (out: Vec<u8>)
    requires
        well_formed(image@),
        image_cache_bits(image@) == 0,
        *header == crate::image::header_of(image@),
    ensures
        out@ == file_of_image(image@),
{
    proof {
        lemma_data_fits(image@);
    }
    let base: usize = if header.version == 1 {
        48
    } else {
        56
    };
    assemble_file(image, header.version, header.variant, header.bit_size, base)
}

} // verus!
