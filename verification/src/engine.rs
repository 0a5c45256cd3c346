//! The filter engine, `poppy_filters`, and what this crate takes on trust of it.
//!
//! A filter of the engine is opaque here. It is spoken of through the bytes that
//! the engine writes for it, its image; through the bytes of the bit array that
//! it holds in memory; and through the positions that the engine's hash
//! functions give an entry. Which bits a lookup reads and an insertion writes
//! is stated over the image; `membership` proves the rest.
//!
//! Nothing below is proved. Each contract says what the engine's source shows.

use vstd::prelude::*;
use poppy_filters::BloomFilter as Engine;
use crate::image::{
    bit_data, image_bit_size, image_capacity, image_count, image_hashes, image_version, sound,
    well_formed,
};
use crate::membership::{inserted_image, novel, reported};

verus! {

/// The engine's filter, `poppy_filters::BloomFilter`.
#[verifier::external_type_specification]
#[verifier::external_body]
pub struct ExEngine(Engine);

/// The engine's error, `poppy_filters::Error`.
#[verifier::external_type_specification]
#[verifier::external_body]
pub struct ExEngineError(poppy_filters::Error);

/// The bytes that `poppy_filters::BloomFilter::write` writes for a filter: its
/// flags, its parameters, its count, its bits, and the data attached to it.
pub uninterp spec fn encoding(engine: Engine) -> Seq<u8>;

/// The bytes of the bit array that a filter holds in memory: the words of a
/// version 1 filter, least byte first, or the buckets of a version 2 filter.
/// A filter that `poppy_filters::BloomFilter::partial_from_reader` made holds
/// none, whatever its image says.
pub uninterp spec fn held_bits(engine: Engine) -> Seq<u8>;

/// The positions in the bit array that `poppy_filters::BloomFilter::insert_bytes`
/// and `contains_bytes` derive for `data`, one for each hash round in turn, in a
/// filter of format version `version` with `hashes` hash rounds and a bit array
/// of `bits` bits. In version 1 a position is the value of its round; in
/// version 2 it is the value of its round within the bucket of `data`, counted
/// from the first bit of the first bucket.
pub uninterp spec fn hash_positions(version: u8, hashes: int, bits: int, data: Seq<u8>) -> Seq<int>;

/// `poppy_filters::BloomFilter::write`, into a vector. The bytes written are by
/// definition the image of the filter. A vector takes every write, so the call
/// does not fail.
#[verifier::external_body]
pub(crate) fn engine_write(engine: &Engine) -> (out: Vec<u8>)
    ensures
        out@ == encoding(*engine),
{
    let mut out = Vec::new();
    let _ = engine.write(&mut out);
    out
}

/// `poppy_filters::BloomFilter::from_reader`, on a byte slice. On a complete,
/// consistent image the engine finds each field where it looks for it, accepts
/// version, variant and rate, and reads as many words or buckets as the header
/// announces, which is what is there. It keeps every field as read, so the
/// filter it returns is written back as the same bytes, and it holds the bit
/// array that it read.
#[verifier::external_body]
pub(crate) fn engine_read(bytes: &[u8]) -> (r: Result<Engine, poppy_filters::Error>)
    requires
        well_formed(bytes@),
    ensures
        r is Ok,
        encoding(r->Ok_0) == bytes@,
        held_bits(r->Ok_0) == bit_data(bytes@),
{
    poppy_filters::BloomFilter::from_reader(std::io::Cursor::new(bytes))
}

/// `poppy_filters::BloomFilter::version`: 1 or 2, the first byte of the image.
#[verifier::external_body]
pub(crate) fn engine_version(engine: &Engine) -> (v: u8)
    requires
        well_formed(encoding(*engine)),
    ensures
        v == image_version(encoding(*engine)),
{
    engine.version()
}

/// `poppy_filters::BloomFilter::capacity`: the capacity field, which a
/// well-formed image keeps within `usize`.
#[verifier::external_body]
pub(crate) fn engine_capacity(engine: &Engine) -> (c: usize)
    requires
        well_formed(encoding(*engine)),
    ensures
        c == image_capacity(encoding(*engine)),
{
    engine.capacity()
}

/// `poppy_filters::BloomFilter::count_estimate`: the count field.
#[verifier::external_body]
pub(crate) fn engine_count(engine: &Engine) -> (n: u64)
    requires
        well_formed(encoding(*engine)),
    ensures
        n == image_count(encoding(*engine)),
{
    engine.count_estimate()
}

/// `poppy_filters::BloomFilter::contains_bytes`, on a filter that holds the bit
/// array of its image, which is sound: well formed and without a lookup cache.
/// The engine answers `true` when the bit of every hash round is set in the bit
/// array that it holds.
#[verifier::external_body]
pub(crate) fn engine_contains(engine: &Engine, data: &[u8]) -> (found: bool)
    requires
        sound(encoding(*engine)),
        held_bits(*engine) == bit_data(encoding(*engine)),
    ensures
        found == reported(
            encoding(*engine),
            hash_positions(
                image_version(encoding(*engine)),
                image_hashes(encoding(*engine)),
                image_bit_size(encoding(*engine)),
                data@,
            ),
        ),
{
    engine.contains_bytes(data)
}

/// `poppy_filters::BloomFilter::insert_bytes`, on a filter that holds the bit
/// array of its image, which is sound, and whose count is below its capacity.
///
/// The engine fails only on a filter whose count has reached its capacity. On
/// this one it sets the bit of each hash round in the bit array that it holds,
/// raises its count by one if one of them was unset, and returns whether one
/// was. No index is out of range and no sum overflows: the call returns.
#[verifier::external_body]
pub(crate) fn engine_insert(engine: &mut Engine, data: &[u8]) -> (r: Result<bool, poppy_filters::Error>)
    requires
        sound(encoding(*old(engine))),
        held_bits(*old(engine)) == bit_data(encoding(*old(engine))),
        image_count(encoding(*old(engine))) < image_capacity(encoding(*old(engine))),
    ensures
        r is Ok,
        r->Ok_0 == novel(
            encoding(*old(engine)),
            hash_positions(
                image_version(encoding(*old(engine))),
                image_hashes(encoding(*old(engine))),
                image_bit_size(encoding(*old(engine))),
                data@,
            ),
        ),
        encoding(*final(engine)) == inserted_image(
            encoding(*old(engine)),
            hash_positions(
                image_version(encoding(*old(engine))),
                image_hashes(encoding(*old(engine))),
                image_bit_size(encoding(*old(engine))),
                data@,
            ),
        ),
        held_bits(*final(engine)) == bit_data(encoding(*final(engine))),
    no_unwind
{
    engine.insert_bytes(data)
}

} // verus!
