//! What follows from the contracts of the filter's operations.

use vstd::prelude::*;
use crate::chain::{chain_members, chained, follows, full, lemma_chain_members_stay, RATE_STEP};
use crate::error::ExPoppyError;
use crate::bits::bit;
use crate::file::{
    file_fault, has_magic, lemma_data_fits, lemma_file_of_image, lemma_truncated_file,
    view_of_file, FILE_HEADER_LEN, MAGIC_LEN,
};
use crate::filter::{lemma_inserted_view, BloomFilter};
use crate::image::{lemma_word_range, sound, word_at};
use crate::membership::{view_of_image, FilterView};
use crate::params::{supported_version, valid_rate, MAX_VARIANT_TAG};
use crate::record::{
    lemma_record_reads_back, lemma_truncated_record_is_corrupt, read_record, record_of, views_of,
};
use crate::scalable::ScalableFilter;

verus! {

/// A sound image stands for a sized filter: at least one bit, at least one
/// hash round and no more rounds than bits, a capacity of at least one entry,
/// a valid rate, and a version and a variant that the engine knows.
pub proof fn lemma_image_is_sized(image: Seq<u8>)
    requires
        sound(image),
    ensures
        view_of_image(image).bit_size >= 1,
        view_of_image(image).bits.len() == view_of_image(image).bit_size,
        1 <= view_of_image(image).hash_count <= view_of_image(image).bit_size,
        view_of_image(image).capacity >= 1,
        valid_rate(view_of_image(image).rate_bits),
        supported_version(view_of_image(image).version),
        view_of_image(image).variant <= MAX_VARIANT_TAG,
        view_of_image(image).version == 1 ==> view_of_image(image).variant == 0,
{
    lemma_data_fits(image);
    lemma_word_range(image, 8);
    lemma_word_range(image, 16);
    lemma_word_range(image, 24);
}

/// Every filter is sized: it has at least one bit, at least one hash round
/// and no more rounds than bits, a capacity of at least one entry, a valid
/// rate, and a version and a variant that the engine knows.
pub proof fn lemma_filter_is_sized(f: BloomFilter)
    requires
        f.inv(),
    ensures
        f@.bit_size >= 1,
        f@.bits.len() == f@.bit_size,
        1 <= f@.hash_count <= f@.bit_size,
        f@.capacity >= 1,
        valid_rate(f@.rate_bits),
        supported_version(f@.version),
        f@.variant <= MAX_VARIANT_TAG,
        f@.version == 1 ==> f@.variant == 0,
{
    f.lemma_image_sound();
    lemma_image_is_sized(f.image());
}

/// The positions of an entry lie within the bit array, and they depend on the
/// entry, the format version, k and m alone: two filters of one version, k and
/// m give an entry the same positions.
pub proof fn lemma_positions(a: FilterView, b: FilterView, data: Seq<u8>, round: int)
    requires
        a.bit_size >= 1,
        b.version == a.version,
        b.hash_count == a.hash_count,
        b.bit_size == a.bit_size,
    ensures
        0 <= a.slot(data, round) < a.bit_size,
        b.slot(data, round) == a.slot(data, round),
{
}

/// The layout of a saved filter: the magic bytes, the version and the variant
/// in a byte each, then capacity, rate, k and m as little-endian words, then
/// the bit array in `ceil(m / 8)` bytes, bit `j` at bit `j % 8` of byte
/// `j / 8`, and no bit set behind the last.
pub proof fn lemma_file_layout(f: BloomFilter, j: int)
    requires
        f.inv(),
        0 <= j < 8 * ((f@.bit_size + 7) / 8),
    ensures
        f.file().len() == FILE_HEADER_LEN + (f@.bit_size + 7) / 8,
        has_magic(f.file()),
        f.file()[4] == f@.version,
        f.file()[5] == f@.variant,
        word_at(f.file(), 6) == f@.capacity,
        word_at(f.file(), 14) == f@.rate_bits,
        word_at(f.file(), 22) == f@.hash_count,
        word_at(f.file(), 30) == f@.bit_size,
        j < f@.bit_size ==> bit(f.file(), 8 * FILE_HEADER_LEN + j) == f@.bits[j],
        j >= f@.bit_size ==> !bit(f.file(), 8 * FILE_HEADER_LEN + j),
{
    f.lemma_image_sound();
    lemma_file_of_image(f.image());
    lemma_data_fits(f.image());
    let file = f.file();
    lemma_word_range(file, 6);
    lemma_word_range(file, 14);
    lemma_word_range(file, 22);
    lemma_word_range(file, 30);
    assert(view_of_file(file) == f@);
    if j < f@.bit_size {
        assert(view_of_file(file).bits[j] == bit(file, 8 * FILE_HEADER_LEN + j));
    }
}

/// An insertion sets the bits of the entry and no others: afterwards a bit is
/// set exactly if it was set before or is the bit of a hash round of the entry,
/// and the parameters are what they were.
pub proof fn lemma_insert_sets_the_bits(before: BloomFilter, data: Seq<u8>, after: BloomFilter, j: int)
    requires
        before.inv(),
        after@ == before@.inserted(data),
        0 <= j < before@.bit_size,
    ensures
        after@.bits[j] == (before@.bits[j] || before@.hit(data, j)),
        after@.version == before@.version,
        after@.variant == before@.variant,
        after@.capacity == before@.capacity,
        after@.rate_bits == before@.rate_bits,
        after@.hash_count == before@.hash_count,
        after@.bit_size == before@.bit_size,
{
}

/// No false negatives: after an insertion of `data`, the filter reports
/// `data`.
pub proof fn lemma_inserted_is_member(before: BloomFilter, data: Seq<u8>, after: BloomFilter)
    requires
        before.inv(),
        after@ == before@.inserted(data),
    ensures
        after@.reports(data),
        after@.members().contains(data),
{
    lemma_filter_is_sized(before);
    lemma_inserted_view(before@, data);
}

/// No false negatives, ever: whatever is inserted later, an entry that the
/// filter reports stays reported.
pub proof fn lemma_member_stays(
    before: BloomFilter,
    data: Seq<u8>,
    after: BloomFilter,
    earlier: Seq<u8>,
)
    requires
        before.inv(),
        after@ == before@.inserted(data),
        before@.members().contains(earlier),
    ensures
        after@.members().contains(earlier),
{
    lemma_filter_is_sized(before);
    lemma_inserted_view(before@, data);
}

/// Inserting an entry a second time returns `Ok(false)` and changes nothing:
/// the entry is still reported, and the bits, and so the number of set bits
/// from which the count is estimated, are as the first insertion left them.
pub proof fn lemma_insert_is_idempotent(
    start: BloomFilter,
    data: Seq<u8>,
    once: BloomFilter,
    twice: BloomFilter,
)
    requires
        start.inv(),
        once.inv(),
        once@ == start@.inserted(data),
        twice@ == once@.inserted(data),
    ensures
        !once@.novel(data),
        twice@ == once@,
        twice@.ones() == once@.ones(),
        twice@.reports(data),
{
    lemma_filter_is_sized(start);
    lemma_filter_is_sized(once);
    lemma_inserted_view(start@, data);
    lemma_inserted_view(once@, data);
}

/// Round trip: the file that `save` writes for a filter is accepted by
/// `load_filter`, and the filter that it stands for, which is what
/// `load_filter` returns, is the filter that was saved: the same version,
/// variant, capacity, rate, k, m and bits, and so the same members.
pub proof fn lemma_round_trip(saved: BloomFilter, loaded: BloomFilter, probe: Seq<u8>)
    requires
        saved.inv(),
        loaded@ == view_of_file(saved.file()),
    ensures
        file_fault(saved.file()) is None,
        loaded@ == saved@,
        loaded@.reports(probe) == saved@.reports(probe),
        loaded@.ones() == saved@.ones(),
{
    saved.lemma_image_sound();
    lemma_file_of_image(saved.image());
}

/// Corruption: the file of a filter, cut short anywhere behind its magic
/// bytes, is refused as `CorruptFormat`.
pub proof fn lemma_truncated_is_corrupt(f: BloomFilter, kept: int)
    requires
        f.inv(),
        MAGIC_LEN <= kept < f.file().len(),
    ensures
        file_fault(f.file().subrange(0, kept)) == Some(ExPoppyError::CorruptFormat),
{
    f.lemma_image_sound();
    lemma_file_of_image(f.image());
    lemma_truncated_file(f.file(), kept);
}

/// The parts of a chain have falling rates and rising capacities: a part that
/// stands `j - i` parts behind another has its rate halved `j - i` times and
/// more than its capacity. Every part but the last is full, and all parts are
/// of one version and variant.
pub proof fn lemma_chain_tightens(parts: Seq<FilterView>, i: int, j: int)
    requires
        chained(parts),
        forall|k: int| 0 <= k < parts.len() ==> (#[trigger] parts[k]).capacity >= 1,
        0 <= i < j < parts.len(),
    ensures
        parts[j].rate_bits + (j - i) * RATE_STEP == parts[i].rate_bits,
        parts[j].rate_bits < parts[i].rate_bits,
        parts[j].capacity > parts[i].capacity,
        parts[j].version == parts[i].version,
        parts[j].variant == parts[i].variant,
        full(parts[i]),
    decreases j - i,
{
    assert(follows(parts[j - 1], parts[j]));
    assert(follows(parts[i], parts[i + 1]));
    assert(parts[i].capacity >= 1);
    assert(parts[j - 1].capacity >= 1);
    if i < j - 1 {
        lemma_chain_tightens(parts, i, j - 1);
        assert((j - i) * RATE_STEP == (j - 1 - i) * RATE_STEP + RATE_STEP) by (nonlinear_arith);
    }
}

/// The parts of a scalable filter have falling rates and rising capacities,
/// and every part but the last is full.
pub proof fn lemma_scalable_tightens(f: ScalableFilter, i: int, j: int)
    requires
        f.inv(),
        0 <= i < j < f@.len(),
    ensures
        f@[j].rate_bits + (j - i) * RATE_STEP == f@[i].rate_bits,
        f@[j].rate_bits < f@[i].rate_bits,
        f@[j].capacity > f@[i].capacity,
        f@[j].version == f@[i].version,
        f@[j].variant == f@[i].variant,
        full(f@[i]),
{
    f.lemma_sized_parts();
    lemma_chain_tightens(f@, i, j);
}

/// Growth keeps the parts: after a part was taken in, every part that was
/// there is there unchanged and reports what it reported, and the new part is
/// the last.
pub proof fn lemma_growth_keeps_parts(before: ScalableFilter, next: BloomFilter, after: ScalableFilter)
    requires
        before.inv(),
        after@ == before@.push(next@),
    ensures
        after@.len() == before@.len() + 1,
        forall|i: int| 0 <= i < before@.len() ==> #[trigger] after@[i] == before@[i],
        after@.last() == next@,
        chain_members(before@).subset_of(chain_members(after@)),
{
    lemma_chain_members_stay(before@, after@);
}

/// An insertion into a scalable filter goes into the last part and leaves the
/// others alone: afterwards the last part reports the entry, and every entry
/// that a part reported it reports still.
pub proof fn lemma_scalable_insert(before: ScalableFilter, data: Seq<u8>, after: ScalableFilter)
    requires
        before.inv(),
        after@ == before@.update(before@.len() - 1, before@.last().inserted(data)),
    ensures
        after@.len() == before@.len(),
        forall|i: int| 0 <= i < before@.len() - 1 ==> #[trigger] after@[i] == before@[i],
        after@.last().reports(data),
        chain_members(before@).subset_of(chain_members(after@)),
        chain_members(after@).contains(data),
{
    before.lemma_sized_parts();
    let n = before@.len() - 1;
    lemma_inserted_view(before@[n], data);
    lemma_chain_members_stay(before@, after@);
    assert(after@[n].reports(data));
}

/// Round trip of a scalable filter: the record that `save` writes is accepted
/// by `load`, and the filters that its files stand for, which are the parts of
/// the filter that `load` returns, are the parts of the filter that was saved.
pub proof fn lemma_scalable_round_trip(saved: ScalableFilter, loaded: ScalableFilter)
    requires
        saved.inv(),
        loaded@ == views_of(saved.files()),
    ensures
        read_record(record_of(saved.files())) == Ok::<Seq<Seq<u8>>, ExPoppyError>(saved.files()),
        loaded@ == saved@,
        chain_members(loaded@) == chain_members(saved@),
{
    saved.lemma_parts();
    lemma_record_reads_back(saved.files());
}

/// Corruption of a record: the record of a scalable filter, cut short anywhere
/// behind its magic bytes, is refused as `CorruptFormat`.
pub proof fn lemma_scalable_truncated(f: ScalableFilter, kept: int)
    requires
        f.inv(),
        4 <= kept < record_of(f.files()).len(),
    ensures
        read_record(record_of(f.files()).subrange(0, kept)) == Err::<
            Seq<Seq<u8>>,
            ExPoppyError,
        >(ExPoppyError::CorruptFormat),
{
    f.lemma_parts();
    lemma_truncated_record_is_corrupt(f.files(), kept);
}

} // verus!
