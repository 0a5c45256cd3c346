//! The filter: an engine filter whose image is known to be sound.
//!
//! A filter is made from an engine filter by `BloomFilter::from_engine` or
//! `from_engine_for`, or read from a file by `load_filter`. Each looks at the
//! bytes first and refuses what is not in order, and each keeps an engine
//! filter that the engine itself read from bytes that were found in order: in
//! normal form, without a lookup cache, so that a lookup reads the bit array
//! alone. The engine's count is kept below the capacity, so that the engine
//! never refuses an insertion.

use vstd::prelude::*;
use vstd::slice::{slice_subrange, slice_to_vec};
use vstd::string::StringSliceAdditionalSpecFns;
use poppy_filters::BloomFilter as Engine;
use crate::bits::bit;
use crate::engine::{
    encoding, engine_capacity, engine_contains, engine_count, engine_insert, engine_read,
    engine_version, engine_write, held_bits,
};
use crate::error::ExPoppyError;
use crate::file::{
    build_image, check_file, file_fault, file_of_image, lemma_bit_moved, lemma_data_fits,
    lemma_file_of_image, lemma_image_of_file, view_of_file, write_file, FILE_HEADER_LEN,
};
use crate::image::{
    bit_data, check_image, image_bit_size, image_capacity, image_count, image_fault,
    image_hashes, image_rate, image_variant, lemma_word_range, lift, lifted,
    normalise, normalised, padding_clear, padding_is_clear, sound,
};
use crate::membership::{
    lemma_inserted_image, lemma_view_inserted, lemma_view_normalised, lemma_view_reports,
    slots_of, view_of_image, FilterView,
};
use crate::params::{valid_rate, Params, Variant};

verus! {

/// Why an image is refused: it is not well formed, or a bit is set behind the
/// last bit of its bit array.
pub open spec fn engine_fault(s: Seq<u8>) -> Option<ExPoppyError> {
    match image_fault(s) {
        Some(e) => Some(e),
        None => if padding_clear(s) {
            None
        } else {
            Some(ExPoppyError::CorruptFormat)
        },
    }
}

/// Whether a filter with view `built` is what the request `request` asks for.
/// Version 1 has no variants: a filter of version 1 answers a request whatever
/// variant the request names.
pub open spec fn answers(request: Params, built: FilterView) -> bool {
    &&& built.version == request.version
    &&& built.capacity == request.capacity
    &&& built.rate_bits == request.rate_bits
    &&& built.variant == if request.version == 1 {
        0
    } else {
        request.variant.spec_tag()
    }
}

/// Inserts `data` into an engine filter, and says what becomes of the filter
/// that its image stands for.
fn insert_into(engine: &mut Engine, data: &[u8]) -> (fresh: bool)
    requires
        sound(encoding(*old(engine))),
        held_bits(*old(engine)) == bit_data(encoding(*old(engine))),
        image_count(encoding(*old(engine))) < image_capacity(encoding(*old(engine))),
    ensures
        sound(encoding(*final(engine))),
        held_bits(*final(engine)) == bit_data(encoding(*final(engine))),
        fresh == view_of_image(encoding(*old(engine))).novel(data@),
        view_of_image(encoding(*final(engine))) == view_of_image(encoding(*old(engine))).inserted(
            data@,
        ),
        image_variant(encoding(*final(engine))) == image_variant(encoding(*old(engine))),
        image_rate(encoding(*final(engine))) == image_rate(encoding(*old(engine))),
        image_hashes(encoding(*final(engine))) == image_hashes(encoding(*old(engine))),
        image_bit_size(encoding(*final(engine))) == image_bit_size(encoding(*old(engine))),
    no_unwind
{
    proof {
        let s = encoding(*engine);
        lemma_view_reports(s, data@);
        lemma_view_inserted(s, data@);
        lemma_inserted_image(s, slots_of(s, data@));
    }
    match engine_insert(engine, data) {
        Ok(fresh) => fresh,
        Err(_) => false,
    }
}

/// A Bloom filter for byte strings.
#[derive(Debug)]
pub struct BloomFilter {
    engine: Engine,
    variant: Variant,
    rate_bits: u64,
    hashes: u64,
    bit_size: u64,
}

impl View for BloomFilter {
    type V = FilterView;

    open spec fn view(&self) -> FilterView {
        view_of_image(self.image())
    }
}

impl BloomFilter {
    /// The image of the engine filter that this filter keeps.
    pub closed spec fn image(self) -> Seq<u8> {
        encoding(self.engine)
    }

    /// The bytes that `save` returns for this filter.
    pub open spec fn file(self) -> Seq<u8> {
        file_of_image(self.image())
    }

    /// What holds of every filter: its image is sound, the engine holds the bit
    /// array of the image, and the parameters kept beside the engine are those
    /// of the image.
    #[verifier::type_invariant]
    pub closed spec fn inv(self) -> bool {
        &&& sound(self.image())
        &&& held_bits(self.engine) == bit_data(self.image())
        &&& self.variant.spec_tag() == image_variant(self.image())
        &&& self.rate_bits == image_rate(self.image())
        &&& self.hashes == image_hashes(self.image())
        &&& self.bit_size == image_bit_size(self.image())
    }

    /// The image of a filter is sound.
    pub proof fn lemma_image_sound(self)
        requires
            self.inv(),
        ensures
            sound(self.image()),
    {
    }

    /// Makes a filter of the bytes of a well-formed image with clear padding:
    /// puts the image in normal form and has the engine read it.
    fn settle(image: &[u8]) -> (r: Result<BloomFilter, ExPoppyError>)
        requires
            engine_fault(image@) is None,
        ensures
            r is Ok,
            r->Ok_0.inv(),
            r->Ok_0@ == view_of_image(image@),
    {
        proof {
            lemma_view_normalised(image@);
            lemma_word_range(normalised(image@), 16);
            lemma_word_range(normalised(image@), 24);
            lemma_word_range(normalised(image@), 32);
            lemma_word_range(normalised(image@), 48);
        }
        let plain = normalise(image);
        let header = match check_image(plain.as_slice()) {
            Ok(header) => header,
            Err(e) => {
                return Err(e);
            },
        };
        match engine_read(plain.as_slice()) {
            Ok(engine) => Ok(
                BloomFilter {
                    engine,
                    variant: Variant::of_tag(header.variant),
                    rate_bits: header.rate_bits,
                    hashes: header.hashes,
                    bit_size: header.bit_size,
                },
            ),
            Err(_) => Err(ExPoppyError::CorruptFormat),
        }
    }

    /// Takes over a filter that the engine has made. Its sizes are bounded from
    /// below first: a filter without hash rounds or without bits is given one.
    /// The filter is then accepted if and only if its image is well formed and
    /// has clear padding. What is kept is not the engine's filter itself but
    /// one that the engine read from that image in normal form; it has the
    /// parameters and the bits of the filter handed in.
    pub fn from_engine(engine: Engine) -> (r: Result<BloomFilter, ExPoppyError>)
        ensures
            match engine_fault(lifted(encoding(engine))) {
                Some(e) => r == Err::<BloomFilter, ExPoppyError>(e),
                None => r is Ok && r->Ok_0.inv() && r->Ok_0@ == view_of_image(
                    lifted(encoding(engine)),
                ),
            },
    {
        let bytes = lift(engine_write(&engine));
        match check_image(bytes.as_slice()) {
            Ok(header) => {
                if padding_is_clear(bytes.as_slice(), &header) {
                    BloomFilter::settle(bytes.as_slice())
                } else {
                    Err(ExPoppyError::CorruptFormat)
                }
            },
            Err(e) => Err(e),
        }
    }

    /// Takes over a filter that the engine has sized for the request
    /// `request`. Its sizes are bounded from below first, as in `from_engine`.
    /// The filter is then accepted if and only if its image is well formed
    /// with clear padding, it is what the request asks for, and nothing is
    /// counted in it yet. A filter that does not answer the request is refused
    /// as `InvalidParameter`.
    pub fn from_engine_for(request: &Params, engine: Engine) -> (r: Result<
        BloomFilter,
        ExPoppyError,
    >)
        ensures
            r is Ok <==> engine_fault(lifted(encoding(engine))) is None && answers(
                *request,
                view_of_image(lifted(encoding(engine))),
            ) && image_count(lifted(encoding(engine))) == 0,
            r matches Ok(bf) ==> bf.inv() && bf@ == view_of_image(lifted(encoding(engine)))
                && answers(*request, bf@) && bf@.bit_size >= 1 && bf@.hash_count >= 1,
            r matches Err(e) ==> e == match engine_fault(lifted(encoding(engine))) {
                Some(fault) => fault,
                None => ExPoppyError::InvalidParameter,
            },
    {
        let bytes = lift(engine_write(&engine));
        let header = match check_image(bytes.as_slice()) {
            Ok(header) => header,
            Err(e) => {
                return Err(e);
            },
        };
        if !padding_is_clear(bytes.as_slice(), &header) {
            return Err(ExPoppyError::CorruptFormat);
        }
        proof {
            lemma_word_range(bytes@, 8);
            lemma_word_range(bytes@, 16);
            lemma_word_range(bytes@, 24);
            lemma_word_range(bytes@, 32);
            lemma_word_range(bytes@, 40);
            lemma_data_fits(bytes@);
        }
        let tag: u8 = if request.version == 1 {
            0
        } else {
            request.variant.tag()
        };
        if header.version != request.version || header.capacity != request.capacity as u64
            || header.rate_bits != request.rate_bits || header.variant != tag || header.count
            != 0 {
            return Err(ExPoppyError::InvalidParameter);
        }
        BloomFilter::settle(bytes.as_slice())
    }

    /// Inserts `data`: sets the bit of each hash round of `data`, and returns
    /// whether one of them was unset. Nothing else changes. The insertion
    /// never fails.
    pub fn insert_bytes(&mut self, data: &[u8]) -> (r: Result<bool, ExPoppyError>)
        ensures
            final(self).inv(),
            r == Ok::<bool, ExPoppyError>(old(self)@.novel(data@)),
            final(self)@ == old(self)@.inserted(data@),
            final(self)@.reports(data@),
            old(self)@.members().subset_of(final(self)@.members()),
            old(self)@.reports(data@) ==> final(self)@ == old(self)@,
    {
        proof {
            use_type_invariant(&*self);
            lemma_word_range(self.image(), 8);
            lemma_inserted_view(self@, data@);
        }
        if engine_count(&self.engine) as usize >= engine_capacity(&self.engine) {
            // The engine takes no entry once its count has reached the
            // capacity. The count is the engine's own and no part of the
            // filter: it is set back.
            let bytes = engine_write(&self.engine);
            proof {
                lemma_view_normalised(bytes@);
                crate::image::lemma_normalised(bytes@);
                lemma_word_range(bytes@, 8);
            }
            let plain = normalise(bytes.as_slice());
            match engine_read(plain.as_slice()) {
                Ok(engine) => {
                    self.engine = engine;
                },
                Err(_) => {},
            }
        }
        Ok(insert_into(&mut self.engine, data))
    }

    /// Tells whether the filter reports `data` as possibly present: whether
    /// the bit of every hash round of `data` is set.
    pub fn contains_bytes(&self, data: &[u8]) -> (found: bool)
        ensures
            found == self@.reports(data@),
            found == self@.members().contains(data@),
    {
        proof {
            use_type_invariant(self);
            lemma_view_reports(self.image(), data@);
        }
        engine_contains(&self.engine, data)
    }

    /// The layout variant of the filter.
    pub fn variant(&self) -> (v: Variant)
        ensures
            v.spec_tag() == self@.variant,
    {
        proof {
            use_type_invariant(self);
        }
        self.variant
    }

    /// The number of hash rounds, k.
    pub fn hash_count(&self) -> (k: u64)
        ensures
            k == self@.hash_count,
            1 <= k <= self@.bit_size,
    {
        proof {
            use_type_invariant(self);
            lemma_word_range(self.image(), 24);
            lemma_data_fits(self.image());
        }
        self.hashes
    }

    /// The number of bits of the bit array, m.
    pub fn bit_size(&self) -> (m: u64)
        ensures
            m == self@.bit_size,
            m >= 1,
    {
        proof {
            use_type_invariant(self);
            lemma_data_fits(self.image());
        }
        self.bit_size
    }
}

/// What an insertion does, said of members: the entry is reported afterwards,
/// every entry that was reported is reported still, and an entry that was
/// reported changes nothing.
pub proof fn lemma_inserted_view(v: FilterView, data: Seq<u8>)
    requires
        v.bits.len() == v.bit_size,
        v.bit_size >= 1,
    ensures
        v.inserted(data).reports(data),
        v.members().subset_of(v.inserted(data).members()),
        v.reports(data) ==> v.inserted(data) == v,
        v.novel(data) == !v.reports(data),
{
    let w = v.inserted(data);
    assert forall|round: int| 0 <= round < w.hash_count implies w.bits[#[trigger] w.slot(
        data,
        round,
    )] by {
        assert(w.slot(data, round) == v.slot(data, round));
        assert(v.hit(data, v.slot(data, round)));
    }
    assert forall|entry: Seq<u8>| v.members().contains(entry) implies w.members().contains(
        entry,
    ) by {
        assert forall|round: int| 0 <= round < w.hash_count implies w.bits[#[trigger] w.slot(
            entry,
            round,
        )] by {
            assert(w.slot(entry, round) == v.slot(entry, round));
            assert(v.bits[v.slot(entry, round)]);
        }
    }
    if v.reports(data) {
        assert forall|j: int| 0 <= j < v.bit_size implies w.bits[j] == v.bits[j] by {
            if v.hit(data, j) {
                let round = choose|round: int|
                    0 <= round < v.hash_count && #[trigger] v.slot(data, round) == j;
                assert(v.bits[v.slot(data, round)]);
            }
        }
        assert(w.bits =~= v.bits);
    }
    if v.novel(data) {
        let round = choose|round: int|
            0 <= round < v.hash_count && !v.bits[#[trigger] v.slot(data, round)];
        assert(!v.reports(data));
    }
}

/// Reads a filter from its file. The filter is returned if and only if
/// `bytes` is the file of a filter, and it is then the filter that the file
/// stands for; otherwise the error is the one that `file_fault` names.
pub fn load_filter(bytes: &[u8]) -> (r: Result<BloomFilter, ExPoppyError>)
    ensures
        match file_fault(bytes@) {
            Some(e) => r == Err::<BloomFilter, ExPoppyError>(e),
            None => r is Ok && r->Ok_0.inv() && r->Ok_0@ == view_of_file(bytes@),
        },
{
    let header = match check_file(bytes) {
        Ok(header) => header,
        Err(e) => {
            return Err(e);
        },
    };
    proof {
        lemma_image_of_file(bytes@);
    }
    let image = build_image(bytes, &header);
    BloomFilter::settle(image.as_slice())
}

/// Writes the file of a filter: the magic bytes, version, variant, capacity,
/// rate, k and m, and the bit array in `ceil(m / 8)` bytes. `view_of_file`
/// reads each of them back from its place.
pub fn save(bf: &BloomFilter) -> (out: Vec<u8>)
    ensures
        out@ == bf.file(),
        file_fault(out@) is None,
        view_of_file(out@) == bf@,
        out@.len() == FILE_HEADER_LEN + (bf@.bit_size + 7) / 8,
{
    proof {
        use_type_invariant(bf);
        lemma_file_of_image(bf.image());
        lemma_data_fits(bf.image());
    }
    let image = engine_write(&bf.engine);
    match check_image(image.as_slice()) {
        Ok(header) => write_file(image.as_slice(), &header),
        Err(_) => Vec::new(),
    }
}

/// The bytes that hold the bit array of the filter: `ceil(m / 8)` bytes, bit
/// `i` of the array at bit `i % 8` of byte `i / 8`.
pub fn data(bf: &BloomFilter) -> (out: Vec<u8>)
    ensures
        out@.len() == (bf@.bit_size + 7) / 8,
        forall|j: int| 0 <= j < bf@.bit_size ==> bf@.bits[j] == #[trigger] bit(out@, j),
{
    proof {
        use_type_invariant(bf);
        lemma_data_fits(bf.image());
    }
    let image = engine_write(&bf.engine);
    let m = bf.bit_size;
    let base: usize = if engine_version(&bf.engine) == 1 {
        48
    } else {
        56
    };
    let len: usize = image.len();
    assert((m + 7) / 8 <= len - base);
    let end: usize = base + ((m + 7) / 8) as usize;
    let out = slice_to_vec(slice_subrange(image.as_slice(), base, end));
    proof {
        assert forall|j: int| 0 <= j < bf@.bit_size implies bf@.bits[j] == #[trigger] bit(
            out@,
            j,
        ) by {
            assert(out@[0 + j / 8] == image@[base + j / 8]);
            lemma_bit_moved(out@, 0, image@, base as int, j);
        }
    }
    out
}

/// Counts the set bits of the bit array.
pub fn count_set(bf: &BloomFilter) -> (n: u64)
    ensures
        n == bf@.ones(),
        n <= bf@.bit_size,
{
    let bytes = data(bf);
    let m = bf.bit_size();
    let ghost v = bf@;
    let mut n: u64 = 0;
    let mut j: u64 = 0;
    while j < m
        invariant
            v == bf@,
            m == v.bit_size,
            bytes@.len() == (m + 7) / 8,
            forall|i: int| 0 <= i < m ==> v.bits[i] == #[trigger] bit(bytes@, i),
            j <= m,
            n <= j,
            n == v.ones_upto(j as int),
        decreases m - j,
    {
        let byte = bytes[(j / 8) as usize];
        let at: u8 = (j % 8) as u8;
        proof {
            assert(v.bits[j as int] == bit(bytes@, j as int));
        }
        if byte & (1u8 << at) != 0 {
            n += 1;
        }
        j += 1;
    }
    n
}

/// Inserts the UTF-8 bytes of `s`, as `BloomFilter::insert_bytes` does.
pub fn insert_str(bf: &mut BloomFilter, s: &str) -> (r: Result<bool, ExPoppyError>)
    ensures
        final(bf).inv(),
        r == Ok::<bool, ExPoppyError>(old(bf)@.novel(s.spec_bytes())),
        final(bf)@ == old(bf)@.inserted(s.spec_bytes()),
        final(bf)@.reports(s.spec_bytes()),
        old(bf)@.members().subset_of(final(bf)@.members()),
        old(bf)@.reports(s.spec_bytes()) ==> final(bf)@ == old(bf)@,
{
    bf.insert_bytes(s.as_bytes())
}

/// Tells whether the filter reports the UTF-8 bytes of `s` as possibly present.
pub fn contains_str(bf: &BloomFilter, s: &str) -> (found: bool)
    ensures
        found == bf@.reports(s.spec_bytes()),
        found == bf@.members().contains(s.spec_bytes()),
{
    bf.contains_bytes(s.as_bytes())
}

/// The format version of the filter.
pub fn version(bf: &BloomFilter) -> (v: u8)
    ensures
        v == bf@.version,
        v == 1 || v == 2,
{
    proof {
        use_type_invariant(bf);
    }
    engine_version(&bf.engine)
}

/// The number of entries the filter is sized for.
pub fn capacity(bf: &BloomFilter) -> (c: usize)
    ensures
        c == bf@.capacity,
        c >= 1,
{
    proof {
        use_type_invariant(bf);
        lemma_word_range(bf.image(), 8);
    }
    engine_capacity(&bf.engine)
}

/// The bit pattern of the false-positive rate the filter is sized for.
pub fn fpp(bf: &BloomFilter) -> (bits: u64)
    ensures
        bits == bf@.rate_bits,
        valid_rate(bits),
{
    proof {
        use_type_invariant(bf);
        lemma_word_range(bf.image(), 16);
    }
    bf.rate_bits
}

} // verus!
