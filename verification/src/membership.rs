//! What a filter reports and what an insertion does, bit by bit.
//!
//! The engine derives from an entry one position in the bit array for each hash
//! round. A filter reports an entry when the bits at all these positions are
//! set; an insertion sets them and returns whether one was unset.
//!
//! This is said twice here: of the image of a filter, which is what the engine
//! is trusted about, and of the view of a filter, which is what callers are
//! told. The lemmas carry the one over to the other. The positions themselves
//! are the engine's, named in `engine`; what is proved holds of any positions.

use vstd::prelude::*;
use crate::bits::{bit, lemma_set_bit, lemma_set_bit_bytes, set_bit};
use crate::engine::hash_positions;
use crate::image::{
    array_base, count_at, image_bit_size, image_cache_bits, image_capacity, image_count,
    image_hashes, image_rate, image_variant, image_version, lemma_normalised, lemma_put_word,
    lemma_word_range, lemma_word_same, normalised, padding_clear, put_word, sound, well_formed,
    HEADER_LEN,
};

verus! {

/// What a filter is, to a caller.
pub ghost struct FilterView {
    /// The format version, 1 or 2.
    pub version: u8,
    /// The variant tag, at most 3.
    pub variant: u8,
    /// The number of entries the filter is sized for.
    pub capacity: nat,
    /// The bit pattern of the false-positive rate the filter is sized for.
    pub rate_bits: u64,
    /// The number of hash rounds, called k.
    pub hash_count: nat,
    /// The number of bits of the bit array, called m.
    pub bit_size: nat,
    /// The bit array: `bit_size` bits.
    pub bits: Seq<bool>,
}

impl FilterView {
    /// The position in the bit array that hash round `round` gives the entry
    /// `data`. It lies in `[0, bit_size)`.
    pub open spec fn slot(self, data: Seq<u8>, round: int) -> int {
        hash_positions(self.version, self.hash_count as int, self.bit_size as int, data)[round] % (
        self.bit_size as int)
    }

    /// Whether the filter reports `data`: the bit of every hash round is set.
    pub open spec fn reports(self, data: Seq<u8>) -> bool {
        forall|round: int|
            0 <= round < self.hash_count ==> self.bits[#[trigger] self.slot(data, round)]
    }

    /// The entries that the filter reports as possibly present.
    pub open spec fn members(self) -> Set<Seq<u8>> {
        Set::new(|data: Seq<u8>| self.reports(data))
    }

    /// Whether the bit of some hash round of `data` is unset.
    pub open spec fn novel(self, data: Seq<u8>) -> bool {
        exists|round: int|
            0 <= round < self.hash_count && !self.bits[#[trigger] self.slot(data, round)]
    }

    /// Whether `position` is the position of some hash round of `data`.
    pub open spec fn hit(self, data: Seq<u8>, position: int) -> bool {
        exists|round: int|
            0 <= round < self.hash_count && #[trigger] self.slot(data, round) == position
    }

    /// The filter after `data` was inserted: the bits at the positions of
    /// `data` are set, and nothing else has changed.
    pub open spec fn inserted(self, data: Seq<u8>) -> FilterView {
        FilterView {
            bits: Seq::new(self.bit_size, |j: int| self.bits[j] || self.hit(data, j)),
            ..self
        }
    }

    /// The number of set bits among the first `upto` bits.
    pub open spec fn ones_upto(self, upto: int) -> nat
        decreases upto,
    {
        if upto <= 0 {
            0
        } else {
            self.ones_upto(upto - 1) + if self.bits[upto - 1] {
                1nat
            } else {
                0nat
            }
        }
    }

    /// The number of set bits.
    pub open spec fn ones(self) -> nat {
        self.ones_upto(self.bit_size as int)
    }
}

/// The filter that an image stands for. Count and lookup cache are the
/// engine's own and no part of it.
pub open spec fn view_of_image(s: Seq<u8>) -> FilterView {
    FilterView {
        version: image_version(s),
        variant: image_variant(s),
        capacity: image_capacity(s) as nat,
        rate_bits: image_rate(s) as u64,
        hash_count: image_hashes(s) as nat,
        bit_size: image_bit_size(s) as nat,
        bits: Seq::new(image_bit_size(s) as nat, |j: int| bit(s, 8 * array_base(s) + j)),
    }
}

/// The positions in the bit array that the engine derives for the entry `data`
/// in a filter with image `s`, one for each hash round.
pub open spec fn slots_of(s: Seq<u8>, data: Seq<u8>) -> Seq<int> {
    hash_positions(image_version(s), image_hashes(s), image_bit_size(s), data)
}

/// The bit of the image `s` that stands at position `slots[round]` of its bit
/// array. A position counts modulo the size of the bit array.
pub open spec fn array_slot(s: Seq<u8>, slots: Seq<int>, round: int) -> int {
    8 * array_base(s) + slots[round] % image_bit_size(s)
}

/// Whether the bit of every hash round is set in the bit array of the image.
pub open spec fn reported(s: Seq<u8>, slots: Seq<int>) -> bool {
    forall|round: int|
        0 <= round < image_hashes(s) ==> bit(s, #[trigger] array_slot(s, slots, round))
}

/// Whether the bit of some hash round is unset in the bit array of the image.
pub open spec fn novel(s: Seq<u8>, slots: Seq<int>) -> bool {
    exists|round: int|
        0 <= round < image_hashes(s) && !bit(s, #[trigger] array_slot(s, slots, round))
}

/// Whether bit `q` of the image is the bit of one of the first `rounds` hash
/// rounds.
pub open spec fn marks(s: Seq<u8>, slots: Seq<int>, rounds: int, q: int) -> bool {
    exists|round: int| 0 <= round < rounds && #[trigger] array_slot(s, slots, round) == q
}

/// `s` with the bits set that stand at the first `rounds` positions of `slots`
/// in the bit array of a filter with image `frame`.
pub open spec fn mark_slots(s: Seq<u8>, frame: Seq<u8>, slots: Seq<int>, rounds: int) -> Seq<u8>
    decreases rounds,
{
    if rounds <= 0 {
        s
    } else {
        set_bit(mark_slots(s, frame, slots, rounds - 1), array_slot(frame, slots, rounds - 1))
    }
}

/// The image of a filter with image `s` after an entry was inserted: the bit
/// of every hash round is set, and the engine's count is one higher if one of
/// them was unset.
pub open spec fn inserted_image(s: Seq<u8>, slots: Seq<int>) -> Seq<u8> {
    let marked = mark_slots(s, s, slots, image_hashes(s));
    if novel(s, slots) {
        put_word(marked, count_at(s), image_count(s) + 1)
    } else {
        marked
    }
}

/// The bit array of a well-formed image lies behind the header and within the
/// image, and every bit of an entry lies among its first `bit_size` bits.
pub proof fn lemma_slot_range(s: Seq<u8>, slots: Seq<int>, round: int)
    requires
        well_formed(s),
    ensures
        HEADER_LEN <= array_base(s) <= s.len(),
        image_bit_size(s) <= 8 * (s.len() - array_base(s)),
        8 * array_base(s) <= array_slot(s, slots, round) < 8 * array_base(s) + image_bit_size(s),
        array_slot(s, slots, round) < 8 * s.len(),
        array_base(s) <= array_slot(s, slots, round) / 8 < s.len(),
{
    lemma_word_range(s, 32);
    lemma_word_range(s, 40);
    lemma_word_range(s, HEADER_LEN + image_cache_bits(s) / 8);
    let m = image_bit_size(s);
    let p = slots[round] % m;
    assert(0 <= p < m);
}

/// Marking the bits of the first `rounds` rounds keeps the length and every
/// byte before the bit array, and sets exactly the bits of these rounds.
pub proof fn lemma_mark_slots(s: Seq<u8>, frame: Seq<u8>, slots: Seq<int>, rounds: int)
    requires
        well_formed(frame),
        s.len() == frame.len(),
        0 <= rounds,
    ensures
        mark_slots(s, frame, slots, rounds).len() == s.len(),
        forall|i: int|
            0 <= i < array_base(frame) ==> mark_slots(s, frame, slots, rounds)[i] == s[i],
        forall|q: int|
            0 <= q < 8 * s.len() ==> #[trigger] bit(mark_slots(s, frame, slots, rounds), q) == (bit(
                s,
                q,
            ) || marks(frame, slots, rounds, q)),
    decreases rounds,
{
    if rounds > 0 {
        let before = mark_slots(s, frame, slots, rounds - 1);
        let p = array_slot(frame, slots, rounds - 1);
        let after = mark_slots(s, frame, slots, rounds);
        lemma_mark_slots(s, frame, slots, rounds - 1);
        lemma_slot_range(frame, slots, rounds - 1);
        lemma_set_bit_bytes(before, p);
        assert(after == set_bit(before, p));
        assert forall|q: int| 0 <= q < 8 * s.len() implies #[trigger] bit(after, q) == (bit(s, q)
            || marks(frame, slots, rounds, q)) by {
            lemma_set_bit(before, p, q);
            assert(bit(before, q) == (bit(s, q) || marks(frame, slots, rounds - 1, q)));
            if marks(frame, slots, rounds - 1, q) {
                let r = choose|r: int|
                    0 <= r < rounds - 1 && #[trigger] array_slot(frame, slots, r) == q;
                assert(array_slot(frame, slots, r) == q);
            }
            if q == p {
                assert(array_slot(frame, slots, rounds - 1) == q);
            }
            if marks(frame, slots, rounds, q) {
                let r = choose|r: int| 0 <= r < rounds && #[trigger] array_slot(frame, slots, r) == q;
                if r < rounds - 1 {
                    assert(array_slot(frame, slots, r) == q);
                }
            }
        }
    } else {
        assert forall|q: int| 0 <= q < 8 * s.len() implies !marks(frame, slots, rounds, q) by {}
    }
}

/// What an insertion does to a sound image whose count is below the capacity.
/// The image stays sound, with its count within the capacity; flags,
/// parameters and sizes stay; and a bit of the bit array is set afterwards
/// exactly if it was set before or is the bit of a hash round of the entry.
pub proof fn lemma_inserted_image(s: Seq<u8>, slots: Seq<int>)
    requires
        sound(s),
        image_count(s) < image_capacity(s),
    ensures
        sound(inserted_image(s, slots)),
        inserted_image(s, slots).len() == s.len(),
        image_version(inserted_image(s, slots)) == image_version(s),
        image_variant(inserted_image(s, slots)) == image_variant(s),
        image_capacity(inserted_image(s, slots)) == image_capacity(s),
        image_rate(inserted_image(s, slots)) == image_rate(s),
        image_hashes(inserted_image(s, slots)) == image_hashes(s),
        image_bit_size(inserted_image(s, slots)) == image_bit_size(s),
        array_base(inserted_image(s, slots)) == array_base(s),
        forall|q: int|
            8 * array_base(s) <= q < 8 * s.len() ==> #[trigger] bit(inserted_image(s, slots), q)
                == (bit(s, q) || marks(s, slots, image_hashes(s), q)),
{
    let k = image_hashes(s);
    let m = mark_slots(s, s, slots, k);
    let r = inserted_image(s, slots);
    let at = count_at(s);
    lemma_word_range(s, 8);
    lemma_word_range(s, 24);
    lemma_word_range(s, 32);
    lemma_word_range(s, 40);
    lemma_slot_range(s, slots, 0);
    lemma_mark_slots(s, s, slots, k);
    if novel(s, slots) {
        lemma_put_word(m, at, image_count(s) + 1);
    }
    assert(r.len() == s.len());
    assert forall|i: int| 0 <= i < HEADER_LEN && !(at <= i < at + 8) implies r[i] == s[i] by {}
    assert forall|i: int| HEADER_LEN <= i < s.len() implies r[i] == m[i] by {}
    lemma_word_same(s, r, 8);
    lemma_word_same(s, r, 16);
    lemma_word_same(s, r, 24);
    if image_version(s) == 1 {
        lemma_word_same(s, r, 32);
        if !novel(s, slots) {
            lemma_word_same(s, r, 40);
        }
    } else {
        lemma_word_same(s, r, 40);
        lemma_word_same(s, r, 48);
        if !novel(s, slots) {
            lemma_word_same(s, r, 32);
        }
    }
    assert forall|q: int| 8 * array_base(s) <= q < 8 * s.len() implies #[trigger] bit(r, q) == (
    bit(s, q) || marks(s, slots, k, q)) by {
        assert(r[q / 8] == m[q / 8]);
        assert(bit(r, q) == bit(m, q));
    }
    assert(well_formed(r));
    assert forall|q: int| image_bit_size(r) <= q < 8 * (r.len() - array_base(r)) implies !#[trigger] bit(
        r,
        8 * array_base(r) + q,
    ) by {
        let p = 8 * array_base(s) + q;
        assert(!bit(s, p));
        if marks(s, slots, k, p) {
            let round = choose|round: int|
                0 <= round < k && #[trigger] array_slot(s, slots, round) == p;
            lemma_slot_range(s, slots, round);
        }
    }
}

/// A sound image reports what the filter it stands for reports, and an entry
/// needs an unset bit in the one exactly if it does in the other.
pub proof fn lemma_view_reports(s: Seq<u8>, data: Seq<u8>)
    requires
        sound(s),
    ensures
        reported(s, slots_of(s, data)) == view_of_image(s).reports(data),
        novel(s, slots_of(s, data)) == view_of_image(s).novel(data),
        view_of_image(s).novel(data) == !view_of_image(s).reports(data),
{
    let v = view_of_image(s);
    let slots = slots_of(s, data);
    lemma_word_range(s, 24);
    lemma_word_range(s, 32);
    lemma_word_range(s, 48);
    assert forall|round: int| 0 <= round < image_hashes(s) implies bit(
        s,
        #[trigger] array_slot(s, slots, round),
    ) == v.bits[v.slot(data, round)] by {
        lemma_slot_range(s, slots, round);
        assert(v.slot(data, round) == slots[round] % image_bit_size(s));
    }
    if reported(s, slots) {
        assert forall|round: int| 0 <= round < v.hash_count implies v.bits[#[trigger] v.slot(
            data,
            round,
        )] by {
            assert(bit(s, array_slot(s, slots, round)));
        }
    }
    if v.reports(data) {
        assert forall|round: int| 0 <= round < image_hashes(s) implies bit(
            s,
            #[trigger] array_slot(s, slots, round),
        ) by {
            assert(v.bits[v.slot(data, round)]);
        }
    }
    if novel(s, slots) {
        let round = choose|round: int|
            0 <= round < image_hashes(s) && !bit(s, #[trigger] array_slot(s, slots, round));
        assert(!v.bits[v.slot(data, round)]);
    }
    if v.novel(data) {
        let round = choose|round: int|
            0 <= round < v.hash_count && !v.bits[#[trigger] v.slot(data, round)];
        assert(!bit(s, array_slot(s, slots, round)));
    }
}

/// The image after an insertion stands for the filter after the insertion.
pub proof fn lemma_view_inserted(s: Seq<u8>, data: Seq<u8>)
    requires
        sound(s),
        image_count(s) < image_capacity(s),
    ensures
        sound(inserted_image(s, slots_of(s, data))),
        view_of_image(inserted_image(s, slots_of(s, data))) == view_of_image(s).inserted(data),
{
    let v = view_of_image(s);
    let slots = slots_of(s, data);
    let r = inserted_image(s, slots);
    let k = image_hashes(s);
    let base = array_base(s);
    lemma_inserted_image(s, slots);
    lemma_slot_range(s, slots, 0);
    lemma_word_range(s, 24);
    lemma_word_range(s, 32);
    lemma_word_range(s, 48);
    let a = view_of_image(r).bits;
    let b = v.inserted(data).bits;
    assert(a.len() == b.len());
    assert forall|j: int| 0 <= j < a.len() implies a[j] == b[j] by {
        let q = 8 * base + j;
        assert(bit(r, q) == (bit(s, q) || marks(s, slots, k, q)));
        if marks(s, slots, k, q) {
            let round = choose|round: int|
                0 <= round < k && #[trigger] array_slot(s, slots, round) == q;
            assert(v.slot(data, round) == j);
        }
        if v.hit(data, j) {
            let round = choose|round: int|
                0 <= round < v.hash_count && #[trigger] v.slot(data, round) == j;
            assert(array_slot(s, slots, round) == q);
        }
    }
    assert(a =~= b);
}

/// Taking the cache out of an image and zeroing its count does not change the
/// filter that the image stands for, and gives a sound image if the padding was
/// clear.
pub proof fn lemma_view_normalised(s: Seq<u8>)
    requires
        well_formed(s),
        padding_clear(s),
    ensures
        sound(normalised(s)),
        image_count(normalised(s)) == 0,
        view_of_image(normalised(s)) == view_of_image(s),
{
    let t = normalised(s);
    lemma_normalised(s);
    lemma_slot_range(s, Seq::empty(), 0);
    lemma_slot_range(t, Seq::empty(), 0);
    let bs = array_base(s);
    let bt = array_base(t);
    assert forall|q: int| 0 <= q < 8 * (s.len() - bs) implies #[trigger] bit(t, 8 * bt + q) == bit(
        s,
        8 * bs + q,
    ) by {
        assert((8 * bt + q) / 8 == bt + q / 8);
        assert((8 * bs + q) / 8 == bs + q / 8);
        assert(t[bt + q / 8] == s[bs + q / 8]);
    }
    assert forall|q: int| image_bit_size(t) <= q < 8 * (t.len() - bt) implies !#[trigger] bit(
        t,
        8 * bt + q,
    ) by {
        assert(!bit(s, 8 * bs + q));
    }
    assert(view_of_image(t).bits =~= view_of_image(s).bits);
}

} // verus!
