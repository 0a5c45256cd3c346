//! Filters that grow.
//!
//! A scalable filter is a chain of filters, its parts. Entries go into the last
//! part. When the last part is full, `next_request` names the part that is to
//! follow, the caller has the engine size it, and `grow` takes it in. `chain`
//! holds the policy: when a part is full and how the next is sized.

use vstd::prelude::*;
use vstd::slice::slice_subrange;
use crate::chain::{
    accepts, chain_members, chained, follows, full, lemma_chain_members_stay, next_step,
    request_after, MAX_PARTS, RATE_STEP,
};
use crate::error::ExPoppyError;
use crate::file::{lemma_file_of_image, FILE_HEADER_LEN};
use crate::filter::{answers, capacity, count_set, fpp, load_filter, save, version, BloomFilter};
use crate::image::{read_word, MAX_BITS};
use crate::laws::lemma_filter_is_sized;
use crate::membership::FilterView;
use crate::params::{Params, Variant, RATE_FLOOR};
use crate::record::{
    joined, lemma_joined_push, lemma_record_reads_back, read_parts, read_record, record_header,
    record_of, views_of,
};

verus! {

/// The files of a chain of filters, the first first.
pub open spec fn chain_files(earlier: Seq<BloomFilter>, current: BloomFilter) -> Seq<Seq<u8>> {
    Seq::new(
        (earlier.len() + 1) as nat,
        |i: int|
            if i < earlier.len() {
                earlier[i].file()
            } else {
                current.file()
            },
    )
}

/// The views of a chain of filters, the first first.
pub open spec fn chain_view(earlier: Seq<BloomFilter>, current: BloomFilter) -> Seq<FilterView> {
    Seq::new(
        (earlier.len() + 1) as nat,
        |i: int|
            if i < earlier.len() {
                earlier[i]@
            } else {
                current@
            },
    )
}

/// Whether `earlier` and `current` make a scalable filter: each is a filter,
/// there are at most `MAX_PARTS` of them, and each stands rightly behind the
/// part before.
pub open spec fn chain_ok(earlier: Seq<BloomFilter>, current: BloomFilter) -> bool {
    &&& earlier.len() < MAX_PARTS
    &&& forall|i: int| 0 <= i < earlier.len() ==> (#[trigger] earlier[i]).inv()
    &&& current.inv()
    &&& chained(chain_view(earlier, current))
}

/// A chain stays a chain when its last part is replaced by a filter of the
/// same version, variant, capacity and rate.
pub proof fn lemma_chain_keeps(earlier: Seq<BloomFilter>, before: BloomFilter, after: BloomFilter)
    requires
        chain_ok(earlier, before),
        after.inv(),
        after@.version == before@.version,
        after@.variant == before@.variant,
        after@.capacity == before@.capacity,
        after@.rate_bits == before@.rate_bits,
    ensures
        chain_ok(earlier, after),
{
    let old_view = chain_view(earlier, before);
    let new_view = chain_view(earlier, after);
    assert forall|i: int| 0 <= i < new_view.len() - 1 implies follows(
        #[trigger] new_view[i],
        new_view[i + 1],
    ) by {
        assert(follows(old_view[i], old_view[i + 1]));
    }
}

/// A chain with a full last part stays a chain when the part that rightly
/// follows is put behind it.
pub proof fn lemma_chain_grows(earlier: Seq<BloomFilter>, current: BloomFilter, next: BloomFilter)
    requires
        chain_ok(earlier, current),
        earlier.len() + 1 < MAX_PARTS,
        next.inv(),
        follows(current@, next@),
    ensures
        chain_ok(earlier.push(current), next),
        chain_view(earlier.push(current), next) == chain_view(earlier, current).push(next@),
{
    let old_view = chain_view(earlier, current);
    let new_view = chain_view(earlier.push(current), next);
    assert(new_view =~= old_view.push(next@));
    assert forall|i: int| 0 <= i < new_view.len() - 1 implies follows(
        #[trigger] new_view[i],
        new_view[i + 1],
    ) by {
        if i < old_view.len() - 1 {
            assert(follows(old_view[i], old_view[i + 1]));
        }
    }
    assert forall|i: int| 0 <= i < earlier.push(current).len() implies (#[trigger] earlier.push(
        current,
    )[i]).inv() by {
        if i < earlier.len() {
            assert(earlier[i].inv());
        }
    }
}

/// A tag of at most 3 names the variant that has this tag.
pub proof fn lemma_tag_names_variant(tag: u8)
    requires
        tag <= 3,
    ensures
        Variant::spec_from_tag(tag) is Some,
        Variant::spec_from_tag(tag)->Some_0.spec_tag() == tag,
{
}

/// A filter that answers the request that follows a full filter stands rightly
/// behind that filter.
pub proof fn lemma_answer_follows(last: FilterView, next: FilterView)
    requires
        full(last),
        last.variant <= 3,
        last.version == 1 ==> last.variant == 0,
        request_after(last) is Some,
        answers(request_after(last)->Some_0, next),
    ensures
        follows(last, next),
{
    lemma_tag_names_variant(last.variant);
}

/// A part that a chain accepts stands rightly behind the last part of the
/// chain, and the chain has room for it.
pub proof fn lemma_accepted_follows(
    earlier: Seq<BloomFilter>,
    current: BloomFilter,
    next: BloomFilter,
)
    requires
        chain_ok(earlier, current),
        accepts(chain_view(earlier, current), next@),
    ensures
        follows(current@, next@),
        earlier.len() + 1 < MAX_PARTS,
{
    let parts = chain_view(earlier, current);
    assert(parts.last() == current@);
    assert(parts.len() == earlier.len() + 1);
    lemma_filter_is_sized(current);
    lemma_answer_follows(current@, next@);
}

/// Tells whether a filter is full.
fn is_full(part: &BloomFilter) -> (b: bool)
    ensures
        b == full(part@),
{
    let ones = count_set(part);
    let m = part.bit_size();
    ones >= m - ones
}

/// Tells whether `next` stands rightly behind `last`.
fn stands_behind(last: &BloomFilter, next: &BloomFilter) -> (b: bool)
    ensures
        b == follows(last@, next@),
{
    let last_cap = capacity(last);
    let last_rate = fpp(last);
    let last_version = version(last);
    let last_tag = last.variant().tag();
    let next_cap = capacity(next);
    let next_rate = fpp(next);
    let next_version = version(next);
    let next_tag = next.variant().tag();
    if next_version != last_version || next_tag != last_tag {
        return false;
    }
    if last_cap > usize::MAX / 2 || last_rate < RATE_STEP {
        return false;
    }
    if next_cap != 2 * last_cap || next_rate != last_rate - RATE_STEP {
        return false;
    }
    is_full(last)
}

/// The views of filters.
pub open spec fn parts_view(parts: Seq<BloomFilter>) -> Seq<FilterView> {
    Seq::new(parts.len(), |i: int| parts[i]@)
}

/// Tells whether each of `parts` stands rightly behind the one before.
fn is_chain(parts: &Vec<BloomFilter>) -> (b: bool)
    ensures
        b == chained(parts_view(parts@)),
{
    let n = parts.len();
    let ghost views = parts_view(parts@);
    let mut i: usize = 1;
    while i < n
        invariant
            n == parts@.len(),
            1 <= i,
            views == parts_view(parts@),
            forall|j: int| 0 <= j < i - 1 && j < n - 1 ==> follows(#[trigger] views[j], views[j + 1]),
        decreases n - i,
    {
        proof {
            assert(views[i - 1] == parts@[i - 1]@);
            assert(views[i as int] == parts@[i as int]@);
        }
        if !stands_behind(&parts[i - 1], &parts[i]) {
            return false;
        }
        i += 1;
    }
    true
}

/// The header of a record of `parts` parts.
fn header_of_record(parts: u8) -> (out: Vec<u8>)
    ensures
        out@ == record_header(parts as int),
{
    let mut out: Vec<u8> = Vec::new();
    out.push(0x50);
    out.push(0x4f);
    out.push(0x50);
    out.push(0x53);
    out.push(parts);
    proof {
        assert(out@ =~= record_header(parts as int));
    }
    out
}

/// Reads the part that stands at `at`, and says where it ends. `left` is the
/// number of parts still to read, this one counted.
fn read_part(bytes: &[u8], at: usize, Ghost(left): Ghost<nat>) -> (r: Result<
    (BloomFilter, usize),
    ExPoppyError,
>)
    requires
        at <= bytes@.len(),
        left > 0,
    ensures
        match r {
            Ok((part, end)) => {
                &&& part.inv()
                &&& at <= end <= bytes@.len()
                &&& crate::file::file_fault(bytes@.subrange(at as int, end as int)) is None
                &&& part@ == crate::file::view_of_file(bytes@.subrange(at as int, end as int))
                &&& read_parts(bytes@, at as int, left) == match read_parts(
                    bytes@,
                    end as int,
                    (left - 1) as nat,
                ) {
                    Err(e) => Err::<Seq<Seq<u8>>, ExPoppyError>(e),
                    Ok(more) => Ok(seq![bytes@.subrange(at as int, end as int)] + more),
                }
            },
            Err(e) => read_parts(bytes@, at as int, left) == Err::<Seq<Seq<u8>>, ExPoppyError>(e),
        },
{
    proof {
        reveal_with_fuel(read_parts, 1);
    }
    let total = bytes.len();
    let rest = slice_subrange(bytes, at, total);
    if rest.len() < FILE_HEADER_LEN {
        return Err(ExPoppyError::CorruptFormat);
    }
    let bit_size = read_word(rest, 30);
    if bit_size > MAX_BITS {
        return match load_filter(rest) {
            Err(e) => Err(e),
            Ok(_) => Err(ExPoppyError::CorruptFormat),
        };
    }
    let len: u64 = 38 + (bit_size + 7) / 8;
    if len > (total - at) as u64 {
        return Err(ExPoppyError::CorruptFormat);
    }
    let end: usize = at + len as usize;
    match load_filter(slice_subrange(bytes, at, end)) {
        Ok(part) => Ok((part, end)),
        Err(e) => Err(e),
    }
}

/// A Bloom filter that grows by parts.
#[derive(Debug)]
pub struct ScalableFilter {
    earlier: Vec<BloomFilter>,
    current: BloomFilter,
}

impl View for ScalableFilter {
    type V = Seq<FilterView>;

    closed spec fn view(&self) -> Seq<FilterView> {
        chain_view(self.earlier@, self.current)
    }
}

impl ScalableFilter {
    /// The files of the parts, the first part first.
    pub closed spec fn files(self) -> Seq<Seq<u8>> {
        chain_files(self.earlier@, self.current)
    }

    /// What holds of every scalable filter: each part is a filter, there are
    /// at most `MAX_PARTS` of them, and each stands rightly behind the part
    /// before. `new` and `load` make it so, and every function keeps it so.
    pub closed spec fn inv(self) -> bool {
        chain_ok(self.earlier@, self.current)
    }

    /// The files of the parts of a scalable filter are files, the filters they
    /// stand for are the parts, and the parts are chained.
    pub proof fn lemma_parts(self)
        requires
            self.inv(),
        ensures
            1 <= self@.len() <= MAX_PARTS,
            self.files().len() == self@.len(),
            forall|i: int|
                0 <= i < self.files().len() ==> crate::file::file_fault(
                    #[trigger] self.files()[i],
                ) is None,
            views_of(self.files()) == self@,
            chained(self@),
    {
        let files = self.files();
        assert forall|i: int| 0 <= i < files.len() implies crate::file::file_fault(
            #[trigger] files[i],
        ) is None && crate::file::view_of_file(files[i]) == self@[i] by {
            if i < self.earlier@.len() {
                self.earlier@[i].lemma_image_sound();
                lemma_file_of_image(self.earlier@[i].image());
            } else {
                self.current.lemma_image_sound();
                lemma_file_of_image(self.current.image());
            }
        }
        assert(views_of(files) =~= self@);
    }

    /// Every part of a scalable filter is sized: it has at least one bit and a
    /// capacity of at least one entry.
    pub proof fn lemma_sized_parts(self)
        requires
            self.inv(),
        ensures
            1 <= self@.len() <= MAX_PARTS,
            chained(self@),
            forall|i: int|
                0 <= i < self@.len() ==> (#[trigger] self@[i]).capacity >= 1 && self@[i].bit_size
                    >= 1 && self@[i].bits.len() == self@[i].bit_size,
    {
        assert forall|i: int| 0 <= i < self@.len() implies (#[trigger] self@[i]).capacity >= 1
            && self@[i].bit_size >= 1 && self@[i].bits.len() == self@[i].bit_size by {
            if i < self.earlier@.len() {
                lemma_filter_is_sized(self.earlier@[i]);
            } else {
                lemma_filter_is_sized(self.current);
            }
        }
    }

    /// A scalable filter of one part.
    pub fn new(first: BloomFilter) -> (r: ScalableFilter)
        ensures
            r.inv(),
            r@ == seq![first@],
    {
        proof {
            use_type_invariant(&first);
        }
        let r = ScalableFilter { earlier: Vec::new(), current: first };
        proof {
            assert(r@ =~= seq![first@]);
        }
        r
    }

    /// The number of parts.
    pub fn sub_filters(&self) -> (n: usize)
        requires
            self.inv(),
        ensures
            n == self@.len(),
            1 <= n <= MAX_PARTS,
    {
        self.earlier.len() + 1
    }

    /// Part `index` of the filter, the first part being part 0, or `None` if
    /// there is no such part.
    pub fn part(&self, index: usize) -> (r: Option<&BloomFilter>)
        ensures
            r is Some <==> index < self@.len(),
            r matches Some(p) ==> p@ == self@[index as int],
    {
        if index < self.earlier.len() {
            Some(&self.earlier[index])
        } else if index == self.earlier.len() {
            Some(&self.current)
        } else {
            None
        }
    }

    /// Tells whether the filter reports `data` as possibly present: whether one
    /// of its parts does. The last part is asked first.
    pub fn contains_bytes(&self, data: &[u8]) -> (found: bool)
        ensures
            found == chain_members(self@).contains(data@),
    {
        let n = self.earlier.len();
        if self.current.contains_bytes(data) {
            assert(self@[n as int].reports(data@));
            return true;
        }
        let mut i: usize = n;
        while i > 0
            invariant
                n == self.earlier@.len(),
                i <= n,
                !self@[n as int].reports(data@),
                forall|j: int| i <= j < n ==> !(#[trigger] self@[j]).reports(data@),
            decreases i,
        {
            i -= 1;
            if self.earlier[i].contains_bytes(data) {
                assert(self@[i as int].reports(data@));
                return true;
            }
        }
        false
    }

    /// Inserts `data` into the last part, as `BloomFilter::insert_bytes` does:
    /// sets the bits of `data` there and returns whether one was unset. No
    /// other part changes, and the insertion never fails. Every entry that
    /// was reported stays reported, and `data` is reported.
    pub fn insert_bytes(&mut self, data: &[u8]) -> (r: Result<bool, ExPoppyError>)
        requires
            old(self).inv(),
        ensures
            final(self).inv(),
            r == Ok::<bool, ExPoppyError>(old(self)@.last().novel(data@)),
            final(self)@ == old(self)@.update(
                old(self)@.len() - 1,
                old(self)@.last().inserted(data@),
            ),
            chain_members(old(self)@).subset_of(chain_members(final(self)@)),
            chain_members(final(self)@).contains(data@),
    {
        let ghost before = *self;
        let r = self.current.insert_bytes(data);
        proof {
            let n = before.earlier@.len() as int;
            lemma_chain_keeps(before.earlier@, before.current, self.current);
            assert(self@ =~= before@.update(n, before@.last().inserted(data@)));
            lemma_chain_members_stay(before@, self@);
            assert(self@[n].reports(data@));
        }
        r
    }

    /// Says how to go on: `Ok(None)` while the last part is not full, else the
    /// request for the part to size and hand to `grow`. Fails with
    /// `InvalidParameter` if the last part is full and no part can follow it:
    /// the chain has `MAX_PARTS` parts, twice the capacity does not fit the
    /// machine, or half the rate is no rate that the engine sizes a filter for.
    pub fn next_request(&self) -> (r: Result<Option<Params>, ExPoppyError>)
        requires
            self.inv(),
        ensures
            r == next_step(self@),
            r matches Ok(Some(request)) ==> request.wf(),
    {
        proof {
            lemma_filter_is_sized(self.current);
            assert(self@.last() == self.current@);
        }
        let last = &self.current;
        if !is_full(last) {
            return Ok(None);
        }
        if self.earlier.len() + 1 >= MAX_PARTS {
            return Err(ExPoppyError::InvalidParameter);
        }
        let cap = capacity(last);
        let rate = fpp(last);
        if cap > usize::MAX / 2 || rate < RATE_FLOOR + RATE_STEP {
            return Err(ExPoppyError::InvalidParameter);
        }
        Ok(
            Some(
                Params {
                    version: version(last),
                    capacity: 2 * cap,
                    rate_bits: rate - RATE_STEP,
                    variant: last.variant(),
                },
            ),
        )
    }

    /// Tells whether `grow` would take `next` in.
    pub fn takes(&self, next: &BloomFilter) -> (b: bool)
        requires
            self.inv(),
        ensures
            b == accepts(self@, next@),
    {
        match self.next_request() {
            Ok(Some(request)) => {
                let tag: u8 = if request.version == 1 {
                    0
                } else {
                    request.variant.tag()
                };
                version(next) == request.version && capacity(next) == request.capacity && fpp(next)
                    == request.rate_bits && next.variant().tag() == tag && count_set(next) == 0
            },
            _ => false,
        }
    }

    /// Takes in the next part. The part is accepted if and only if the last
    /// part is full, `next` is what `next_request` asks for, and no bit is
    /// set in `next` yet; it then becomes the last part, and the parts before
    /// stay as they are. Otherwise the filter is unchanged and the error is
    /// `InvalidParameter`.
    pub fn grow(&mut self, next: BloomFilter) -> (r: Result<(), ExPoppyError>)
        requires
            old(self).inv(),
        ensures
            final(self).inv(),
            accepts(old(self)@, next@) ==> r is Ok && final(self)@ == old(self)@.push(next@),
            !accepts(old(self)@, next@) ==> r == Err::<(), ExPoppyError>(
                ExPoppyError::InvalidParameter,
            ) && final(self)@ == old(self)@,
            chain_members(old(self)@).subset_of(chain_members(final(self)@)),
    {
        proof {
            use_type_invariant(&next);
        }
        if !self.takes(&next) {
            proof {
                lemma_chain_members_stay(self@, self@);
            }
            return Err(ExPoppyError::InvalidParameter);
        }
        let ghost before = *self;
        let mut incoming = next;
        proof {
            lemma_accepted_follows(before.earlier@, before.current, next);
            lemma_chain_grows(before.earlier@, before.current, next);
        }
        core::mem::swap(&mut self.current, &mut incoming);
        self.earlier.push(incoming);
        proof {
            assert(self.earlier@ == before.earlier@.push(before.current));
            assert(self.current == next);
            lemma_chain_members_stay(before@, self@);
        }
        Ok(())
    }

    /// Writes the record of the filter: the header of a record, then the file
    /// of each part.
    pub fn save(&self) -> (out: Vec<u8>)
        requires
            self.inv(),
        ensures
            out@ == record_of(self.files()),
            read_record(out@) == Ok::<Seq<Seq<u8>>, ExPoppyError>(self.files()),
    {
        proof {
            self.lemma_parts();
            lemma_record_reads_back(self.files());
        }
        let ghost files = self.files();
        let n = self.earlier.len();
        let mut out = header_of_record((n + 1) as u8);
        proof {
            assert(files.take(0) =~= Seq::<Seq<u8>>::empty());
            assert(out@ =~= record_header(n + 1) + joined(files.take(0)));
        }
        let mut i: usize = 0;
        while i < n
            invariant
                files == self.files(),
                n == self.earlier@.len(),
                files.len() == n + 1,
                i <= n,
                out@ == record_header(n + 1) + joined(files.take(i as int)),
            decreases n - i,
        {
            let mut bytes = save(&self.earlier[i]);
            proof {
                assert(bytes@ == files[i as int]);
                assert(files.take(i + 1) =~= files.take(i as int).push(files[i as int]));
                lemma_joined_push(files.take(i as int), files[i as int]);
                assert(out@ + bytes@ =~= record_header(n + 1) + joined(files.take(i + 1)));
            }
            out.append(&mut bytes);
            i += 1;
        }
        let mut bytes = save(&self.current);
        proof {
            assert(bytes@ == files[n as int]);
            assert(files =~= files.take(n as int).push(files[n as int]));
            lemma_joined_push(files.take(n as int), files[n as int]);
            assert(out@ + bytes@ =~= record_header(n + 1) + joined(files));
        }
        out.append(&mut bytes);
        out
    }

    /// Reads a scalable filter from its record. The filter is returned if and
    /// only if `bytes` is a record, and its parts are then the filters that
    /// the files in the record stand for; otherwise the error is the one that
    /// `read_record` names.
    pub fn load(bytes: &[u8]) -> (r: Result<ScalableFilter, ExPoppyError>)
        ensures
            match read_record(bytes@) {
                Err(e) => r == Err::<ScalableFilter, ExPoppyError>(e),
                Ok(files) => r is Ok && r->Ok_0.inv() && r->Ok_0@ == views_of(files),
            },
    {
        let total = bytes.len();
        if total < 4 {
            return Err(ExPoppyError::InvalidFormat);
        }
        if bytes[0] != 0x50 || bytes[1] != 0x4f || bytes[2] != 0x50 || bytes[3] != 0x53 {
            return Err(ExPoppyError::InvalidFormat);
        }
        if total < 5 {
            return Err(ExPoppyError::CorruptFormat);
        }
        let n: u8 = bytes[4];
        if n == 0 || n as usize > MAX_PARTS {
            return Err(ExPoppyError::CorruptFormat);
        }
        let mut parts: Vec<BloomFilter> = Vec::new();
        let ghost mut files: Seq<Seq<u8>> = Seq::empty();
        let mut at: usize = 5;
        let mut i: u8 = 0;
        while i < n
            invariant
                total == bytes@.len(),
                crate::record::has_record_magic(bytes@),
                n == bytes@[4],
                1 <= n <= MAX_PARTS,
                5 <= at <= total,
                i <= n,
                parts@.len() == i,
                files.len() == i,
                forall|j: int| 0 <= j < parts@.len() ==> (#[trigger] parts@[j]).inv(),
                forall|j: int|
                    0 <= j < parts@.len() ==> (#[trigger] parts@[j])@ == crate::file::view_of_file(
                        files[j],
                    ),
                read_parts(bytes@, 5, n as nat) == match read_parts(
                    bytes@,
                    at as int,
                    (n - i) as nat,
                ) {
                    Err(e) => Err::<Seq<Seq<u8>>, ExPoppyError>(e),
                    Ok(more) => Ok(files + more),
                },
            decreases n - i,
        {
            let (part, end) = match read_part(bytes, at, Ghost((n - i) as nat)) {
                Ok(found) => found,
                Err(e) => {
                    return Err(e);
                },
            };
            proof {
                let file = bytes@.subrange(at as int, end as int);
                let more = read_parts(bytes@, end as int, (n - i - 1) as nat);
                if more is Ok {
                    assert(files.push(file) + more->Ok_0 =~= files + (seq![file] + more->Ok_0));
                }
                files = files.push(file);
            }
            parts.push(part);
            at = end;
            i += 1;
        }
        proof {
            reveal_with_fuel(read_parts, 1);
        }
        if at != total {
            return Err(ExPoppyError::CorruptFormat);
        }
        proof {
            assert(files + Seq::<Seq<u8>>::empty() =~= files);
            assert(parts_view(parts@) =~= views_of(files));
        }
        if !is_chain(&parts) {
            return Err(ExPoppyError::CorruptFormat);
        }
        let ghost all = parts@;
        match parts.pop() {
            Some(current) => {
                proof {
                    assert(chain_view(parts@, current) =~= parts_view(all));
                }
                Ok(ScalableFilter { earlier: parts, current })
            },
            None => Err(ExPoppyError::CorruptFormat),
        }
    }
}

} // verus!
