//! The record of a scalable filter: the bytes that `ScalableFilter::save`
//! writes and `ScalableFilter::load` reads.
//!
//! A record starts with the four magic bytes `POPS` and the number of parts in
//! one byte. The files of the parts follow, the first part first, with nothing
//! between them and nothing behind the last. Each file says in its header how
//! long it is, so the parts can be told apart.

use vstd::prelude::*;
use crate::chain::{chained, MAX_PARTS};
use crate::error::ExPoppyError;
use crate::file::{file_bit_size, file_fault, view_of_file, FILE_HEADER_LEN};
use crate::image::{lemma_word_moved, lemma_word_range, MAX_BITS};
use crate::membership::FilterView;

verus! {

/// Length of the header of a record: magic and number of parts.
pub const RECORD_HEADER_LEN: usize = 5;

/// Whether `s` starts with the magic bytes of a record, `POPS`.
pub open spec fn has_record_magic(s: Seq<u8>) -> bool {
    s[0] == 0x50 && s[1] == 0x4f && s[2] == 0x50 && s[3] == 0x53
}

/// The header of a record of `parts` parts.
pub open spec fn record_header(parts: int) -> Seq<u8> {
    seq![0x50u8, 0x4fu8, 0x50u8, 0x53u8, parts as u8]
}

/// The files one behind the other.
pub open spec fn joined(files: Seq<Seq<u8>>) -> Seq<u8>
    decreases files.len(),
{
    if files.len() == 0 {
        Seq::empty()
    } else {
        joined(files.drop_last()) + files.last()
    }
}

/// The record of a scalable filter whose parts have the files `files`.
pub open spec fn record_of(files: Seq<Seq<u8>>) -> Seq<u8> {
    record_header(files.len() as int) + joined(files)
}

/// The filters that files stand for.
pub open spec fn views_of(files: Seq<Seq<u8>>) -> Seq<FilterView> {
    Seq::new(files.len(), |i: int| view_of_file(files[i]))
}

/// The length of the file whose header stands at the start of `s`, if `s`
/// holds the whole header and the header names a number of bits that the
/// engine stores.
pub open spec fn measured_len(s: Seq<u8>) -> Option<int> {
    if s.len() < FILE_HEADER_LEN || file_bit_size(s) > MAX_BITS {
        None
    } else {
        Some(FILE_HEADER_LEN + (file_bit_size(s) + 7) / 8)
    }
}

/// Why the bytes `rest` do not start with a file that can be measured: they
/// are too few to hold a header, or the header is at fault.
pub open spec fn part_fault(rest: Seq<u8>) -> ExPoppyError {
    if rest.len() < FILE_HEADER_LEN {
        ExPoppyError::CorruptFormat
    } else {
        match file_fault(rest) {
            Some(e) => e,
            None => ExPoppyError::CorruptFormat,
        }
    }
}

/// The files of `parts` parts that stand in `s` from `at` to the end of `s`,
/// or why they do not: the first part that is no file gives its fault, and
/// bytes that are missing or left over are `CorruptFormat`.
#[verifier::opaque]
pub open spec fn read_parts(s: Seq<u8>, at: int, parts: nat) -> Result<
    Seq<Seq<u8>>,
    ExPoppyError,
>
    decreases parts,
{
    if parts == 0 {
        if at == s.len() {
            Ok(Seq::empty())
        } else {
            Err(ExPoppyError::CorruptFormat)
        }
    } else {
        let rest = s.subrange(at, s.len() as int);
        match measured_len(rest) {
            None => Err(part_fault(rest)),
            Some(len) => if len > rest.len() {
                Err(ExPoppyError::CorruptFormat)
            } else {
                let file = s.subrange(at, at + len);
                match file_fault(file) {
                    Some(e) => Err(e),
                    None => match read_parts(s, at + len, (parts - 1) as nat) {
                        Err(e) => Err(e),
                        Ok(more) => Ok(seq![file] + more),
                    },
                }
            },
        }
    }
}

/// The files of the parts that a record holds, or why `s` is no record.
///
/// * `InvalidFormat`: `s` does not start with the magic bytes of a record.
/// * `CorruptFormat`: the number of parts is missing, zero or above
///   `MAX_PARTS`, bytes are missing or left over, or the parts do not stand
///   rightly behind one another.
/// * Else the fault of the first part that is no file, as `file_fault` names
///   it.
pub open spec fn read_record(s: Seq<u8>) -> Result<Seq<Seq<u8>>, ExPoppyError> {
    if s.len() < 4 || !has_record_magic(s) {
        Err(ExPoppyError::InvalidFormat)
    } else if s.len() < RECORD_HEADER_LEN || s[4] == 0 || s[4] > MAX_PARTS {
        Err(ExPoppyError::CorruptFormat)
    } else {
        match read_parts(s, RECORD_HEADER_LEN as int, s[4] as nat) {
            Err(e) => Err(e),
            Ok(files) => if chained(views_of(files)) {
                Ok(files)
            } else {
                Err(ExPoppyError::CorruptFormat)
            },
        }
    }
}

/// A file has the length that its header measures.
pub proof fn lemma_measured_len(f: Seq<u8>)
    requires
        file_fault(f) is None,
    ensures
        measured_len(f) == Some(f.len() as int),
{
}

/// What follows a file does not change what its header measures.
pub proof fn lemma_measured_len_of_prefix(f: Seq<u8>, rest: Seq<u8>)
    requires
        measured_len(f) is Some,
    ensures
        measured_len(f + rest) == measured_len(f),
{
    lemma_word_moved(f + rest, 30, f, 30);
}

/// Joining one file more puts it behind the others.
pub proof fn lemma_joined_push(files: Seq<Seq<u8>>, file: Seq<u8>)
    ensures
        joined(files.push(file)) == joined(files) + file,
{
    assert(files.push(file).drop_last() =~= files);
}

/// The first files, joined, are the start of all files joined.
pub proof fn lemma_joined_take(files: Seq<Seq<u8>>, count: int)
    requires
        0 <= count <= files.len(),
    ensures
        joined(files.take(count)).len() <= joined(files).len(),
        joined(files.take(count)) == joined(files).subrange(
            0,
            joined(files.take(count)).len() as int,
        ),
    decreases files.len(),
{
    if count == files.len() {
        assert(files.take(count) =~= files);
        assert(joined(files) =~= joined(files).subrange(0, joined(files).len() as int));
    } else {
        let shorter = files.drop_last();
        lemma_joined_take(shorter, count);
        assert(shorter.take(count) =~= files.take(count));
        assert(joined(files.take(count)) =~= joined(files).subrange(
            0,
            joined(files.take(count)).len() as int,
        ));
    }
}

/// Where part `index` ends in the files joined, it stands whole before.
pub proof fn lemma_joined_part(files: Seq<Seq<u8>>, index: int)
    requires
        0 <= index < files.len(),
    ensures
        joined(files.take(index + 1)).len() == joined(files.take(index)).len()
            + files[index].len(),
        joined(files.take(index + 1)).len() <= joined(files).len(),
        joined(files).subrange(
            joined(files.take(index)).len() as int,
            joined(files.take(index + 1)).len() as int,
        ) == files[index],
{
    let before = joined(files.take(index));
    let upto = joined(files.take(index + 1));
    let all = joined(files);
    assert(files.take(index + 1) =~= files.take(index).push(files[index]));
    lemma_joined_push(files.take(index), files[index]);
    assert(upto == before + files[index]);
    lemma_joined_take(files, index + 1);
    assert(upto == all.subrange(0, upto.len() as int));
    let part = all.subrange(before.len() as int, upto.len() as int);
    assert(part.len() == files[index].len());
    assert forall|k: int| 0 <= k < part.len() implies part[k] == files[index][k] by {
        assert(part[k] == all[before.len() + k]);
        assert(all.subrange(0, upto.len() as int)[before.len() + k] == all[before.len() + k]);
        assert(upto[before.len() + k] == files[index][k]);
    }
    assert(part =~= files[index]);
}

/// Reading parts from where a file stands gives that file and then what
/// reading from behind it gives.
pub proof fn lemma_read_step(s: Seq<u8>, at: int, parts: nat, file: Seq<u8>)
    requires
        parts > 0,
        0 <= at,
        at + file.len() <= s.len(),
        file_fault(file) is None,
        s.subrange(at, at + file.len()) == file,
    ensures
        read_parts(s, at, parts) == match read_parts(s, at + file.len(), (parts - 1) as nat) {
            Err(e) => Err::<Seq<Seq<u8>>, ExPoppyError>(e),
            Ok(more) => Ok(seq![file] + more),
        },
{
    reveal_with_fuel(read_parts, 1);
    let rest = s.subrange(at, s.len() as int);
    let behind = s.subrange(at + file.len(), s.len() as int);
    assert(rest =~= file + behind);
    lemma_measured_len(file);
    lemma_measured_len_of_prefix(file, behind);
    assert(measured_len(rest) == Some(file.len() as int));
}

/// Reading the parts of joined files, from any part on, gives these parts.
pub proof fn lemma_read_joined(header: Seq<u8>, files: Seq<Seq<u8>>, from: int)
    requires
        0 <= from <= files.len(),
        forall|i: int| 0 <= i < files.len() ==> file_fault(#[trigger] files[i]) is None,
    ensures
        read_parts(
            header + joined(files),
            (header.len() + joined(files.take(from)).len()) as int,
            (files.len() - from) as nat,
        ) == Ok::<Seq<Seq<u8>>, ExPoppyError>(files.skip(from)),
    decreases files.len() - from,
{
    let s = header + joined(files);
    let at = (header.len() + joined(files.take(from)).len()) as int;
    if from == files.len() {
        reveal_with_fuel(read_parts, 1);
        assert(files.take(from) =~= files);
        assert(files.skip(from) =~= Seq::<Seq<u8>>::empty());
    } else {
        let file = files[from];
        let parts = (files.len() - from) as nat;
        lemma_joined_part(files, from);
        lemma_read_joined(header, files, from + 1);
        let lo = joined(files.take(from)).len() as int;
        let hi = joined(files.take(from + 1)).len() as int;
        assert(at + file.len() == header.len() + hi);
        assert(s.subrange(at, at + file.len()) =~= joined(files).subrange(lo, hi));
        lemma_read_step(s, at, parts, file);
        assert(seq![file] + files.skip(from + 1) =~= files.skip(from));
    }
}

/// Round trip: the record of files that stand rightly behind one another
/// reads back as these files.
pub proof fn lemma_record_reads_back(files: Seq<Seq<u8>>)
    requires
        1 <= files.len() <= MAX_PARTS,
        forall|i: int| 0 <= i < files.len() ==> file_fault(#[trigger] files[i]) is None,
        chained(views_of(files)),
    ensures
        read_record(record_of(files)) == Ok::<Seq<Seq<u8>>, ExPoppyError>(files),
{
    let header = record_header(files.len() as int);
    let s = record_of(files);
    lemma_read_joined(header, files, 0);
    assert(files.take(0) =~= Seq::<Seq<u8>>::empty());
    assert(joined(files.take(0)).len() == 0);
    assert(files.skip(0) =~= files);
    assert(header.len() == 5);
    assert(read_parts(s, 5, files.len()) == Ok::<Seq<Seq<u8>>, ExPoppyError>(files));
    assert(s.len() >= 5);
    assert(s[0] == header[0] && s[1] == header[1] && s[2] == header[2] && s[3] == header[3]
        && s[4] == header[4]);
    assert(s[4] == files.len() as u8);
}

/// A file cut short measures longer than it is, if it can be measured at all,
/// and is `CorruptFormat` if it cannot.
pub proof fn lemma_cut_part(file: Seq<u8>, kept: int)
    requires
        file_fault(file) is None,
        0 <= kept < file.len(),
    ensures
        match measured_len(file.subrange(0, kept)) {
            Some(len) => len > kept,
            None => part_fault(file.subrange(0, kept)) == ExPoppyError::CorruptFormat,
        },
{
    let cut = file.subrange(0, kept);
    if kept >= FILE_HEADER_LEN {
        lemma_word_moved(cut, 30, file, 30);
        lemma_word_range(file, 30);
    }
}

/// Reading parts from where a file stands that is cut short fails with
/// `CorruptFormat`.
pub proof fn lemma_read_cut_part(t: Seq<u8>, at: int, parts: nat, file: Seq<u8>)
    requires
        parts > 0,
        0 <= at <= t.len() < at + file.len(),
        file_fault(file) is None,
        t.subrange(at, t.len() as int) == file.subrange(0, t.len() - at),
    ensures
        read_parts(t, at, parts) == Err::<Seq<Seq<u8>>, ExPoppyError>(ExPoppyError::CorruptFormat),
{
    reveal_with_fuel(read_parts, 1);
    lemma_cut_part(file, t.len() - at);
}

/// Reading the parts of a record that is cut short fails with `CorruptFormat`,
/// from any part on that starts before the cut.
pub proof fn lemma_read_cut(header: Seq<u8>, files: Seq<Seq<u8>>, kept: int, from: int)
    requires
        0 <= from < files.len(),
        forall|i: int| 0 <= i < files.len() ==> file_fault(#[trigger] files[i]) is None,
        header.len() + joined(files.take(from)).len() <= kept < header.len() + joined(
            files,
        ).len(),
    ensures
        read_parts(
            (header + joined(files)).subrange(0, kept),
            (header.len() + joined(files.take(from)).len()) as int,
            (files.len() - from) as nat,
        ) == Err::<Seq<Seq<u8>>, ExPoppyError>(ExPoppyError::CorruptFormat),
    decreases files.len() - from,
{
    let s = header + joined(files);
    let t = s.subrange(0, kept);
    let at = (header.len() + joined(files.take(from)).len()) as int;
    let file = files[from];
    let parts = (files.len() - from) as nat;
    lemma_joined_part(files, from);
    let lo = joined(files.take(from)).len() as int;
    let hi = joined(files.take(from + 1)).len() as int;
    assert(file.len() == hi - lo);
    assert(file_fault(file) is None);
    assert(s.subrange(at, at + file.len()) =~= joined(files).subrange(lo, hi));
    assert(s.subrange(at, at + file.len()) == file);
    if at + file.len() <= kept {
        assert(t.subrange(at, at + file.len()) =~= s.subrange(at, at + file.len()));
        lemma_read_step(t, at, parts, file);
        if from + 1 < files.len() {
            lemma_read_cut(header, files, kept, from + 1);
        } else {
            assert(files.take(from + 1) =~= files);
        }
    } else {
        assert(t.subrange(at, t.len() as int) =~= file.subrange(0, t.len() - at)) by {
            assert forall|k: int| 0 <= k < kept - at implies t[at + k] == file[k] by {
                assert(s.subrange(at, at + file.len())[k] == s[at + k]);
            }
        }
        lemma_read_cut_part(t, at, parts, file);
    }
}

/// Corruption: a record cut short anywhere behind its magic bytes is refused
/// as `CorruptFormat`.
pub proof fn lemma_truncated_record_is_corrupt(files: Seq<Seq<u8>>, kept: int)
    requires
        1 <= files.len() <= MAX_PARTS,
        forall|i: int| 0 <= i < files.len() ==> file_fault(#[trigger] files[i]) is None,
        4 <= kept < record_of(files).len(),
    ensures
        read_record(record_of(files).subrange(0, kept)) == Err::<Seq<Seq<u8>>, ExPoppyError>(
            ExPoppyError::CorruptFormat,
        ),
{
    let header = record_header(files.len() as int);
    let s = record_of(files);
    let t = s.subrange(0, kept);
    assert(header.len() == 5);
    assert(t[0] == header[0] && t[1] == header[1] && t[2] == header[2] && t[3] == header[3]);
    if kept >= 5 {
        assert(files.take(0) =~= Seq::<Seq<u8>>::empty());
        assert(joined(files.take(0)).len() == 0);
        lemma_read_cut(header, files, kept, 0);
        assert(t[4] == header[4]);
        assert(t[4] == files.len() as u8);
    }
}

} // verus!
