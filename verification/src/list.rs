//! An append-only list of validator records inside one fixed-capacity buffer.

use crate::validator::{
    lemma_u64_from_le_bytes_bounds, lemma_u64_le_round_trip, lemma_unpack_of_packed, read_u64_le,
    u64_from_le_bytes, u64_le_bytes, write_u64_le, DecodeError, Validator, RECORD_SIZE,
};
use vstd::prelude::*;
use vstd::slice::slice_subrange;

verus! {

/// Number of bytes at the start of the buffer that hold the record count.
pub const HEADER_SIZE: usize = 8;

/// Why a record could not be appended.
#[derive(Clone, Copy, Debug, PartialEq, Eq, Structural)]
pub enum CapacityError {
    /// The buffer has no room for one more record.
    Full,
}

/// The record count that the header of `buf` holds; a buffer too short for a
/// header holds no records.
pub open spec fn stored_count(buf: Seq<u8>) -> int {
    if buf.len() >= HEADER_SIZE {
        u64_from_le_bytes(buf.subrange(0, HEADER_SIZE as int))
    } else {
        0
    }
}

/// Where the record of index `i` starts in the buffer.
pub open spec fn record_offset(i: int) -> int {
    HEADER_SIZE + i * RECORD_SIZE
}

/// How many records a buffer of `len` bytes has room for.
pub open spec fn capacity_records(len: int) -> int {
    if len >= HEADER_SIZE {
        (len - HEADER_SIZE) / (RECORD_SIZE as int)
    } else {
        0
    }
}

/// The header is there and every record that it counts lies inside the buffer.
pub open spec fn well_formed(buf: Seq<u8>) -> bool {
    buf.len() >= HEADER_SIZE && record_offset(stored_count(buf)) <= buf.len()
}

/// How many records can be read: those that the header counts, as far as the
/// buffer reaches.
pub open spec fn readable_count(buf: Seq<u8>) -> int {
    if stored_count(buf) <= capacity_records(buf.len() as int) {
        stored_count(buf)
    } else {
        capacity_records(buf.len() as int)
    }
}

/// The bytes of the record of index `i`.
pub open spec fn record_bytes(buf: Seq<u8>, i: int) -> Seq<u8> {
    buf.subrange(record_offset(i), record_offset(i + 1))
}

/// What reading the list gives: for each readable record, in the order of
/// the buffer, the record or the reason why its bytes are none.
pub open spec fn records(buf: Seq<u8>) -> Seq<Result<Validator, DecodeError>> {
    Seq::new(readable_count(buf) as nat, |i: int| Validator::unpacked(record_bytes(buf, i)))
}

/// The buffer has room for one more record behind those that the header counts.
pub open spec fn has_room(buf: Seq<u8>) -> bool {
    buf.len() >= HEADER_SIZE && record_offset(stored_count(buf) + 1) <= buf.len()
}

/// The buffer after `v` was appended: the record's bytes behind the last
/// record and the count raised by one, where there is room; else the buffer
/// as it was.
#[verifier::opaque]
pub open spec fn appended(buf: Seq<u8>, v: Validator) -> Seq<u8> {
    if has_room(buf) {
        let at = record_offset(stored_count(buf));
        u64_le_bytes((stored_count(buf) + 1) as u64) + buf.subrange(HEADER_SIZE as int, at)
            + v.packed() + buf.subrange(at + RECORD_SIZE, buf.len() as int)
    } else {
        buf
    }
}

/// Storage list for all validator stake accounts in the pool.
pub struct ValidatorList<'data> {
    /// The buffer: the record count, then the records, then unused room.
    pub validators: &'data mut [u8],
}

impl<'data> View for ValidatorList<'data> {
    type V = Seq<Result<Validator, DecodeError>>;

    /// What reading the list gives.
    open spec fn view(&self) -> Seq<Result<Validator, DecodeError>> {
        records(self.validators@)
    }
}

impl<'data> ValidatorList<'data> {
    /// The bytes of the buffer as they are now.
    pub open spec fn bytes(&self) -> Seq<u8> {
        self.validators@
    }

    /// Takes `buffer` as the storage of a list, as it is.
    pub fn wrap(buffer: &'data mut [u8]) -> (list: ValidatorList<'data>)
        ensures
            list.bytes() == old(buffer)@,
            list@ == records(old(buffer)@),
            final(list.validators)@ == final(buffer)@,
    {
        ValidatorList { validators: buffer }
    }

    /// Size of the buffer in bytes.
    pub fn capacity_bytes(&self) -> (n: usize)
        ensures
            n == self.bytes().len(),
    {
        self.validators.len()
    }

    /// Number of records that the header states.
    pub fn len(&self) -> (n: u64)
        ensures
            n == stored_count(self.bytes()),
    {
        if self.validators.len() >= HEADER_SIZE {
            read_u64_le(self.validators, 0)
        } else {
            0
        }
    }

    /// Whether the header is there and every record that it counts lies
    /// inside the buffer.
    pub fn is_well_formed(&self) -> (b: bool)
        ensures
            b == well_formed(self.bytes()),
    {
        let capacity: usize = self.validators.len();
        if capacity < HEADER_SIZE {
            return false;
        }
        let count: u64 = read_u64_le(self.validators, 0);
        let slots: usize = (capacity - HEADER_SIZE) / RECORD_SIZE;
        count <= slots as u64
    }

    /// Number of records that can still be appended.
    pub fn remaining_capacity(&self) -> (n: usize)
        ensures
            n == if well_formed(self.bytes()) {
                (self.bytes().len() - HEADER_SIZE - stored_count(self.bytes()) * RECORD_SIZE) / (
                RECORD_SIZE as int)
            } else {
                0
            },
    {
        let capacity: usize = self.validators.len();
        if capacity < HEADER_SIZE {
            return 0;
        }
        let count: u64 = read_u64_le(self.validators, 0);
        let slots: usize = (capacity - HEADER_SIZE) / RECORD_SIZE;
        if count > slots as u64 {
            return 0;
        }
        slots - count as usize
    }

    /// Appends `v` behind the last record, or fails and changes nothing where
    /// the buffer has no room for it. The record's bytes are written first and
    /// the count after them. The list stays on the buffer that it was made on.
    pub fn append(&mut self, v: Validator) -> (r: Result<(), CapacityError>)
        ensures
            final(self).bytes() == appended(old(self).bytes(), v),
            final(final(self).validators)@ == final(old(self).validators)@,
            has_room(old(self).bytes()) ==> r == Ok::<(), CapacityError>(()),
            !has_room(old(self).bytes()) ==> r == Err::<(), CapacityError>(CapacityError::Full),
            r.is_err() ==> final(self).bytes() == old(self).bytes(),
            r.is_err() ==> final(self)@ == old(self)@,
            r.is_ok() ==> final(self)@ == old(self)@.push(Ok(v)),
            r.is_ok() ==> stored_count(final(self).bytes()) == stored_count(old(self).bytes()) + 1,
            final(self).bytes().len() == old(self).bytes().len(),
            well_formed(old(self).bytes()) ==> well_formed(final(self).bytes()),
    {
        let capacity: usize = self.validators.len();
        if capacity < HEADER_SIZE {
            proof {
                lemma_appended_when_full(self.bytes(), v);
            }
            return Err(CapacityError::Full);
        }
        let count: u64 = read_u64_le(self.validators, 0);
        let slots: usize = (capacity - HEADER_SIZE) / RECORD_SIZE;
        if count >= slots as u64 {
            proof {
                lemma_appended_when_full(self.bytes(), v);
            }
            return Err(CapacityError::Full);
        }
        let at: usize = HEADER_SIZE + count as usize * RECORD_SIZE;
        v.pack_into_slice_at(self.validators, at);
        write_u64_le(self.validators, 0, count + 1);
        proof {
            reveal(appended);
            assert(self.validators@ =~= appended(old(self).bytes(), v));
            lemma_appended_with_room(old(self).bytes(), v);
        }
        Ok(())
    }

    /// Number of records that can be read.
    pub fn readable_len(&self) -> (n: usize)
        ensures
            n == readable_count(self.bytes()),
    {
        let capacity: usize = self.validators.len();
        if capacity < HEADER_SIZE {
            return 0;
        }
        let count: u64 = read_u64_le(self.validators, 0);
        let slots: usize = (capacity - HEADER_SIZE) / RECORD_SIZE;
        if count > slots as u64 {
            slots
        } else {
            count as usize
        }
    }

    /// Decodes the record of index `index`, if it can be read.
    pub fn get(&self, index: usize) -> (r: Option<Result<Validator, DecodeError>>)
        ensures
            r == if index < readable_count(self.bytes()) {
                Some(records(self.bytes())[index as int])
            } else {
                None
            },
    {
        if index >= self.readable_len() {
            return None;
        }
        assert(self.validators.len() == self.bytes().len());
        let at: usize = HEADER_SIZE + index * RECORD_SIZE;
        let span: &[u8] = slice_subrange(self.validators, at, at + RECORD_SIZE);
        Some(Validator::unpack_from_slice(span))
    }

    /// Decodes every readable record, in the order of the buffer.
    pub fn iterate(&self) -> (out: Vec<Result<Validator, DecodeError>>)
        ensures
            out@ == self@,
            out@.len() == readable_count(self.bytes()),
            well_formed(self.bytes()) ==> out@.len() == stored_count(self.bytes()),
    {
        let n: usize = self.readable_len();
        let mut out: Vec<Result<Validator, DecodeError>> = Vec::new();
        let mut i: usize = 0;
        while i < n
            invariant
                i <= n,
                n == readable_count(self.bytes()),
                out@ == records(self.bytes()).subrange(0, i as int),
            decreases n - i,
        {
            match self.get(i) {
                Some(item) => out.push(item),
                None => {},
            }
            i = i + 1;
            proof {
                assert(out@ =~= records(self.bytes()).subrange(0, i as int));
            }
        }
        proof {
            assert(out@ =~= records(self.bytes()));
        }
        out
    }
}

/// The buffer after each record of `vs` was appended in turn.
pub open spec fn appended_all(buf: Seq<u8>, vs: Seq<Validator>) -> Seq<u8>
    decreases vs.len(),
{
    if vs.len() == 0 {
        buf
    } else {
        appended(appended_all(buf, vs.drop_last()), vs.last())
    }
}

/// Each record of `vs`, appended in turn, found room.
pub open spec fn all_found_room(buf: Seq<u8>, vs: Seq<Validator>) -> bool
    decreases vs.len(),
{
    vs.len() == 0 || (all_found_room(buf, vs.drop_last()) && has_room(
        appended_all(buf, vs.drop_last()),
    ))
}

/// An append that finds room keeps the size of the buffer and the records
/// read so far, raises the count by one and adds the new record at the end
/// of what is read.
pub proof fn lemma_appended_with_room(buf: Seq<u8>, v: Validator)
    requires
        buf.len() <= usize::MAX,
        has_room(buf),
    ensures
        well_formed(buf),
        well_formed(appended(buf, v)),
        appended(buf, v).len() == buf.len(),
        stored_count(appended(buf, v)) == stored_count(buf) + 1,
        records(appended(buf, v)) == records(buf).push(Ok(v)),
{
    reveal(appended);
    let count = stored_count(buf);
    let at = record_offset(count);
    let after = appended(buf, v);
    lemma_u64_from_le_bytes_bounds(buf.subrange(0, HEADER_SIZE as int));
    lemma_u64_le_round_trip((count + 1) as u64);
    lemma_unpack_of_packed(v);
    assert(after.len() == buf.len());
    assert(after.subrange(0, HEADER_SIZE as int) =~= u64_le_bytes((count + 1) as u64));
    assert(stored_count(after) == count + 1);
    assert(readable_count(buf) == count);
    assert(readable_count(after) == count + 1);
    assert forall|i: int| 0 <= i < count + 1 implies #[trigger] records(after)[i] == records(
        buf,
    ).push(Ok(v))[i] by {
        assert(HEADER_SIZE <= record_offset(i) && record_offset(i + 1) <= record_offset(count + 1))
            by (nonlinear_arith)
            requires
                0 <= i < count + 1,
        ;
        if i < count {
            assert(record_offset(i + 1) <= at) by (nonlinear_arith)
                requires
                    i < count,
                    at == record_offset(count),
            ;
            assert(record_bytes(after, i) =~= record_bytes(buf, i));
        } else {
            assert(record_bytes(after, i) =~= v.packed());
        }
    }
    assert(records(after) =~= records(buf).push(Ok(v)));
}

/// An append that finds no room leaves the buffer, and with it the count and
/// the records read, as they were.
pub proof fn lemma_appended_when_full(buf: Seq<u8>, v: Validator)
    requires
        !has_room(buf),
    ensures
        appended(buf, v) == buf,
        stored_count(appended(buf, v)) == stored_count(buf),
        records(appended(buf, v)) == records(buf),
{
    reveal(appended);
}

/// After `n` appends to an empty list that all found room, the count is `n`,
/// `n` is at most the number of records that the buffer has room for, the
/// records read are those appended, in that order, and one more append finds
/// room exactly when the header and `n + 1` records fit in the buffer.
pub proof fn lemma_appends_to_empty(buf: Seq<u8>, vs: Seq<Validator>)
    requires
        HEADER_SIZE <= buf.len() <= usize::MAX,
        stored_count(buf) == 0,
        all_found_room(buf, vs),
    ensures
        appended_all(buf, vs).len() == buf.len(),
        well_formed(appended_all(buf, vs)),
        stored_count(appended_all(buf, vs)) == vs.len(),
        vs.len() <= (buf.len() - HEADER_SIZE) / (RECORD_SIZE as int),
        records(appended_all(buf, vs)) == Seq::new(
            vs.len(),
            |i: int| Ok::<Validator, DecodeError>(vs[i]),
        ),
        has_room(appended_all(buf, vs)) <==> HEADER_SIZE + (vs.len() + 1) * RECORD_SIZE
            <= buf.len(),
    decreases vs.len(),
{
    if vs.len() == 0 {
        assert(records(buf) =~= Seq::new(0, |i: int| Ok::<Validator, DecodeError>(vs[i])));
    } else {
        let front = vs.drop_last();
        let before = appended_all(buf, front);
        lemma_appends_to_empty(buf, front);
        lemma_appended_with_room(before, vs.last());
        assert(records(appended_all(buf, vs)) =~= Seq::new(
            vs.len(),
            |i: int| Ok::<Validator, DecodeError>(vs[i]),
        ));
    }
}

} // verus!
