//! The validator record and its exact 17-byte encoding.

use vstd::prelude::*;

verus! {

/// Encoded length of one record, in bytes.
pub const RECORD_SIZE: usize = 17;

/// The bytes of `x` in little-endian order, least significant first.
#[verifier::opaque]
pub open spec fn u64_le_bytes(x: u64) -> Seq<u8> {
    seq![
        (x % 0x100) as u8,
        ((x / 0x100) % 0x100) as u8,
        ((x / 0x1_0000) % 0x100) as u8,
        ((x / 0x100_0000) % 0x100) as u8,
        ((x / 0x1_0000_0000) % 0x100) as u8,
        ((x / 0x100_0000_0000) % 0x100) as u8,
        ((x / 0x1_0000_0000_0000) % 0x100) as u8,
        ((x / 0x100_0000_0000_0000) % 0x100) as u8,
    ]
}

/// The number whose little-endian bytes are the first eight items of `s`.
pub open spec fn u64_from_le_bytes(s: Seq<u8>) -> int
    recommends
        s.len() >= 8,
{
    s[0] + s[1] * 0x100 + s[2] * 0x1_0000 + s[3] * 0x100_0000 + s[4] * 0x1_0000_0000 + s[5]
        * 0x100_0000_0000 + s[6] * 0x1_0000_0000_0000 + s[7] * 0x100_0000_0000_0000
}

/// What eight bytes hold in little-endian order fits in 64 bits.
pub proof fn lemma_u64_from_le_bytes_bounds(s: Seq<u8>)
    ensures
        0 <= u64_from_le_bytes(s) <= u64::MAX,
{
}

/// Reading back the little-endian bytes of a number gives that number.
pub proof fn lemma_u64_le_round_trip(x: u64)
    ensures
        u64_le_bytes(x).len() == 8,
        u64_from_le_bytes(u64_le_bytes(x)) == x,
{
    reveal(u64_le_bytes);
    let q1: int = x as int / 0x100;
    let q2: int = q1 / 0x100;
    let q3: int = q2 / 0x100;
    let q4: int = q3 / 0x100;
    let q5: int = q4 / 0x100;
    let q6: int = q5 / 0x100;
    let q7: int = q6 / 0x100;
    assert(q2 == x as int / 0x1_0000);
    assert(q3 == x as int / 0x100_0000);
    assert(q4 == x as int / 0x1_0000_0000);
    assert(q5 == x as int / 0x100_0000_0000);
    assert(q6 == x as int / 0x1_0000_0000_0000);
    assert(q7 == x as int / 0x100_0000_0000_0000);
    assert(q7 < 0x100);
    assert(x as int == x as int % 0x100 + 0x100 * q1);
    assert(q1 == q1 % 0x100 + 0x100 * q2);
    assert(q2 == q2 % 0x100 + 0x100 * q3);
    assert(q3 == q3 % 0x100 + 0x100 * q4);
    assert(q4 == q4 % 0x100 + 0x100 * q5);
    assert(q5 == q5 % 0x100 + 0x100 * q6);
    assert(q6 == q6 % 0x100 + 0x100 * q7);
}

/// Eight bytes are the little-endian bytes of the number that they hold.
pub proof fn lemma_u64_le_bytes_of_value(s: Seq<u8>)
    requires
        s.len() == 8,
    ensures
        u64_le_bytes(u64_from_le_bytes(s) as u64) == s,
{
    reveal(u64_le_bytes);
    let x: int = u64_from_le_bytes(s);
    let q7: int = s[7] as int;
    let q6: int = s[6] + 0x100 * q7;
    let q5: int = s[5] + 0x100 * q6;
    let q4: int = s[4] + 0x100 * q5;
    let q3: int = s[3] + 0x100 * q4;
    let q2: int = s[2] + 0x100 * q3;
    let q1: int = s[1] + 0x100 * q2;
    assert(x == s[0] + 0x100 * q1);
    assert(x / 0x100 == q1);
    assert(x / 0x1_0000 == q2);
    assert(x / 0x100_0000 == q3);
    assert(x / 0x1_0000_0000 == q4);
    assert(x / 0x100_0000_0000 == q5);
    assert(x / 0x1_0000_0000_0000 == q6);
    assert(x / 0x100_0000_0000_0000 == q7);
    assert(u64_le_bytes(x as u64) =~= s);
}

/// Reads the little-endian number held in the eight bytes of `buf` from `at`.
pub fn read_u64_le(buf: &[u8], at: usize) -> (x: u64)
    requires
        at + 8 <= buf@.len(),
    ensures
        x == u64_from_le_bytes(buf@.subrange(at as int, at + 8)),
{
    let b0: u64 = buf[at] as u64;
    let b1: u64 = buf[at + 1] as u64;
    let b2: u64 = buf[at + 2] as u64;
    let b3: u64 = buf[at + 3] as u64;
    let b4: u64 = buf[at + 4] as u64;
    let b5: u64 = buf[at + 5] as u64;
    let b6: u64 = buf[at + 6] as u64;
    let b7: u64 = buf[at + 7] as u64;
    b0 + b1 * 0x100 + b2 * 0x1_0000 + b3 * 0x100_0000 + b4 * 0x1_0000_0000 + b5 * 0x100_0000_0000
        + b6 * 0x1_0000_0000_0000 + b7 * 0x100_0000_0000_0000
}

/// Writes the little-endian bytes of `x` into the eight bytes of `buf` from `at`.
pub fn write_u64_le(buf: &mut [u8], at: usize, x: u64)
    requires
        at + 8 <= old(buf)@.len(),
    ensures
        final(buf)@.len() == old(buf)@.len(),
        final(buf)@ == old(buf)@.subrange(0, at as int) + u64_le_bytes(x) + old(buf)@.subrange(
            at + 8,
            old(buf)@.len() as int,
        ),
{
    proof {
        reveal(u64_le_bytes);
    }
    buf[at] = (x % 0x100) as u8;
    buf[at + 1] = ((x / 0x100) % 0x100) as u8;
    buf[at + 2] = ((x / 0x1_0000) % 0x100) as u8;
    buf[at + 3] = ((x / 0x100_0000) % 0x100) as u8;
    buf[at + 4] = ((x / 0x1_0000_0000) % 0x100) as u8;
    buf[at + 5] = ((x / 0x100_0000_0000) % 0x100) as u8;
    buf[at + 6] = ((x / 0x1_0000_0000_0000) % 0x100) as u8;
    buf[at + 7] = ((x / 0x100_0000_0000_0000) % 0x100) as u8;
}

/// Why a span of bytes is not the encoding of a record.
#[derive(Clone, Copy, Debug, PartialEq, Eq, Structural)]
pub enum DecodeError {
    /// The span is not exactly `RECORD_SIZE` bytes long.
    InvalidLength,
    /// The byte of the `active` flag is neither 0 nor 1.
    InvalidFlag,
}

/// Stake accounting of one validator in the pool.
#[derive(Clone, Copy, Debug, PartialEq, Eq, Structural)]
pub struct Validator {
    /// Sum of the balances of the stake accounts and unstake accounts.
    pub stake_accounts_balance: u64,
    /// Sum of the balances of the unstake accounts.
    pub unstake_accounts_balance: u64,
    /// Controls if a validator is allowed to have new stake deposits.
    /// When removing a validator, this flag should be set to `false`.
    pub active: bool,
}

impl Default for Validator {
    fn default() -> (v: Validator)
        ensures
            v == (Validator {
                stake_accounts_balance: 0,
                unstake_accounts_balance: 0,
                active: false,
            }),
    {
        Validator { stake_accounts_balance: 0, unstake_accounts_balance: 0, active: false }
    }
}

impl Validator {
    /// The 17 bytes that stand for this record: both balances in little-endian
    /// order, then one byte for the flag.
    pub open spec fn packed(self) -> Seq<u8> {
        u64_le_bytes(self.stake_accounts_balance) + u64_le_bytes(self.unstake_accounts_balance)
            + seq![if self.active { 1u8 } else { 0u8 }]
    }

    /// What a span of bytes stands for: a record, or the reason why it is none.
    pub open spec fn unpacked(bytes: Seq<u8>) -> Result<Validator, DecodeError> {
        if bytes.len() != RECORD_SIZE {
            Err(DecodeError::InvalidLength)
        } else if bytes[16] != 0 && bytes[16] != 1 {
            Err(DecodeError::InvalidFlag)
        } else {
            Ok(
                Validator {
                    stake_accounts_balance: u64_from_le_bytes(bytes.subrange(0, 8)) as u64,
                    unstake_accounts_balance: u64_from_le_bytes(bytes.subrange(8, 16)) as u64,
                    active: bytes[16] == 1,
                },
            )
        }
    }

    /// Decodes a record from a span of exactly `RECORD_SIZE` bytes.
    pub fn unpack_from_slice(src: &[u8]) -> (r: Result<Validator, DecodeError>)
        ensures
            r == Validator::unpacked(src@),
            src@.len() != RECORD_SIZE ==> r == Err::<Validator, DecodeError>(
                DecodeError::InvalidLength,
            ),
            src@.len() == RECORD_SIZE && src@[16] != 0 && src@[16] != 1 ==> r == Err::<
                Validator,
                DecodeError,
            >(DecodeError::InvalidFlag),
            r.is_ok() <==> src@.len() == RECORD_SIZE && (src@[16] == 0 || src@[16] == 1),
    {
        if src.len() != RECORD_SIZE {
            return Err(DecodeError::InvalidLength);
        }
        let flag: u8 = src[16];
        if flag != 0 && flag != 1 {
            return Err(DecodeError::InvalidFlag);
        }
        let stake_accounts_balance: u64 = read_u64_le(src, 0);
        let unstake_accounts_balance: u64 = read_u64_le(src, 8);
        Ok(Validator { stake_accounts_balance, unstake_accounts_balance, active: flag == 1 })
    }

    /// Encodes this record into the `RECORD_SIZE` bytes of `dst` that start at
    /// `at` and leaves every other byte as it was.
    pub fn pack_into_slice_at(&self, dst: &mut [u8], at: usize)
        requires
            at + RECORD_SIZE <= old(dst)@.len(),
        ensures
            final(dst)@.len() == old(dst)@.len(),
            final(dst)@ == old(dst)@.subrange(0, at as int) + self.packed() + old(dst)@.subrange(
                at + RECORD_SIZE,
                old(dst)@.len() as int,
            ),
    {
        assert(dst.len() == dst@.len());
        write_u64_le(dst, at, self.stake_accounts_balance);
        write_u64_le(dst, at + 8, self.unstake_accounts_balance);
        dst[at + 16] = if self.active { 1u8 } else { 0u8 };
        proof {
            lemma_u64_le_round_trip(self.stake_accounts_balance);
            lemma_u64_le_round_trip(self.unstake_accounts_balance);
            assert(dst@ =~= old(dst)@.subrange(0, at as int) + self.packed() + old(dst)@.subrange(
                at + RECORD_SIZE,
                old(dst)@.len() as int,
            ));
        }
    }

    /// Encodes this record into the first `RECORD_SIZE` bytes of `dst` and
    /// leaves the bytes behind them as they were.
    pub fn pack_into_slice(&self, dst: &mut [u8])
        requires
            old(dst)@.len() >= RECORD_SIZE,
        ensures
            final(dst)@.len() == old(dst)@.len(),
            final(dst)@ == self.packed() + old(dst)@.subrange(
                RECORD_SIZE as int,
                old(dst)@.len() as int,
            ),
    {
        self.pack_into_slice_at(dst, 0);
        proof {
            assert(dst@ =~= self.packed() + old(dst)@.subrange(
                RECORD_SIZE as int,
                old(dst)@.len() as int,
            ));
        }
    }

    /// The encoding of this record as an array of its own.
    pub fn pack(&self) -> (out: [u8; RECORD_SIZE])
        ensures
            out@ == self.packed(),
    {
        let mut out: [u8; RECORD_SIZE] = [0u8; RECORD_SIZE];
        self.pack_into_slice(&mut out);
        proof {
            assert(out@ =~= self.packed());
        }
        out
    }
}

/// Decoding the encoding of a record gives that record back.
pub proof fn lemma_unpack_of_packed(v: Validator)
    ensures
        v.packed().len() == RECORD_SIZE,
        Validator::unpacked(v.packed()) == Ok::<Validator, DecodeError>(v),
{
    lemma_u64_le_round_trip(v.stake_accounts_balance);
    lemma_u64_le_round_trip(v.unstake_accounts_balance);
    let s = v.packed();
    assert(s.subrange(0, 8) =~= u64_le_bytes(v.stake_accounts_balance));
    assert(s.subrange(8, 16) =~= u64_le_bytes(v.unstake_accounts_balance));
}

/// A span that decodes to a record is the encoding of that record: no two
/// spans stand for the same record.
pub proof fn lemma_packed_of_unpacked(bytes: Seq<u8>)
    requires
        Validator::unpacked(bytes).is_ok(),
    ensures
        Validator::unpacked(bytes).unwrap().packed() == bytes,
{
    lemma_u64_le_bytes_of_value(bytes.subrange(0, 8));
    lemma_u64_le_bytes_of_value(bytes.subrange(8, 16));
    lemma_u64_le_round_trip(Validator::unpacked(bytes).unwrap().stake_accounts_balance);
    lemma_u64_le_round_trip(Validator::unpacked(bytes).unwrap().unstake_accounts_balance);
    assert(Validator::unpacked(bytes).unwrap().packed() =~= bytes);
}

} // verus!
