//! Variable-length integer codec.
//!
//! An unsigned varint is a sequence of 7-bit groups, most significant group
//! first.  Every byte but the last carries a set top bit (the continuation
//! marker); the last byte has a clear top bit.  Signed integers go through
//! the zigzag mapping, which keeps small magnitudes compact.

use vstd::prelude::*;

use crate::error::{err_at, framed, ErrModel, Error, ErrorKind, Rule};

verus! {

/// The unsigned varint encoding of `n`: base-128 groups, most significant
/// first, continuation bit set on every byte but the last.
pub open spec fn vlq_enc(n: nat) -> Seq<u8>
    decreases n,
{
    if n < 128 {
        seq![n as u8]
    } else {
        vlq_enc_cont(n / 128) + seq![(n % 128) as u8]
    }
}

/// The leading groups of a varint: the encoding of `n` with the
/// continuation bit set on every byte.
pub open spec fn vlq_enc_cont(n: nat) -> Seq<u8>
    decreases n,
{
    if n < 128 {
        seq![(n + 128) as u8]
    } else {
        vlq_enc_cont(n / 128) + seq![(n % 128 + 128) as u8]
    }
}

/// The value folded from a varint's bytes, most significant group first,
/// with 64-bit wrap-around: `value = (value << 7) | (byte & 0x7f)`.
pub open spec fn vlq_fold64(bytes: Seq<u8>) -> u64
    decreases bytes.len(),
{
    if bytes.len() == 0 {
        0
    } else {
        (vlq_fold64(bytes.drop_last()) << 7) | ((bytes.last() & 0x7f) as u64)
    }
}

/// The length of the varint starting at `pos`: the bytes up to and
/// including the first one with a clear top bit, or `None` when the input
/// ends before such a byte.
pub open spec fn vlq_scan(bytes: Seq<u8>, pos: int) -> Option<int>
    decreases bytes.len() - pos,
{
    if pos < 0 || pos >= bytes.len() {
        None
    } else if bytes[pos] < 128 {
        Some(1)
    } else {
        match vlq_scan(bytes, pos + 1) {
            Some(l) => Some(1 + l),
            None => None,
        }
    }
}

/// The failure reported when the input ends at `len` before the varint
/// entered at `pos` reaches its terminating byte.
pub open spec fn vlq_err(len: int, pos: int) -> ErrModel {
    framed(err_at(ErrorKind::TruncatedInput, len), Rule::Varint, pos)
}

/// The zigzag mapping from signed to unsigned: 0, -1, 1, -2, ... become
/// 0, 1, 2, 3, ...
pub open spec fn zigzag(n: i64) -> u64 {
    if n >= 0 {
        (2 * n) as u64
    } else {
        (-2 * (n as int) - 1) as u64
    }
}

/// The inverse of [`zigzag`].
pub open spec fn unzigzag(u: u64) -> i64 {
    if u % 2 == 0 {
        (u / 2) as i64
    } else {
        (-1 - (u / 2) as int) as i64
    }
}

/// Reads the unsigned varint starting at `pos`.  On success the result
/// holds the decoded value and the position just past the varint; the
/// input ending before a terminating byte is a truncation failure.
pub fn read_vlqu64(input: &[u8], pos: usize) -> (r: Result<(u64, usize), Error>)
    ensures
        match r {
            Ok((value, end)) => {
                &&& vlq_scan(input@, pos as int) == Some(end - pos)
                &&& pos < end <= input@.len()
                &&& value == vlq_fold64(input@.subrange(pos as int, end as int))
            },
            Err(e) => {
                &&& vlq_scan(input@, pos as int) is None
                &&& e@ == vlq_err(input@.len() as int, pos as int)
            },
        },
{
    let len = input.len();
    if pos >= len {
        return Err(Error::new(ErrorKind::TruncatedInput, len).with_frame(Rule::Varint, pos));
    }
    let mut end = pos;
    while end < len && input[end] >= 128
        invariant
            pos <= end <= len,
            len == input@.len(),
            forall|k: int| pos <= k < end ==> input@[k] >= 128,
        decreases len - end,
    {
        end = end + 1;
    }
    if end == len {
        proof {
            lemma_vlq_scan_none(input@, pos as int, end as int);
        }
        return Err(Error::new(ErrorKind::TruncatedInput, len).with_frame(Rule::Varint, pos));
    }
    proof {
        lemma_vlq_scan_found(input@, pos as int, end as int);
    }
    let mut value: u64 = 0;
    let mut i = pos;
    while i <= end
        invariant
            pos <= i <= end + 1,
            end < input@.len(),
            value == vlq_fold64(input@.subrange(pos as int, i as int)),
        decreases end + 1 - i,
    {
        proof {
            assert(input@.subrange(pos as int, i + 1).drop_last() =~= input@.subrange(
                pos as int,
                i as int,
            ));
            assert(input@.subrange(pos as int, i + 1).last() == input@[i as int]);
        }
        value = (value << 7) | ((input[i] & 0x7f) as u64);
        i = i + 1;
    }
    Ok((value, end + 1))
}

/// Reads the zigzag-signed varint starting at `pos`.
pub fn read_vlqi64(input: &[u8], pos: usize) -> (r: Result<(i64, usize), Error>)
    ensures
        match r {
            Ok((value, end)) => {
                &&& vlq_scan(input@, pos as int) == Some(end - pos)
                &&& pos < end <= input@.len()
                &&& value == unzigzag(vlq_fold64(input@.subrange(pos as int, end as int)))
            },
            Err(e) => {
                &&& vlq_scan(input@, pos as int) is None
                &&& e@ == vlq_err(input@.len() as int, pos as int)
            },
        },
{
    let (u, end) = match read_vlqu64(input, pos) {
        Ok(ok) => ok,
        Err(e) => {
            return Err(e);
        },
    };
    Ok((unzigzag_exec(u), end))
}

/// Appends the unsigned varint encoding of `n` to `w`.
pub fn write_vlqu64(w: &mut Vec<u8>, n: u64)
    ensures
        final(w)@ == old(w)@ + vlq_enc(n as nat),
{
    let mut tmp: Vec<u8> = Vec::new();
    tmp.push((n % 128) as u8);
    let mut m: u64 = n / 128;
    while m > 0
        invariant
            tmp@.len() >= 1,
            m == 0 ==> vlq_enc(n as nat) == tmp@.reverse(),
            m > 0 ==> vlq_enc(n as nat) == vlq_enc_cont(m as nat) + tmp@.reverse(),
        decreases m,
    {
        let ghost pre = tmp@;
        tmp.push((m % 128 + 128) as u8);
        proof {
            assert(tmp@.reverse() =~= seq![(m % 128 + 128) as u8] + pre.reverse());
            if m / 128 > 0 {
                assert(vlq_enc_cont(m as nat) + pre.reverse() =~= vlq_enc_cont(m as nat / 128)
                    + tmp@.reverse());
            } else {
                assert(vlq_enc_cont(m as nat) + pre.reverse() =~= tmp@.reverse());
            }
        }
        m = m / 128;
    }
    proof {
        if n < 128 {
            assert(vlq_enc(n as nat) =~= tmp@.reverse());
        }
    }
    let mut i: usize = tmp.len();
    while i > 0
        invariant
            i <= tmp@.len(),
            vlq_enc(n as nat) == tmp@.reverse(),
            w@ == old(w)@ + tmp@.reverse().subrange(0, tmp@.len() - i),
        decreases i,
    {
        i = i - 1;
        w.push(tmp[i]);
        proof {
            assert(w@ =~= old(w)@ + tmp@.reverse().subrange(0, tmp@.len() - i));
        }
    }
    proof {
        assert(tmp@.reverse().subrange(0, tmp@.len() as int) =~= tmp@.reverse());
    }
}

/// Appends the zigzag-signed varint encoding of `n` to `w`.
pub fn write_vlqi64(w: &mut Vec<u8>, n: i64)
    ensures
        final(w)@ == old(w)@ + vlq_enc(zigzag(n) as nat),
{
    write_vlqu64(w, zigzag_exec(n))
}

fn zigzag_exec(n: i64) -> (u: u64)
    ensures
        u == zigzag(n),
{
    if n >= 0 {
        (n as u64) * 2
    } else {
        let m = -(n + 1);
        (m as u64) * 2 + 1
    }
}

fn unzigzag_exec(u: u64) -> (n: i64)
    ensures
        n == unzigzag(u),
{
    if u % 2 == 0 {
        (u / 2) as i64
    } else {
        -1 - ((u / 2) as i64)
    }
}

/// If every byte from `pos` to the end of the input has its top bit set,
/// no varint starts at `pos`.
proof fn lemma_vlq_scan_none(bytes: Seq<u8>, pos: int, len: int)
    requires
        0 <= pos <= len,
        len == bytes.len(),
        forall|k: int| pos <= k < len ==> bytes[k] >= 128,
    ensures
        vlq_scan(bytes, pos) is None,
    decreases len - pos,
{
    if pos < len {
        lemma_vlq_scan_none(bytes, pos + 1, len);
    }
}

/// If the bytes from `pos` to `end` have their top bit set and the byte at
/// `end` has it clear, the varint at `pos` spans exactly through `end`.
proof fn lemma_vlq_scan_found(bytes: Seq<u8>, pos: int, end: int)
    requires
        0 <= pos <= end < bytes.len(),
        forall|k: int| pos <= k < end ==> bytes[k] >= 128,
        bytes[end] < 128,
    ensures
        vlq_scan(bytes, pos) == Some(end + 1 - pos),
    decreases end - pos,
{
    if pos < end {
        lemma_vlq_scan_found(bytes, pos + 1, end);
    }
}

/// Every byte of the continuation part of an encoding has its top bit set.
proof fn lemma_vlq_enc_cont_shape(n: nat)
    ensures
        vlq_enc_cont(n).len() >= 1,
        forall|i: int| 0 <= i < vlq_enc_cont(n).len() ==> #[trigger] vlq_enc_cont(n)[i] >= 128,
    decreases n,
{
    if n >= 128 {
        lemma_vlq_enc_cont_shape(n / 128);
    }
}

/// The shape of an unsigned varint encoding: at least one byte, a clear
/// top bit on the last byte, a set top bit on every other byte.
pub proof fn lemma_vlq_enc_shape(n: nat)
    ensures
        vlq_enc(n).len() >= 1,
        vlq_enc(n).last() < 128,
        forall|i: int| 0 <= i < vlq_enc(n).len() - 1 ==> #[trigger] vlq_enc(n)[i] >= 128,
{
    if n >= 128 {
        lemma_vlq_enc_cont_shape(n / 128);
    }
}

/// Folding the continuation part of an encoding recovers the encoded
/// value, as long as it is small enough not to wrap.
proof fn lemma_vlq_fold_cont(n: nat)
    requires
        n < 0x200000000000000,
    ensures
        vlq_fold64(vlq_enc_cont(n)) == n,
    decreases n,
{
    if n < 128 {
        let x = n as u64;
        let b = (n + 128) as u8;
        assert(vlq_enc_cont(n).drop_last() =~= Seq::<u8>::empty());
        assert(vlq_fold64(Seq::<u8>::empty()) == 0);
        assert(vlq_enc_cont(n).last() == b);
        assert(b == (x + 128) as u8);
        assert(((0u64 << 7) | ((b & 0x7f) as u64)) == x) by (bit_vector)
            requires
                b == (x + 128) as u8 && x < 128,
        ;
    } else {
        lemma_vlq_fold_cont(n / 128);
        let hi = (n / 128) as u64;
        let lo = (n % 128) as u64;
        let b = (n % 128 + 128) as u8;
        assert(vlq_enc_cont(n).drop_last() =~= vlq_enc_cont(n / 128));
        assert(b == (lo + 128) as u8);
        assert(((hi << 7) | ((b & 0x7f) as u64)) == hi * 128 + lo) by (bit_vector)
            requires
                hi < 0x200000000000000 && b == (lo + 128) as u8 && lo < 128,
        ;
        assert(hi * 128 + lo == n);
    }
}

/// Unsigned varint round trip: decoding the encoding of any 64-bit value
/// yields that value, and the encoding has the expected shape.
pub proof fn lemma_vlqu_round_trip(n: u64)
    ensures
        vlq_fold64(vlq_enc(n as nat)) == n,
        vlq_enc(n as nat).len() >= 1,
        vlq_enc(n as nat).last() < 128,
        forall|i: int|
            0 <= i < vlq_enc(n as nat).len() - 1 ==> #[trigger] vlq_enc(n as nat)[i] >= 128,
{
    lemma_vlq_enc_shape(n as nat);
    if n < 128 {
        let b = n as u8;
        assert(vlq_enc(n as nat).drop_last() =~= Seq::<u8>::empty());
        assert(vlq_fold64(Seq::<u8>::empty()) == 0);
        assert(vlq_enc(n as nat).last() == b);
        assert((0u64 << 7) | ((b & 0x7f) as u64) == n) by (bit_vector)
            requires
                b == n && n < 128,
        ;
    } else {
        lemma_vlq_fold_cont(n as nat / 128);
        let hi = n / 128;
        let b = (n % 128) as u8;
        assert(vlq_enc(n as nat).drop_last() =~= vlq_enc_cont(n as nat / 128));
        assert((hi << 7) | ((b & 0x7f) as u64) == n) by (bit_vector)
            requires
                hi == n / 128 && b == (n % 128) as u8,
        ;
    }
}

/// Signed zigzag round trip: decoding the encoding of any signed 64-bit
/// value yields that value.
pub proof fn lemma_zigzag_round_trip(n: i64)
    ensures
        unzigzag(zigzag(n)) == n,
{
}

/// The zigzag mapping is a bijection: encoding the decoding of any
/// unsigned 64-bit value yields that value.
pub proof fn lemma_zigzag_bijective(u: u64)
    ensures
        zigzag(unzigzag(u)) == u,
{
}

/// Signed varint round trip through the byte encoding.
pub proof fn lemma_vlqi_round_trip(n: i64)
    ensures
        unzigzag(vlq_fold64(vlq_enc(zigzag(n) as nat))) == n,
{
    lemma_vlqu_round_trip(zigzag(n));
    lemma_zigzag_round_trip(n);
}

/// A varint encoding embedded in a longer byte sequence scans and folds
/// back to the value it encodes.
pub proof fn lemma_vlq_read_embedded(bytes: Seq<u8>, pos: int, n: u64)
    requires
        0 <= pos,
        pos + vlq_enc(n as nat).len() <= bytes.len(),
        bytes.subrange(pos, pos + vlq_enc(n as nat).len() as int) == vlq_enc(n as nat),
    ensures
        vlq_scan(bytes, pos) == Some(vlq_enc(n as nat).len() as int),
        vlq_fold64(bytes.subrange(pos, pos + vlq_enc(n as nat).len() as int)) == n,
{
    lemma_vlqu_round_trip(n);
    let l = vlq_enc(n as nat).len() as int;
    let end = pos + l - 1;
    assert(forall|k: int|
        pos <= k < end ==> bytes[k] == vlq_enc(n as nat)[k - pos] && bytes[k] >= 128);
    assert(bytes[end] == vlq_enc(n as nat)[l - 1]);
    lemma_vlq_scan_found(bytes, pos, end);
}

} // verus!
