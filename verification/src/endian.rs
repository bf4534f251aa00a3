//! Big-endian fixed-width integer primitives.
//!
//! The container formats store their fixed-width fields most significant
//! byte first: the archive's index offset and directory ranges, the
//! document's version counter, and the raw bits of a float payload.

use vstd::prelude::*;

use crate::error::{err_at, ErrModel, Error, ErrorKind};

verus! {

/// The value of a big-endian byte sequence.
pub open spec fn be_fold(bytes: Seq<u8>) -> nat
    decreases bytes.len(),
{
    if bytes.len() == 0 {
        0
    } else {
        be_fold(bytes.drop_last()) * 256 + bytes.last() as nat
    }
}

/// The `k`-byte big-endian representation of `n`, most significant first.
pub open spec fn be_bytes(n: nat, k: nat) -> Seq<u8>
    decreases k,
{
    if k == 0 {
        Seq::empty()
    } else {
        be_bytes(n / 256, (k - 1) as nat) + seq![(n % 256) as u8]
    }
}

/// `256^k`, the number of values representable in `k` bytes.
pub open spec fn pow256(k: nat) -> nat
    decreases k,
{
    if k == 0 {
        1
    } else {
        256 * pow256((k - 1) as nat)
    }
}

/// The signed reading of a big-endian 8-byte sequence (two's complement).
pub open spec fn be_fold_signed(bytes: Seq<u8>) -> int {
    if be_fold(bytes) < 0x8000000000000000 {
        be_fold(bytes) as int
    } else {
        be_fold(bytes) - 0x10000000000000000
    }
}

/// The failure reported when the input ends at `len` before a fixed-width
/// field is complete.
pub open spec fn be_err(len: int) -> ErrModel {
    err_at(ErrorKind::TruncatedInput, len)
}

/// A big-endian value folds back from its own representation.
pub proof fn lemma_be_round_trip(n: nat, k: nat)
    requires
        n < pow256(k),
    ensures
        be_bytes(n, k).len() == k,
        be_fold(be_bytes(n, k)) == n,
    decreases k,
{
    if k == 0 {
        assert(be_fold(Seq::<u8>::empty()) == 0);
    } else {
        assert(n / 256 < pow256((k - 1) as nat)) by (nonlinear_arith)
            requires
                n < 256 * pow256((k - 1) as nat),
        ;
        lemma_be_round_trip(n / 256, (k - 1) as nat);
        assert(be_bytes(n, k).drop_last() =~= be_bytes(n / 256, (k - 1) as nat));
        assert(be_bytes(n, k).last() == (n % 256) as u8);
    }
}

/// A big-endian byte sequence folds to a value below `256^len`.
pub proof fn lemma_be_fold_bound(bytes: Seq<u8>)
    ensures
        be_fold(bytes) < pow256(bytes.len()),
    decreases bytes.len(),
{
    if bytes.len() > 0 {
        lemma_be_fold_bound(bytes.drop_last());
    }
}

/// Concrete sizes of the byte widths this crate reads and writes.
pub proof fn lemma_pow256_values()
    ensures
        pow256(4) == 0x100000000,
        pow256(8) == 0x10000000000000000,
{
    reveal_with_fuel(pow256, 9);
}

/// Reads `width` bytes (at most 8) starting at `pos` as a big-endian
/// unsigned value.
fn read_be(input: &[u8], pos: usize, width: usize) -> (r: Result<(u64, usize), Error>)
    requires
        width <= 8,
    ensures
        match r {
            Ok((v, end)) => {
                &&& pos + width <= input@.len()
                &&& end == pos + width
                &&& v == be_fold(input@.subrange(pos as int, end as int))
            },
            Err(e) => {
                &&& pos + width > input@.len()
                &&& e@ == be_err(input@.len() as int)
            },
        },
{
    if input.len() < width || pos > input.len() - width {
        return Err(Error::new(ErrorKind::TruncatedInput, input.len()));
    }
    proof {
        lemma_pow256_values();
    }
    let mut value: u64 = 0;
    let mut i = pos;
    let stop = pos + width;
    while i < stop
        invariant
            stop == pos + width,
            pos <= i <= pos + width <= input@.len(),
            width <= 8,
            value == be_fold(input@.subrange(pos as int, i as int)),
            value < pow256((i - pos) as nat),
            pow256(8) == 0x10000000000000000,
        decreases pos + width - i,
    {
        proof {
            assert(input@.subrange(pos as int, i + 1).drop_last() =~= input@.subrange(
                pos as int,
                i as int,
            ));
            assert(input@.subrange(pos as int, i + 1).last() == input@[i as int]);
            assert(value * 256 + input@[i as int] < pow256((i + 1 - pos) as nat));
            assert(pow256((i + 1 - pos) as nat) <= pow256(8)) by {
                lemma_pow256_increases((i + 1 - pos) as nat, 8);
            }
        }
        value = value * 256 + (input[i] as u64);
        i = i + 1;
    }
    Ok((value, i))
}

proof fn lemma_pow256_increases(j: nat, k: nat)
    requires
        j <= k,
    ensures
        pow256(j) <= pow256(k),
    decreases k,
{
    if j < k {
        lemma_pow256_increases(j, (k - 1) as nat);
        assert(pow256((k - 1) as nat) <= 256 * pow256((k - 1) as nat)) by (nonlinear_arith)
            requires
                pow256((k - 1) as nat) >= 0,
        ;
    }
}

/// Reads the big-endian unsigned 64-bit field at `pos`.
pub fn read_be_u64(input: &[u8], pos: usize) -> (r: Result<(u64, usize), Error>)
    ensures
        match r {
            Ok((v, end)) => {
                &&& pos + 8 <= input@.len()
                &&& end == pos + 8
                &&& v == be_fold(input@.subrange(pos as int, end as int))
            },
            Err(e) => {
                &&& pos + 8 > input@.len()
                &&& e@ == be_err(input@.len() as int)
            },
        },
{
    read_be(input, pos, 8)
}

/// Reads the big-endian unsigned 32-bit field at `pos`.
pub fn read_be_u32(input: &[u8], pos: usize) -> (r: Result<(u32, usize), Error>)
    ensures
        match r {
            Ok((v, end)) => {
                &&& pos + 4 <= input@.len()
                &&& end == pos + 4
                &&& v == be_fold(input@.subrange(pos as int, end as int))
            },
            Err(e) => {
                &&& pos + 4 > input@.len()
                &&& e@ == be_err(input@.len() as int)
            },
        },
{
    match read_be(input, pos, 4) {
        Ok((v, end)) => {
            proof {
                lemma_be_fold_bound(input@.subrange(pos as int, end as int));
                lemma_pow256_values();
            }
            Ok((v as u32, end))
        },
        Err(e) => Err(e),
    }
}

/// Reads the big-endian signed 64-bit field at `pos` (two's complement).
pub fn read_be_i64(input: &[u8], pos: usize) -> (r: Result<(i64, usize), Error>)
    ensures
        match r {
            Ok((v, end)) => {
                &&& pos + 8 <= input@.len()
                &&& end == pos + 8
                &&& v == be_fold_signed(input@.subrange(pos as int, end as int))
            },
            Err(e) => {
                &&& pos + 8 > input@.len()
                &&& e@ == be_err(input@.len() as int)
            },
        },
{
    match read_be_u64(input, pos) {
        Ok((v, end)) => {
            proof {
                if v >= 0x8000000000000000 {
                    assert(v as i64 == v - 0x10000000000000000) by (bit_vector)
                        requires
                            v >= 0x8000000000000000u64,
                    ;
                } else {
                    assert(v as i64 == v) by (bit_vector)
                        requires
                            v < 0x8000000000000000u64,
                    ;
                }
            }
            Ok((v as i64, end))
        },
        Err(e) => Err(e),
    }
}

/// Appends the `width`-byte big-endian representation of `n` to `w`.
pub fn write_be(w: &mut Vec<u8>, n: u64, width: usize)
    ensures
        final(w)@ == old(w)@ + be_bytes(n as nat, width as nat),
{
    let mut tmp: Vec<u8> = Vec::new();
    let mut m: u64 = n;
    let mut j: usize = 0;
    while j < width
        invariant
            tmp@.len() == j <= width,
            be_bytes(n as nat, width as nat) == be_bytes(m as nat, (width - j) as nat)
                + tmp@.reverse(),
        decreases width - j,
    {
        let ghost pre = tmp@;
        tmp.push((m % 256) as u8);
        proof {
            assert(tmp@.reverse() =~= seq![(m % 256) as u8] + pre.reverse());
            assert(be_bytes(m as nat, (width - j) as nat) + pre.reverse() =~= be_bytes(
                m as nat / 256,
                (width - j - 1) as nat,
            ) + tmp@.reverse());
        }
        m = m / 256;
        j = j + 1;
    }
    proof {
        assert(be_bytes(n as nat, width as nat) =~= tmp@.reverse());
    }
    let mut i: usize = tmp.len();
    while i > 0
        invariant
            i <= tmp@.len(),
            be_bytes(n as nat, width as nat) == tmp@.reverse(),
            w@ == old(w)@ + tmp@.reverse().subrange(0, tmp@.len() - i),
        decreases i,
    {
        i = i - 1;
        w.push(tmp[i]);
        proof {
            assert(w@ =~= old(w)@ + tmp@.reverse().subrange(0, tmp@.len() - i));
        }
    }
    proof {
        assert(tmp@.reverse().subrange(0, tmp@.len() as int) =~= tmp@.reverse());
    }
}

} // verus!
