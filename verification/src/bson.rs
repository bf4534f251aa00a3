//! The tagged value parser.
//!
//! A value is one leading tag byte, then a payload: 0x00 and 0x01 are
//! empty, 0x02 a big-endian double, 0x03 a boolean byte, 0x04 a
//! zigzag-signed varint, 0x05 a length-prefixed UTF-8 string, 0x06 a
//! counted sequence of values, 0x07 a counted sequence of string/value
//! pairs.  Any other tag is an unrecoverable failure at that byte.
//!
//! The executable parser is proved equal to a specification-level parser
//! ([`spec_parse_value`]); what that parser accepts and produces is in
//! turn tied to the serialized form by the round-trip lemmas at the end
//! of this module.
//!
//! Nesting is bounded by an explicit depth allowance ([`MAX_DEPTH`]) so
//! that adversarially deep input cannot exhaust the call stack.

use vstd::prelude::*;
use vstd::slice::{slice_subrange, slice_to_vec};
use vstd::utf8::{decode_utf8, encode_utf8, encode_utf8_decode_utf8, valid_utf8};

use crate::endian::{be_fold, read_be_u64};
use crate::error::{err_at, framed, ErrModel, Error, ErrorKind, Rule};
use crate::value::{
    entries_sorted, lemma_obj_insert_sorted, lemma_obj_insert_wf, lemma_view_values,
    lemma_wf_entry_values, lemma_wf_list, obj_insert, view_values, wf_entry_values, wf_list,
    wf_model, ObjectMap, Value, ValueModel,
};
use crate::vlq::{read_vlqi64, read_vlqu64, unzigzag, vlq_enc, vlq_err, vlq_fold64, vlq_scan};

verus! {

/// How many levels of arrays and objects the parser will enter.
pub const MAX_DEPTH: u64 = 512;

// --- the specification-level parser ---

/// The unsigned varint at `pos`, or the truncation failure.
pub open spec fn spec_read_vlqu(bytes: Seq<u8>, pos: int) -> Result<(u64, int), ErrModel> {
    match vlq_scan(bytes, pos) {
        Some(l) => Ok((vlq_fold64(bytes.subrange(pos, pos + l)), pos + l)),
        None => Err(vlq_err(bytes.len() as int, pos)),
    }
}

/// The length-prefixed string at `pos`: an unsigned varint byte count,
/// then that many bytes of UTF-8.
pub open spec fn spec_parse_str(bytes: Seq<u8>, pos: int) -> Result<(Seq<char>, int), ErrModel> {
    match spec_read_vlqu(bytes, pos) {
        Ok((n, body)) => {
            if body + n <= bytes.len() {
                let payload = bytes.subrange(body, body + n);
                if valid_utf8(payload) {
                    Ok((decode_utf8(payload), body + n))
                } else {
                    Err(framed(err_at(ErrorKind::InvalidUtf8, pos), Rule::String, pos))
                }
            } else {
                Err(framed(err_at(ErrorKind::TruncatedInput, bytes.len() as int), Rule::String, pos))
            }
        },
        Err(e) => Err(framed(e, Rule::String, pos)),
    }
}

/// The tagged value at `pos`.  `depth` is the remaining nesting
/// allowance for arrays and objects.
pub open spec fn spec_parse_value(bytes: Seq<u8>, pos: int, depth: nat) -> Result<
    (ValueModel, int),
    ErrModel,
>
    decreases depth, 0nat, 0nat,
{
    if pos < 0 || pos >= bytes.len() {
        Err(framed(err_at(ErrorKind::TruncatedInput, bytes.len() as int), Rule::Value, pos))
    } else {
        let tag = bytes[pos];
        if tag == 0 || tag == 1 {
            Ok((ValueModel::Empty, pos + 1))
        } else if tag == 2 {
            if pos + 9 <= bytes.len() {
                Ok((ValueModel::Float(be_fold(bytes.subrange(pos + 1, pos + 9)) as u64), pos + 9))
            } else {
                Err(framed(
                    framed(err_at(ErrorKind::TruncatedInput, bytes.len() as int), Rule::Float, pos + 1),
                    Rule::Value,
                    pos,
                ))
            }
        } else if tag == 3 {
            if pos + 2 <= bytes.len() {
                Ok((ValueModel::Boolean(bytes[pos + 1] != 0), pos + 2))
            } else {
                Err(framed(
                    framed(
                        err_at(ErrorKind::TruncatedInput, bytes.len() as int),
                        Rule::Boolean,
                        pos + 1,
                    ),
                    Rule::Value,
                    pos,
                ))
            }
        } else if tag == 4 {
            match spec_read_vlqu(bytes, pos + 1) {
                Ok((u, end)) => Ok((ValueModel::Integer(unzigzag(u)), end)),
                Err(e) => Err(framed(framed(e, Rule::Integer, pos + 1), Rule::Value, pos)),
            }
        } else if tag == 5 {
            match spec_parse_str(bytes, pos + 1) {
                Ok((s, end)) => Ok((ValueModel::String(s), end)),
                Err(e) => Err(framed(e, Rule::Value, pos)),
            }
        } else if tag == 6 {
            if depth == 0 {
                Err(framed(err_at(ErrorKind::DepthLimit, pos), Rule::Value, pos))
            } else {
                match spec_parse_array(bytes, pos + 1, (depth - 1) as nat) {
                    Ok((items, end)) => Ok((ValueModel::Array(items), end)),
                    Err(e) => Err(framed(e, Rule::Value, pos)),
                }
            }
        } else if tag == 7 {
            if depth == 0 {
                Err(framed(err_at(ErrorKind::DepthLimit, pos), Rule::Value, pos))
            } else {
                match spec_parse_object(bytes, pos + 1, (depth - 1) as nat) {
                    Ok((entries, end)) => Ok((ValueModel::Object(entries), end)),
                    Err(e) => Err(framed(e, Rule::Value, pos)),
                }
            }
        } else {
            Err(framed(err_at(ErrorKind::InvalidTag, pos), Rule::Value, pos))
        }
    }
}

/// The array payload at `pos`: an unsigned varint count, then that many
/// values in order.
pub open spec fn spec_parse_array(bytes: Seq<u8>, pos: int, depth: nat) -> Result<
    (Seq<ValueModel>, int),
    ErrModel,
>
    decreases depth, 2nat, 0nat,
{
    match spec_read_vlqu(bytes, pos) {
        Ok((n, body)) => match spec_parse_elems(bytes, body, n as nat, depth, Seq::empty()) {
            Ok(ok) => Ok(ok),
            Err(e) => Err(framed(e, Rule::Array, pos)),
        },
        Err(e) => Err(framed(e, Rule::Array, pos)),
    }
}

/// The object payload at `pos`: an unsigned varint count, then that many
/// key/value pairs, collected into a sorted entry sequence where a later
/// duplicate key overwrites an earlier one.
pub open spec fn spec_parse_object(bytes: Seq<u8>, pos: int, depth: nat) -> Result<
    (Seq<(Seq<char>, ValueModel)>, int),
    ErrModel,
>
    decreases depth, 2nat, 0nat,
{
    match spec_read_vlqu(bytes, pos) {
        Ok((n, body)) => match spec_parse_entries(bytes, body, n as nat, depth, Seq::empty()) {
            Ok(ok) => Ok(ok),
            Err(e) => Err(framed(e, Rule::Object, pos)),
        },
        Err(e) => Err(framed(e, Rule::Object, pos)),
    }
}

/// `count` values starting at `pos`, appended to `acc` in order.
pub open spec fn spec_parse_elems(
    bytes: Seq<u8>,
    pos: int,
    count: nat,
    depth: nat,
    acc: Seq<ValueModel>,
) -> Result<(Seq<ValueModel>, int), ErrModel>
    decreases depth, 1nat, count,
{
    if count == 0 {
        Ok((acc, pos))
    } else {
        match spec_parse_value(bytes, pos, depth) {
            Ok((v, end)) => spec_parse_elems(bytes, end, (count - 1) as nat, depth, acc.push(v)),
            Err(e) => Err(e),
        }
    }
}

/// `count` key/value pairs starting at `pos`, folded into `acc` with
/// [`obj_insert`], so a later duplicate key wins.
pub open spec fn spec_parse_entries(
    bytes: Seq<u8>,
    pos: int,
    count: nat,
    depth: nat,
    acc: Seq<(Seq<char>, ValueModel)>,
) -> Result<(Seq<(Seq<char>, ValueModel)>, int), ErrModel>
    decreases depth, 1nat, count,
{
    if count == 0 {
        Ok((acc, pos))
    } else {
        match spec_parse_str(bytes, pos) {
            Ok((k, vpos)) => match spec_parse_value(bytes, vpos, depth) {
                Ok((v, end)) => spec_parse_entries(
                    bytes,
                    end,
                    (count - 1) as nat,
                    depth,
                    obj_insert(acc, k, v),
                ),
                Err(e) => Err(e),
            },
            Err(e) => Err(e),
        }
    }
}

/// The optional version field: one presence byte, then a big-endian
/// 32-bit value if the presence byte is nonzero.
pub open spec fn spec_parse_maybe_u32(bytes: Seq<u8>, pos: int) -> Result<
    (Option<u32>, int),
    ErrModel,
> {
    if pos < 0 || pos >= bytes.len() {
        Err(framed(err_at(ErrorKind::TruncatedInput, bytes.len() as int), Rule::Version, pos))
    } else if bytes[pos] == 0 {
        Ok((None, pos + 1))
    } else if pos + 5 <= bytes.len() {
        Ok((Some(be_fold(bytes.subrange(pos + 1, pos + 5)) as u32), pos + 5))
    } else {
        Err(framed(err_at(ErrorKind::TruncatedInput, bytes.len() as int), Rule::Version, pos))
    }
}

// --- executable parser ---

/// Relies on `String::from_utf8`: it succeeds exactly on valid UTF-8 and
/// returns the string whose UTF-8 encoding is the given bytes.
#[verifier::external_body]
fn bytes_to_string(bytes: Vec<u8>) -> (r: Option<String>)
    ensures
        r is Some <==> valid_utf8(bytes@),
        r matches Some(s) ==> encode_utf8(s@) == bytes@,
{
    match String::from_utf8(bytes) {
        Ok(s) => Some(s),
        Err(_) => None,
    }
}

/// Parses the length-prefixed string at `pos`.
pub fn parse_str(input: &[u8], pos: usize) -> (r: Result<(String, usize), Error>)
    ensures
        match r {
            Ok((s, end)) => {
                &&& spec_parse_str(input@, pos as int) == Ok::<_, ErrModel>((s@, end as int))
                &&& pos <= end <= input@.len()
            },
            Err(e) => spec_parse_str(input@, pos as int) == Err::<(Seq<char>, int), _>(e@),
        },
{
    let (n, body) = match read_vlqu64(input, pos) {
        Ok(ok) => ok,
        Err(e) => {
            return Err(e.with_frame(Rule::String, pos));
        },
    };
    if n > (input.len() - body) as u64 {
        return Err(
            Error::new(ErrorKind::TruncatedInput, input.len()).with_frame(Rule::String, pos),
        );
    }
    let len = n as usize;
    let payload = slice_subrange(input, body, body + len);
    let bytes = slice_to_vec(payload);
    match bytes_to_string(bytes) {
        Some(s) => {
            proof {
                encode_utf8_decode_utf8(s@);
            }
            Ok((s, body + len))
        },
        None => Err(Error::new(ErrorKind::InvalidUtf8, pos).with_frame(Rule::String, pos)),
    }
}

/// Parses the optional version field at `pos`: a presence byte, then a
/// big-endian 32-bit value if present.
pub fn parse_maybe_u32(input: &[u8], pos: usize) -> (r: Result<(Option<u32>, usize), Error>)
    ensures
        match r {
            Ok((v, end)) => {
                &&& spec_parse_maybe_u32(input@, pos as int) == Ok::<_, ErrModel>((v, end as int))
                &&& pos < end <= input@.len()
            },
            Err(e) => spec_parse_maybe_u32(input@, pos as int) == Err::<(Option<u32>, int), _>(e@),
        },
{
    if pos >= input.len() {
        return Err(
            Error::new(ErrorKind::TruncatedInput, input.len()).with_frame(Rule::Version, pos),
        );
    }
    if input[pos] == 0 {
        return Ok((None, pos + 1));
    }
    match crate::endian::read_be_u32(input, pos + 1) {
        Ok((v, end)) => Ok((Some(v), end)),
        Err(_) => Err(
            Error::new(ErrorKind::TruncatedInput, input.len()).with_frame(Rule::Version, pos),
        ),
    }
}

/// Parses the array payload at `pos`: a varint count, then that many
/// values.
fn parse_array_payload(input: &[u8], pos: usize, depth: u64) -> (r: Result<
    (Vec<Value>, usize),
    Error,
>)
    ensures
        match r {
            Ok((items, end)) => {
                &&& spec_parse_array(input@, pos as int, depth as nat) == Ok::<_, ErrModel>(
                    (view_values(items@), end as int),
                )
                &&& wf_list(view_values(items@))
                &&& pos <= end <= input@.len()
            },
            Err(e) => spec_parse_array(input@, pos as int, depth as nat) == Err::<
                (Seq<ValueModel>, int),
                _,
            >(e@),
        },
    decreases depth, 1nat,
{
    let (n, body) = match read_vlqu64(input, pos) {
        Ok(ok) => ok,
        Err(e) => {
            proof {
                assert(spec_parse_array(input@, pos as int, depth as nat) == Err::<
                    (Seq<ValueModel>, int),
                    _,
                >(framed(e@, Rule::Array, pos as int)));
            }
            return Err(e.with_frame(Rule::Array, pos));
        },
    };
    let ghost d = depth as nat;
    proof {
        assert(spec_read_vlqu(input@, pos as int) == Ok::<_, ErrModel>((n, body as int)));
    }
    let mut items: Vec<Value> = Vec::new();
    let mut p = body;
    let mut k: u64 = 0;
    proof {
        assert(view_values(items@) =~= Seq::<ValueModel>::empty());
        assert(wf_list(view_values(items@)));
    }
    while k < n
        invariant
            0 <= k <= n,
            body <= p <= input@.len(),
            d == depth as nat,
            spec_read_vlqu(input@, pos as int) == Ok::<_, ErrModel>((n, body as int)),
            wf_list(view_values(items@)),
            spec_parse_elems(input@, body as int, n as nat, d, Seq::empty()) == spec_parse_elems(
                input@,
                p as int,
                (n - k) as nat,
                d,
                view_values(items@),
            ),
        decreases n - k,
    {
        let ghost acc = view_values(items@);
        let (v, end) = match parse_value(input, p, depth) {
            Ok(ok) => ok,
            Err(e) => {
                proof {
                    assert(spec_parse_elems(input@, p as int, (n - k) as nat, d, acc)
                        == Err::<(Seq<ValueModel>, int), _>(e@));
                    assert(spec_parse_array(input@, pos as int, d) == Err::<
                        (Seq<ValueModel>, int),
                        _,
                    >(framed(e@, Rule::Array, pos as int)));
                }
                return Err(e.with_frame(Rule::Array, pos));
            },
        };
        proof {
            assert(spec_parse_elems(input@, p as int, (n - k) as nat, d, acc) == spec_parse_elems(
                input@,
                end as int,
                (n - k - 1) as nat,
                d,
                acc.push(v@),
            ));
        }
        let ghost pre = items@;
        items.push(v);
        proof {
            assert(items@.drop_last() =~= pre);
            assert(view_values(items@) == view_values(items@.drop_last()).push(items@.last()@));
            assert(view_values(items@) == acc.push(v@));
            assert(acc.push(v@).drop_last() =~= acc);
            assert(acc.push(v@).last() == v@);
            assert(wf_list(acc.push(v@)));
        }
        p = end;
        k = k + 1;
    }
    proof {
        assert(spec_parse_elems(input@, p as int, 0, d, view_values(items@)) == Ok::<
            _,
            ErrModel,
        >((view_values(items@), p as int)));
        assert(spec_parse_array(input@, pos as int, d) == Ok::<_, ErrModel>(
            (view_values(items@), p as int),
        ));
    }
    Ok((items, p))
}

/// Parses the object payload at `pos`: a varint count, then that many
/// key/value pairs; a later duplicate key overwrites an earlier one.
fn parse_object_payload(input: &[u8], pos: usize, depth: u64) -> (r: Result<
    (ObjectMap, usize),
    Error,
>)
    ensures
        match r {
            Ok((map, end)) => {
                &&& spec_parse_object(input@, pos as int, depth as nat) == Ok::<_, ErrModel>(
                    (map@, end as int),
                )
                &&& entries_sorted(map@)
                &&& wf_entry_values(map@)
                &&& pos <= end <= input@.len()
            },
            Err(e) => spec_parse_object(input@, pos as int, depth as nat) == Err::<
                (Seq<(Seq<char>, ValueModel)>, int),
                _,
            >(e@),
        },
    decreases depth, 1nat,
{
    let (n, body) = match read_vlqu64(input, pos) {
        Ok(ok) => ok,
        Err(e) => {
            proof {
                assert(spec_parse_object(input@, pos as int, depth as nat) == Err::<
                    (Seq<(Seq<char>, ValueModel)>, int),
                    _,
                >(framed(e@, Rule::Object, pos as int)));
            }
            return Err(e.with_frame(Rule::Object, pos));
        },
    };
    let ghost d = depth as nat;
    proof {
        assert(spec_read_vlqu(input@, pos as int) == Ok::<_, ErrModel>((n, body as int)));
    }
    let mut map = ObjectMap::new();
    let mut p = body;
    let mut k: u64 = 0;
    proof {
        assert(wf_entry_values(map@));
    }
    while k < n
        invariant
            0 <= k <= n,
            body <= p <= input@.len(),
            d == depth as nat,
            spec_read_vlqu(input@, pos as int) == Ok::<_, ErrModel>((n, body as int)),
            map.wf(),
            wf_entry_values(map@),
            spec_parse_entries(input@, body as int, n as nat, d, Seq::empty())
                == spec_parse_entries(input@, p as int, (n - k) as nat, d, map@),
        decreases n - k,
    {
        let ghost acc = map@;
        let (key, vpos) = match parse_str(input, p) {
            Ok(ok) => ok,
            Err(e) => {
                proof {
                    assert(spec_parse_entries(input@, p as int, (n - k) as nat, d, acc)
                        == Err::<(Seq<(Seq<char>, ValueModel)>, int), _>(e@));
                    assert(spec_parse_object(input@, pos as int, d) == Err::<
                        (Seq<(Seq<char>, ValueModel)>, int),
                        _,
                    >(framed(e@, Rule::Object, pos as int)));
                }
                return Err(e.with_frame(Rule::Object, pos));
            },
        };
        let (v, end) = match parse_value(input, vpos, depth) {
            Ok(ok) => ok,
            Err(e) => {
                proof {
                    assert(spec_parse_entries(input@, p as int, (n - k) as nat, d, acc)
                        == Err::<(Seq<(Seq<char>, ValueModel)>, int), _>(e@));
                    assert(spec_parse_object(input@, pos as int, d) == Err::<
                        (Seq<(Seq<char>, ValueModel)>, int),
                        _,
                    >(framed(e@, Rule::Object, pos as int)));
                }
                return Err(e.with_frame(Rule::Object, pos));
            },
        };
        proof {
            assert(spec_parse_entries(input@, p as int, (n - k) as nat, d, acc)
                == spec_parse_entries(
                input@,
                end as int,
                (n - k - 1) as nat,
                d,
                obj_insert(acc, key@, v@),
            ));
            lemma_obj_insert_wf(acc, key@, v@);
        }
        map.insert(key, v);
        p = end;
        k = k + 1;
    }
    proof {
        assert(spec_parse_entries(input@, p as int, 0, d, map@) == Ok::<_, ErrModel>(
            (map@, p as int),
        ));
        assert(spec_parse_object(input@, pos as int, d) == Ok::<_, ErrModel>((map@, p as int)));
    }
    Ok((map, p))
}

/// Parses the tagged value at `pos` with a remaining nesting allowance of
/// `depth`.
fn parse_value(input: &[u8], pos: usize, depth: u64) -> (r: Result<(Value, usize), Error>)
    ensures
        match r {
            Ok((v, end)) => {
                &&& spec_parse_value(input@, pos as int, depth as nat) == Ok::<_, ErrModel>(
                    (v@, end as int),
                )
                &&& wf_model(v@)
                &&& pos < end <= input@.len()
            },
            Err(e) => spec_parse_value(input@, pos as int, depth as nat) == Err::<
                (ValueModel, int),
                _,
            >(e@),
        },
    decreases depth, 0nat,
{
    if pos >= input.len() {
        return Err(
            Error::new(ErrorKind::TruncatedInput, input.len()).with_frame(Rule::Value, pos),
        );
    }
    let tag = input[pos];
    if tag == 0 || tag == 1 {
        Ok((Value::Empty, pos + 1))
    } else if tag == 2 {
        match read_be_u64(input, pos + 1) {
            Ok((bits, end)) => Ok((Value::Float(bits), end)),
            Err(e) => Err(e.with_frame(Rule::Float, pos + 1).with_frame(Rule::Value, pos)),
        }
    } else if tag == 3 {
        if input.len() - pos >= 2 {
            let b = input[pos + 1] != 0;
            Ok((Value::Boolean(b), pos + 2))
        } else {
            Err(
                Error::new(ErrorKind::TruncatedInput, input.len()).with_frame(
                    Rule::Boolean,
                    pos + 1,
                ).with_frame(Rule::Value, pos),
            )
        }
    } else if tag == 4 {
        match read_vlqi64(input, pos + 1) {
            Ok((v, end)) => Ok((Value::Integer(v), end)),
            Err(e) => Err(e.with_frame(Rule::Integer, pos + 1).with_frame(Rule::Value, pos)),
        }
    } else if tag == 5 {
        match parse_str(input, pos + 1) {
            Ok((s, end)) => {
                proof {
                    assert(spec_parse_str(input@, pos + 1) is Ok);
                }
                Ok((Value::String(s), end))
            },
            Err(e) => Err(e.with_frame(Rule::Value, pos)),
        }
    } else if tag == 6 {
        if depth == 0 {
            return Err(Error::new(ErrorKind::DepthLimit, pos).with_frame(Rule::Value, pos));
        }
        match parse_array_payload(input, pos + 1, depth - 1) {
            Ok((items, end)) => Ok((Value::Array(items), end)),
            Err(e) => Err(e.with_frame(Rule::Value, pos)),
        }
    } else if tag == 7 {
        if depth == 0 {
            return Err(Error::new(ErrorKind::DepthLimit, pos).with_frame(Rule::Value, pos));
        }
        match parse_object_payload(input, pos + 1, depth - 1) {
            Ok((map, end)) => Ok((Value::Object(map), end)),
            Err(e) => Err(e.with_frame(Rule::Value, pos)),
        }
    } else {
        Err(Error::new(ErrorKind::InvalidTag, pos).with_frame(Rule::Value, pos))
    }
}

/// Parses the tagged value at `pos`, with the full nesting allowance.
pub fn parse_bson(input: &[u8], pos: usize) -> (r: Result<(Value, usize), Error>)
    ensures
        match r {
            Ok((v, end)) => {
                &&& spec_parse_value(input@, pos as int, MAX_DEPTH as nat) == Ok::<_, ErrModel>(
                    (v@, end as int),
                )
                &&& wf_model(v@)
                &&& pos < end <= input@.len()
            },
            Err(e) => spec_parse_value(input@, pos as int, MAX_DEPTH as nat) == Err::<
                (ValueModel, int),
                _,
            >(e@),
        },
{
    parse_value(input, pos, MAX_DEPTH)
}

/// Parses a bare object payload (count and pairs, no leading tag byte) at
/// `pos` and returns it as a [`Value::Object`].
pub fn parse_object(input: &[u8], pos: usize) -> (r: Result<(Value, usize), Error>)
    ensures
        match r {
            Ok((v, end)) => {
                &&& v@ is Object
                &&& spec_parse_object(input@, pos as int, MAX_DEPTH as nat) == Ok::<_, ErrModel>(
                    (v@->Object_0, end as int),
                )
                &&& wf_model(v@)
                &&& pos <= end <= input@.len()
            },
            Err(e) => spec_parse_object(input@, pos as int, MAX_DEPTH as nat) == Err::<
                (Seq<(Seq<char>, ValueModel)>, int),
                _,
            >(e@),
        },
{
    match parse_object_payload(input, pos, MAX_DEPTH) {
        Ok((map, end)) => Ok((Value::Object(map), end)),
        Err(e) => Err(e),
    }
}

// --- round trip: parsing a serialized value yields the value back ---

/// A match against a concatenation splits into matches against the
/// parts.
pub(crate) proof fn lemma_split_match(bytes: Seq<u8>, pos: int, a: Seq<u8>, b: Seq<u8>)
    requires
        0 <= pos,
        pos + a.len() + b.len() <= bytes.len(),
        bytes.subrange(pos, pos + a.len() + b.len()) == a + b,
    ensures
        bytes.subrange(pos, pos + a.len() as int) == a,
        bytes.subrange(pos + a.len(), pos + a.len() + b.len()) == b,
{
    assert forall|i: int| 0 <= i < a.len() implies bytes.subrange(pos, pos + a.len() as int)[i]
        == a[i] by {
        assert(bytes.subrange(pos, pos + a.len() + b.len())[i] == (a + b)[i]);
    }
    assert(bytes.subrange(pos, pos + a.len() as int) =~= a);
    assert forall|i: int|
        0 <= i < b.len() implies bytes.subrange(pos + a.len(), pos + a.len() + b.len())[i]
        == b[i] by {
        assert(bytes.subrange(pos + a.len(), pos + a.len() + b.len())[i] == bytes[pos + a.len()
            + i]);
        assert(bytes.subrange(pos, pos + a.len() + b.len())[a.len() + i] == bytes[pos + a.len()
            + i]);
        assert((a + b)[a.len() + i] == b[i]);
    }
    assert(bytes.subrange(pos + a.len(), pos + a.len() + b.len()) =~= b);
}

/// Parsing a serialized string yields the string back.
pub(crate) proof fn lemma_parse_str_encoding(bytes: Seq<u8>, pos: int, s: Seq<char>)
    requires
        encode_utf8(s).len() < 0x10000000000000000,
        0 <= pos,
        pos + crate::value::str_encoding(s).len() <= bytes.len(),
        bytes.subrange(pos, pos + crate::value::str_encoding(s).len()) == crate::value::str_encoding(
            s,
        ),
    ensures
        spec_parse_str(bytes, pos) == Ok::<_, ErrModel>(
            (s, pos + crate::value::str_encoding(s).len()),
        ),
{
    let blen = encode_utf8(s).len();
    let u = blen as u64;
    assert(vlq_enc(u as nat) == vlq_enc(blen));
    lemma_split_match(bytes, pos, vlq_enc(blen), encode_utf8(s));
    crate::vlq::lemma_vlq_read_embedded(bytes, pos, u);
    let l = vlq_enc(blen).len() as int;
    let body = pos + l;
    assert(spec_read_vlqu(bytes, pos) == Ok::<_, ErrModel>((u, body)));
    assert(bytes.subrange(body, body + u) == encode_utf8(s));
    vstd::utf8::encode_utf8_valid_utf8(s);
    encode_utf8_decode_utf8(s);
}

/// Parsing a serialized value yields the value back: the embedded form
/// of the round-trip law.
pub proof fn lemma_parse_value_encoding(bytes: Seq<u8>, pos: int, m: ValueModel, depth: nat)
    requires
        wf_model(m),
        crate::value::model_fits(m),
        crate::value::model_depth(m) <= depth,
        0 <= pos,
        pos + crate::value::encoding(m).len() <= bytes.len(),
        bytes.subrange(pos, pos + crate::value::encoding(m).len()) == crate::value::encoding(m),
    ensures
        spec_parse_value(bytes, pos, depth) == Ok::<_, ErrModel>(
            (m, pos + crate::value::encoding(m).len()),
        ),
    decreases m,
{
    let enc = crate::value::encoding(m);
    let el = enc.len() as int;
    assert(bytes[pos] == enc[0]);
    match m {
        ValueModel::Empty => {
            assert(enc =~= seq![1u8]);
        },
        ValueModel::Float(bits) => {
            crate::endian::lemma_pow256_values();
            crate::endian::lemma_be_round_trip(bits as nat, 8);
            lemma_split_match(bytes, pos, seq![2u8], crate::endian::be_bytes(bits as nat, 8));
            assert(bytes.subrange(pos + 1, pos + 9) == crate::endian::be_bytes(bits as nat, 8));
            assert(crate::endian::be_fold(bytes.subrange(pos + 1, pos + 9)) == bits as nat);
        },
        ValueModel::Boolean(b) => {
            assert(enc.len() == 2);
            assert(bytes[pos + 1] == enc[1]);
            assert(spec_parse_value(bytes, pos, depth) == Ok::<_, ErrModel>(
                (ValueModel::Boolean(bytes[pos + 1] != 0), pos + 2),
            ));
        },
        ValueModel::Integer(n) => {
            let z = crate::vlq::zigzag(n);
            lemma_split_match(bytes, pos, seq![4u8], vlq_enc(z as nat));
            crate::vlq::lemma_vlq_read_embedded(bytes, pos + 1, z);
            crate::vlq::lemma_zigzag_round_trip(n);
            let l = vlq_enc(z as nat).len() as int;
            assert(spec_read_vlqu(bytes, pos + 1) == Ok::<_, ErrModel>((z, pos + 1 + l)));
        },
        ValueModel::String(s) => {
            lemma_split_match(bytes, pos, seq![5u8], crate::value::str_encoding(s));
            lemma_parse_str_encoding(bytes, pos + 1, s);
        },
        ValueModel::Array(items) => {
            let cnt = items.len();
            let c = cnt as u64;
            let body_enc = crate::value::encoding_list(items);
            assert(enc =~= (seq![6u8] + vlq_enc(cnt)) + body_enc);
            lemma_split_match(bytes, pos, seq![6u8] + vlq_enc(cnt), body_enc);
            lemma_split_match(bytes, pos, seq![6u8], vlq_enc(cnt));
            assert(vlq_enc(c as nat) == vlq_enc(cnt));
            crate::vlq::lemma_vlq_read_embedded(bytes, pos + 1, c);
            let l = vlq_enc(cnt).len() as int;
            let body = pos + 1 + l;
            assert(spec_read_vlqu(bytes, pos + 1) == Ok::<_, ErrModel>((c, body)));
            crate::value::lemma_depth_list(items);
            lemma_parse_elems_encoding(bytes, body, items, (depth - 1) as nat, Seq::empty());
            assert(Seq::empty() + items =~= items);
            assert(spec_parse_array(bytes, pos + 1, (depth - 1) as nat) == Ok::<_, ErrModel>(
                (items, body + body_enc.len()),
            ));
            assert(body + body_enc.len() == pos + el);
        },
        ValueModel::Object(entries) => {
            let cnt = entries.len();
            let c = cnt as u64;
            let body_enc = crate::value::encoding_entries(entries);
            assert(enc =~= (seq![7u8] + vlq_enc(cnt)) + body_enc);
            lemma_split_match(bytes, pos, seq![7u8] + vlq_enc(cnt), body_enc);
            lemma_split_match(bytes, pos, seq![7u8], vlq_enc(cnt));
            assert(vlq_enc(c as nat) == vlq_enc(cnt));
            crate::vlq::lemma_vlq_read_embedded(bytes, pos + 1, c);
            let l = vlq_enc(cnt).len() as int;
            let body = pos + 1 + l;
            assert(spec_read_vlqu(bytes, pos + 1) == Ok::<_, ErrModel>((c, body)));
            crate::value::lemma_depth_entries(entries);
            assert(Seq::empty() + entries =~= entries);
            lemma_parse_entries_encoding(bytes, body, entries, (depth - 1) as nat, Seq::empty());
            assert(spec_parse_object(bytes, pos + 1, (depth - 1) as nat) == Ok::<_, ErrModel>(
                (entries, body + body_enc.len()),
            ));
            assert(body + body_enc.len() == pos + el);
        },
    }
}

/// Parsing the serialized elements of a list, one after another,
/// appends them to the accumulator in order.
proof fn lemma_parse_elems_encoding(
    bytes: Seq<u8>,
    pos: int,
    items: Seq<ValueModel>,
    depth: nat,
    acc: Seq<ValueModel>,
)
    requires
        wf_list(items),
        crate::value::fits_list(items),
        crate::value::depth_list(items) <= depth,
        0 <= pos,
        pos + crate::value::encoding_list(items).len() <= bytes.len(),
        bytes.subrange(pos, pos + crate::value::encoding_list(items).len())
            == crate::value::encoding_list(items),
    ensures
        spec_parse_elems(bytes, pos, items.len(), depth, acc) == Ok::<_, ErrModel>(
            (acc + items, pos + crate::value::encoding_list(items).len()),
        ),
    decreases items,
{
    if items.len() == 0 {
        assert(acc + items =~= acc);
        assert(crate::value::encoding_list(items).len() == 0);
    } else {
        let head = items[0];
        let rest = items.drop_first();
        let e0 = crate::value::encoding(head);
        let er = crate::value::encoding_list(rest);
        assert(crate::value::encoding_list(items) == e0 + er);
        lemma_split_match(bytes, pos, e0, er);
        crate::value::lemma_wf_list(items);
        crate::value::lemma_fits_list(items);
        crate::value::lemma_depth_list(items);
        lemma_parse_value_encoding(bytes, pos, head, depth);
        let mid = pos + e0.len();
        assert forall|i: int| 0 <= i < rest.len() implies wf_model(#[trigger] rest[i]) by {
            assert(rest[i] == items[i + 1]);
        }
        assert forall|i: int| 0 <= i < rest.len() implies crate::value::model_fits(
            #[trigger] rest[i],
        ) by {
            assert(rest[i] == items[i + 1]);
        }
        assert forall|i: int|
            0 <= i < rest.len() implies crate::value::model_depth(#[trigger] rest[i])
            <= depth by {
            assert(rest[i] == items[i + 1]);
        }
        crate::value::lemma_wf_list(rest);
        crate::value::lemma_fits_list(rest);
        crate::value::lemma_depth_list_bound(rest, depth);
        lemma_parse_elems_encoding(bytes, mid, rest, depth, acc.push(head));
        assert(acc.push(head) + rest =~= acc + items);
        assert(rest.len() == items.len() - 1);
    }
}

/// Parsing the serialized entries of a sorted object, one after another,
/// appends them to the accumulator in order.
proof fn lemma_parse_entries_encoding(
    bytes: Seq<u8>,
    pos: int,
    entries: Seq<(Seq<char>, ValueModel)>,
    depth: nat,
    acc: Seq<(Seq<char>, ValueModel)>,
)
    requires
        entries_sorted(acc + entries),
        wf_entry_values(entries),
        crate::value::fits_entries(entries),
        crate::value::depth_entries(entries) <= depth,
        0 <= pos,
        pos + crate::value::encoding_entries(entries).len() <= bytes.len(),
        bytes.subrange(pos, pos + crate::value::encoding_entries(entries).len())
            == crate::value::encoding_entries(entries),
    ensures
        spec_parse_entries(bytes, pos, entries.len(), depth, acc) == Ok::<_, ErrModel>(
            (acc + entries, pos + crate::value::encoding_entries(entries).len()),
        ),
    decreases entries,
{
    if entries.len() == 0 {
        assert(acc + entries =~= acc);
        assert(crate::value::encoding_entries(entries).len() == 0);
    } else {
        let (k0, v0) = entries[0];
        let rest = entries.drop_first();
        let ks = crate::value::str_encoding(k0);
        let e0 = crate::value::encoding(v0);
        let er = crate::value::encoding_entries(rest);
        assert(crate::value::encoding_entries(entries) == ks + e0 + er);
        assert(crate::value::encoding_entries(entries) =~= (ks + e0) + er);
        lemma_split_match(bytes, pos, ks + e0, er);
        lemma_split_match(bytes, pos, ks, e0);
        crate::value::lemma_wf_entry_values(entries);
        crate::value::lemma_fits_entries(entries);
        crate::value::lemma_depth_entries(entries);
        lemma_parse_str_encoding(bytes, pos, k0);
        let vpos = pos + ks.len();
        lemma_parse_value_encoding(bytes, vpos, v0, depth);
        let mid = vpos + e0.len();
        // the inserted key is greater than every accumulated key, so the
        // insertion is an append
        assert forall|i: int| 0 <= i < acc.len() implies crate::order::key_lt(
            #[trigger] acc[i].0,
            k0,
        ) by {
            assert((acc + entries)[i] == acc[i]);
            assert((acc + entries)[acc.len() as int] == entries[0]);
        }
        crate::value::lemma_obj_insert_append(acc, k0, v0);
        assert(acc.push((k0, v0)) == crate::value::obj_insert(acc, k0, v0));
        assert forall|i: int| 0 <= i < rest.len() implies wf_model(#[trigger] rest[i].1) by {
            assert(rest[i] == entries[i + 1]);
        }
        assert forall|i: int|
            0 <= i < rest.len() implies (encode_utf8(#[trigger] rest[i].0).len()
            < 0x10000000000000000 && crate::value::model_fits(rest[i].1)) by {
            assert(rest[i] == entries[i + 1]);
        }
        assert forall|i: int|
            0 <= i < rest.len() implies crate::value::model_depth(#[trigger] rest[i].1)
            <= depth by {
            assert(rest[i] == entries[i + 1]);
        }
        crate::value::lemma_wf_entry_values(rest);
        crate::value::lemma_fits_entries(rest);
        crate::value::lemma_depth_entries_bound(rest, depth);
        assert(acc.push((k0, v0)) + rest =~= acc + entries);
        lemma_parse_entries_encoding(bytes, mid, rest, depth, acc.push((k0, v0)));
        assert(rest.len() == entries.len() - 1);
    }
}

/// A tag byte outside the known range, wherever a value is expected,
/// fails with `InvalidTag` and a diagnostic frame offset pointing
/// exactly at that byte.
pub proof fn lemma_invalid_tag(bytes: Seq<u8>, pos: int, depth: nat)
    requires
        0 <= pos < bytes.len(),
        bytes[pos] > 7,
    ensures
        spec_parse_value(bytes, pos, depth) == Err::<(ValueModel, int), _>(
            framed(err_at(ErrorKind::InvalidTag, pos), Rule::Value, pos),
        ),
{
}

/// The round-trip law for the tagged value codec: for every well-formed
/// value whose lengths fit the format and whose nesting is within the
/// allowance, parsing its serialized form yields exactly the value and
/// consumes exactly its bytes.
pub proof fn lemma_value_round_trip(m: ValueModel, depth: nat)
    requires
        wf_model(m),
        crate::value::model_fits(m),
        crate::value::model_depth(m) <= depth,
    ensures
        spec_parse_value(crate::value::encoding(m), 0, depth) == Ok::<_, ErrModel>(
            (m, crate::value::encoding(m).len() as int),
        ),
{
    let enc = crate::value::encoding(m);
    assert(enc.subrange(0, enc.len() as int) =~= enc);
    lemma_parse_value_encoding(enc, 0, m, depth);
}

} // verus!
