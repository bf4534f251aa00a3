//! The tagged value serializer.
//!
//! The inverse of the parser: each value is written as its tag byte and
//! payload.  Empty is always written as tag 0x01 (0x00 is accepted on
//! decode but never produced).  Sequences and maps need their element
//! count up front: the format has no backpatchable length field, so a
//! producer that does not know its length cannot be serialized.
//!
//! Every write method states exactly which bytes it appends, in terms of
//! the specification-level [`encoding`] that the parser's round-trip
//! lemmas consume.

use vstd::prelude::*;
use vstd::string::StrSliceExecFns;

use crate::endian::write_be;
use crate::error::{err_at, Error, ErrorKind};
use crate::value::{
    encoding, encoding_entries, encoding_list, lemma_view_entries, lemma_view_values,
    str_encoding, view_values, ObjectMap, Value, ValueModel,
};
use crate::vlq::{vlq_enc, write_vlqi64, write_vlqu64, zigzag};

verus! {

/// Appending to a list's encoding.
pub proof fn lemma_encoding_list_push(s: Seq<ValueModel>, x: ValueModel)
    ensures
        encoding_list(s.push(x)) == encoding_list(s) + encoding(x),
    decreases s.len(),
{
    if s.len() == 0 {
        assert(s.push(x)[0] == x);
        assert(s.push(x).drop_first() =~= Seq::<ValueModel>::empty());
        assert(encoding_list(s.push(x)) == encoding(x) + encoding_list(
            Seq::<ValueModel>::empty(),
        ));
        assert(encoding_list(s.push(x)) =~= encoding_list(s) + encoding(x));
    } else {
        assert(s.push(x)[0] == s[0]);
        assert(s.push(x).drop_first() =~= s.drop_first().push(x));
        lemma_encoding_list_push(s.drop_first(), x);
        assert(encoding_list(s.push(x)) == encoding(s[0]) + encoding_list(
            s.drop_first().push(x),
        ));
        assert(encoding_list(s.push(x)) =~= encoding_list(s) + encoding(x));
    }
}

/// Appending to an entry list's encoding.
pub proof fn lemma_encoding_entries_push(
    s: Seq<(Seq<char>, ValueModel)>,
    e: (Seq<char>, ValueModel),
)
    ensures
        encoding_entries(s.push(e)) == encoding_entries(s) + str_encoding(e.0) + encoding(e.1),
    decreases s.len(),
{
    if s.len() == 0 {
        assert(s.push(e)[0] == e);
        assert(s.push(e).drop_first() =~= Seq::<(Seq<char>, ValueModel)>::empty());
        assert(encoding_entries(s.push(e)) == str_encoding(e.0) + encoding(e.1)
            + encoding_entries(Seq::<(Seq<char>, ValueModel)>::empty()));
        assert(encoding_entries(s.push(e)) =~= encoding_entries(s) + str_encoding(e.0)
            + encoding(e.1));
    } else {
        assert(s.push(e)[0] == s[0]);
        assert(s.push(e).drop_first() =~= s.drop_first().push(e));
        lemma_encoding_entries_push(s.drop_first(), e);
        assert(encoding_entries(s.push(e)) == str_encoding(s[0].0) + encoding(s[0].1)
            + encoding_entries(s.drop_first().push(e)));
        assert(encoding_entries(s.push(e)) =~= encoding_entries(s) + str_encoding(e.0)
            + encoding(e.1));
    }
}

/// The serialized forms of a sequence of bytes written as integer
/// values, concatenated in order.
pub open spec fn byte_array_encoding(bytes: Seq<u8>) -> Seq<u8>
    decreases bytes,
{
    if bytes.len() == 0 {
        Seq::empty()
    } else {
        byte_array_encoding(bytes.drop_last()) + encoding(
            ValueModel::Integer(bytes.last() as i64),
        )
    }
}

/// Appending to a byte array's encoding.
proof fn lemma_byte_array_encoding_push(bytes: Seq<u8>, b: u8)
    ensures
        byte_array_encoding(bytes.push(b)) == byte_array_encoding(bytes) + encoding(
            ValueModel::Integer(b as i64),
        ),
{
    assert(bytes.push(b).drop_last() =~= bytes);
    assert(bytes.push(b).last() == b);
    assert(byte_array_encoding(bytes.push(b)) == byte_array_encoding(bytes.push(b).drop_last())
        + encoding(ValueModel::Integer(bytes.push(b).last() as i64)));
}

/// Appends the bare length-prefixed encoding of a string (no tag byte):
/// the write path for object keys.
pub(crate) fn write_str(w: &mut Vec<u8>, v: &str)
    ensures
        final(w)@ == old(w)@ + str_encoding(v@),
{
    let bytes = v.as_bytes_vec();
    write_vlqu64(w, bytes.len() as u64);
    let mut tail = bytes;
    w.append(&mut tail);
    proof {
        assert(final(w)@ =~= old(w)@ + str_encoding(v@));
    }
}

/// Appends the full serialized form of a value.
pub(crate) fn write_value(w: &mut Vec<u8>, v: &Value)
    ensures
        final(w)@ == old(w)@ + encoding(v@),
    decreases v,
{
    match v {
        Value::Empty => {
            w.push(1);
            proof {
                assert(final(w)@ =~= old(w)@ + encoding(v@));
            }
        },
        Value::Float(bits) => {
            w.push(2);
            write_be(w, *bits, 8);
            proof {
                assert(final(w)@ =~= old(w)@ + encoding(v@));
            }
        },
        Value::Boolean(b) => {
            w.push(3);
            w.push(
                if *b {
                    1
                } else {
                    0
                },
            );
            proof {
                assert(final(w)@ =~= old(w)@ + encoding(v@));
            }
        },
        Value::Integer(n) => {
            w.push(4);
            write_vlqi64(w, *n);
            proof {
                assert(final(w)@ =~= old(w)@ + encoding(v@));
            }
        },
        Value::String(s) => {
            w.push(5);
            write_str(w, s.as_str());
            proof {
                assert(final(w)@ =~= old(w)@ + encoding(v@));
            }
        },
        Value::Array(items) => {
            let ghost prefix = w@;
            let ghost s = view_values(items@);
            proof {
                lemma_view_values(items@);
            }
            w.push(6);
            write_vlqu64(w, items.len() as u64);
            let ghost header = prefix + seq![6u8] + vlq_enc(items@.len() as nat);
            proof {
                assert(w@ =~= header);
                assert(s.take(0) =~= Seq::<ValueModel>::empty());
                assert(w@ =~= header + encoding_list(s.take(0)));
            }
            let n = items.len();
            let mut i: usize = 0;
            #[verifier::loop_isolation(false)]
            while i < n
                invariant
                    0 <= i <= n,
                    n == items@.len(),
                    s == view_values(items@),
                    s.len() == n,
                    forall|j: int| 0 <= j < n ==> s[j] == items@[j]@,
                    w@ == header + encoding_list(s.take(i as int)),
                decreases n - i,
            {
                write_value(w, &items[i]);
                proof {
                    lemma_encoding_list_push(s.take(i as int), s[i as int]);
                    assert(s.take(i + 1) =~= s.take(i as int).push(s[i as int]));
                    assert(w@ =~= header + encoding_list(s.take(i + 1)));
                }
                i = i + 1;
            }
            proof {
                assert(s.take(n as int) =~= s);
                assert(encoding(v@) == seq![6u8] + vlq_enc(s.len()) + encoding_list(s));
                assert(final(w)@ =~= old(w)@ + encoding(v@));
            }
        },
        Value::Object(map) => {
            let ghost prefix = w@;
            let ghost s = map@;
            w.push(7);
            let n = map.len();
            write_vlqu64(w, n as u64);
            let ghost header = prefix + seq![7u8] + vlq_enc(s.len() as nat);
            proof {
                assert(w@ =~= header);
                assert(s.take(0) =~= Seq::<(Seq<char>, ValueModel)>::empty());
                assert(w@ =~= header + encoding_entries(s.take(0)));
            }
            let mut i: usize = 0;
            #[verifier::loop_isolation(false)]
            while i < n
                invariant
                    0 <= i <= n,
                    s == map@,
                    s.len() == n,
                    w@ == header + encoding_entries(s.take(i as int)),
                decreases n - i,
            {
                let entry = map.entry_at(i);
                write_str(w, entry.0.as_str());
                write_value(w, &entry.1);
                proof {
                    lemma_encoding_entries_push(s.take(i as int), s[i as int]);
                    assert(s.take(i + 1) =~= s.take(i as int).push(s[i as int]));
                    assert(w@ =~= header + encoding_entries(s.take(i + 1)));
                }
                i = i + 1;
            }
            proof {
                assert(s.take(n as int) =~= s);
                assert(encoding(v@) == seq![7u8] + vlq_enc(s.len()) + encoding_entries(s));
                assert(final(w)@ =~= old(w)@ + encoding(v@));
            }
        },
    }
}

/// Serializes `val` onto the end of `w`.  Serialization of a [`Value`]
/// cannot fail: every kind the model can hold is expressible.
pub fn to_writer(w: &mut Vec<u8>, val: &Value) -> (r: Result<(), Error>)
    ensures
        r is Ok,
        final(w)@ == old(w)@ + encoding(val@),
{
    write_value(w, val);
    Ok(())
}

/// A streaming serializer over an owned output buffer.
///
/// The primitive methods append one value each; [`Self::serialize_seq`]
/// and [`Self::serialize_map`] write a tag and count, after which the
/// caller writes that many elements (for maps, each key through
/// [`Self::serialize_key`] and then its value).
pub struct Serializer {
    out: Vec<u8>,
}

impl View for Serializer {
    type V = Seq<u8>;

    closed spec fn view(&self) -> Seq<u8> {
        self.out@
    }
}

impl Serializer {
    /// A serializer with an empty output buffer.
    pub fn new() -> (r: Serializer)
        ensures
            r@ == Seq::<u8>::empty(),
    {
        Serializer { out: Vec::new() }
    }

    /// The bytes written so far.
    pub fn into_bytes(self) -> (r: Vec<u8>)
        ensures
            r@ == self@,
    {
        self.out
    }

    /// Writes a boolean value.
    pub fn serialize_bool(&mut self, v: bool)
        ensures
            final(self)@ == old(self)@ + encoding(ValueModel::Boolean(v)),
    {
        self.out.push(3);
        self.out.push(
            if v {
                1
            } else {
                0
            },
        );
        proof {
            assert(final(self)@ =~= old(self)@ + encoding(ValueModel::Boolean(v)));
        }
    }

    /// Writes an integer value.
    pub fn serialize_i64(&mut self, v: i64)
        ensures
            final(self)@ == old(self)@ + encoding(ValueModel::Integer(v)),
    {
        self.out.push(4);
        write_vlqi64(&mut self.out, v);
        proof {
            assert(final(self)@ =~= old(self)@ + encoding(ValueModel::Integer(v)));
        }
    }

    /// Writes a narrower signed integer through the integer kind.
    pub fn serialize_i8(&mut self, v: i8)
        ensures
            final(self)@ == old(self)@ + encoding(ValueModel::Integer(v as i64)),
    {
        self.serialize_i64(v as i64)
    }

    /// Writes a narrower signed integer through the integer kind.
    pub fn serialize_i16(&mut self, v: i16)
        ensures
            final(self)@ == old(self)@ + encoding(ValueModel::Integer(v as i64)),
    {
        self.serialize_i64(v as i64)
    }

    /// Writes a narrower signed integer through the integer kind.
    pub fn serialize_i32(&mut self, v: i32)
        ensures
            final(self)@ == old(self)@ + encoding(ValueModel::Integer(v as i64)),
    {
        self.serialize_i64(v as i64)
    }

    /// Writes an unsigned integer through the integer kind.
    pub fn serialize_u8(&mut self, v: u8)
        ensures
            final(self)@ == old(self)@ + encoding(ValueModel::Integer(v as i64)),
    {
        self.serialize_i64(v as i64)
    }

    /// Writes an unsigned integer through the integer kind.
    pub fn serialize_u16(&mut self, v: u16)
        ensures
            final(self)@ == old(self)@ + encoding(ValueModel::Integer(v as i64)),
    {
        self.serialize_i64(v as i64)
    }

    /// Writes an unsigned integer through the integer kind.
    pub fn serialize_u32(&mut self, v: u32)
        ensures
            final(self)@ == old(self)@ + encoding(ValueModel::Integer(v as i64)),
    {
        self.serialize_i64(v as i64)
    }

    /// Writes an unsigned 64-bit integer through the integer kind.  A
    /// value the signed kind cannot represent is an overflow failure and
    /// writes nothing.
    pub fn serialize_u64(&mut self, v: u64) -> (r: Result<(), Error>)
        ensures
            match r {
                Ok(()) => {
                    &&& v <= i64::MAX
                    &&& final(self)@ == old(self)@ + encoding(ValueModel::Integer(v as i64))
                },
                Err(e) => {
                    &&& v > i64::MAX
                    &&& final(self)@ == old(self)@
                    &&& e@ == err_at(ErrorKind::IntegerOverflow, old(self)@.len() as int)
                },
            },
    {
        if v > 0x7fffffffffffffff {
            return Err(Error::new(ErrorKind::IntegerOverflow, self.out.len()));
        }
        self.serialize_i64(v as i64);
        Ok(())
    }

    /// Writes a float value from the bits of its IEEE-754 representation.
    pub fn serialize_f64(&mut self, bits: u64)
        ensures
            final(self)@ == old(self)@ + encoding(ValueModel::Float(bits)),
    {
        self.out.push(2);
        write_be(&mut self.out, bits, 8);
        proof {
            assert(final(self)@ =~= old(self)@ + encoding(ValueModel::Float(bits)));
        }
    }

    /// Writes a string value.
    pub fn serialize_str(&mut self, v: &str)
        ensures
            final(self)@ == old(self)@ + encoding(ValueModel::String(v@)),
    {
        self.out.push(5);
        write_str(&mut self.out, v);
        proof {
            assert(final(self)@ =~= old(self)@ + encoding(ValueModel::String(v@)));
        }
    }

    /// Writes a byte slice as an array of integer values, one per byte.
    pub fn serialize_bytes(&mut self, v: &[u8])
        ensures
            final(self)@ == old(self)@ + seq![6u8] + vlq_enc(v@.len() as nat) + byte_array_encoding(
                v@,
            ),
    {
        self.out.push(6);
        write_vlqu64(&mut self.out, v.len() as u64);
        let ghost header = old(self)@ + seq![6u8] + vlq_enc(v@.len() as nat);
        proof {
            assert(v@.take(0) =~= Seq::<u8>::empty());
            assert(self.out@ =~= header + byte_array_encoding(v@.take(0)));
        }
        let n = v.len();
        let mut i: usize = 0;
        #[verifier::loop_isolation(false)]
        while i < n
            invariant
                0 <= i <= n,
                n == v@.len(),
                self.out@ == header + byte_array_encoding(v@.take(i as int)),
            decreases n - i,
        {
            self.out.push(4);
            write_vlqi64(&mut self.out, v[i] as i64);
            proof {
                lemma_byte_array_encoding_push(v@.take(i as int), v@[i as int]);
                assert(v@.take(i + 1) =~= v@.take(i as int).push(v@[i as int]));
                assert(self.out@ =~= header + byte_array_encoding(v@.take(i + 1)));
            }
            i = i + 1;
        }
        proof {
            assert(v@.take(n as int) =~= v@);
        }
    }

    /// Writes the empty value.
    pub fn serialize_none(&mut self)
        ensures
            final(self)@ == old(self)@ + encoding(ValueModel::Empty),
    {
        self.serialize_unit()
    }

    /// Writes the empty value.
    pub fn serialize_unit(&mut self)
        ensures
            final(self)@ == old(self)@ + encoding(ValueModel::Empty),
    {
        self.out.push(1);
        proof {
            assert(final(self)@ =~= old(self)@ + encoding(ValueModel::Empty));
        }
    }

    /// Starts an array of `len` elements, which the caller then writes.
    /// A sequence without a definite length up front cannot be expressed
    /// in the format and is rejected.
    pub fn serialize_seq(&mut self, len: Option<usize>) -> (r: Result<(), Error>)
        ensures
            match r {
                Ok(()) => {
                    &&& len is Some
                    &&& final(self)@ == old(self)@ + seq![6u8] + vlq_enc(len->0 as nat)
                },
                Err(e) => {
                    &&& len is None
                    &&& final(self)@ == old(self)@
                    &&& e@ == err_at(ErrorKind::UnsupportedShape, old(self)@.len() as int)
                },
            },
    {
        match len {
            None => Err(Error::new(ErrorKind::UnsupportedShape, self.out.len())),
            Some(n) => {
                self.out.push(6);
                write_vlqu64(&mut self.out, n as u64);
                proof {
                    assert(final(self)@ =~= old(self)@ + seq![6u8] + vlq_enc(n as nat));
                }
                Ok(())
            },
        }
    }

    /// Starts a map of `len` key/value pairs, which the caller then
    /// writes.  A map without a definite length up front is rejected.
    pub fn serialize_map(&mut self, len: Option<usize>) -> (r: Result<(), Error>)
        ensures
            match r {
                Ok(()) => {
                    &&& len is Some
                    &&& final(self)@ == old(self)@ + seq![7u8] + vlq_enc(len->0 as nat)
                },
                Err(e) => {
                    &&& len is None
                    &&& final(self)@ == old(self)@
                    &&& e@ == err_at(ErrorKind::UnsupportedShape, old(self)@.len() as int)
                },
            },
    {
        match len {
            None => Err(Error::new(ErrorKind::UnsupportedShape, self.out.len())),
            Some(n) => {
                self.out.push(7);
                write_vlqu64(&mut self.out, n as u64);
                proof {
                    assert(final(self)@ =~= old(self)@ + seq![7u8] + vlq_enc(n as nat));
                }
                Ok(())
            },
        }
    }

    /// Writes a map key: the bare length-prefixed string form, with no
    /// tag byte.
    pub fn serialize_key(&mut self, key: &str)
        ensures
            final(self)@ == old(self)@ + str_encoding(key@),
    {
        write_str(&mut self.out, key)
    }

    /// Writes a whole value, recursively.
    pub fn serialize_value(&mut self, v: &Value)
        ensures
            final(self)@ == old(self)@ + encoding(v@),
    {
        write_value(&mut self.out, v)
    }
}

} // verus!
