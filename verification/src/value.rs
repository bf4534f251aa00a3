//! The tagged value model.
//!
//! A [`Value`] is one of seven kinds: empty, float, boolean, integer,
//! string, array, or object.  A float payload is carried as the raw bits
//! of its big-endian IEEE-754 representation; interpreting those bits as a
//! native floating-point number is a caller's concern.  An object maps
//! string keys to values; keys are unique and iteration order is sorted by
//! key (lexicographic on the UTF-8 encoding), so original key order from a
//! parsed source is not preserved.

use vstd::prelude::*;
use vstd::utf8::encode_utf8;

use crate::order::{key_lt, lemma_key_lt_trans, lemma_key_lt_trichotomy, str_compare, StrOrder};
use crate::vlq::{vlq_enc, zigzag};

verus! {

/// A tagged value of the wire format.
#[derive(Debug, PartialEq)]
pub enum Value {
    /// No payload.  Decoded from tag 0x00 or 0x01; always written as 0x01.
    Empty,
    /// The bits of a big-endian IEEE-754 double.
    Float(u64),
    Boolean(bool),
    Integer(i64),
    String(String),
    Array(Vec<Value>),
    Object(ObjectMap),
}

/// A mapping from string keys to values, with unique keys held sorted by
/// [`key_lt`].  Inserting an existing key overwrites its value.
#[derive(Debug, PartialEq)]
pub struct ObjectMap {
    entries: Vec<(String, Value)>,
}

/// Mathematical model of a [`Value`].
pub enum ValueModel {
    Empty,
    Float(u64),
    Boolean(bool),
    Integer(i64),
    String(Seq<char>),
    Array(Seq<ValueModel>),
    Object(Seq<(Seq<char>, ValueModel)>),
}

/// The models of a sequence of values, in order.
pub open spec fn view_values(s: Seq<Value>) -> Seq<ValueModel>
    decreases s,
{
    if s.len() == 0 {
        Seq::empty()
    } else {
        view_values(s.drop_last()).push(s.last()@)
    }
}

/// The models of a sequence of key/value entries, in order.
pub open spec fn view_entries(s: Seq<(String, Value)>) -> Seq<(Seq<char>, ValueModel)>
    decreases s,
{
    if s.len() == 0 {
        Seq::empty()
    } else {
        view_entries(s.drop_last()).push((s.last().0@, s.last().1@))
    }
}

impl View for ObjectMap {
    type V = Seq<(Seq<char>, ValueModel)>;

    closed spec fn view(&self) -> Seq<(Seq<char>, ValueModel)>
        decreases self,
    {
        view_entries(self.entries@)
    }
}

impl View for Value {
    type V = ValueModel;

    open spec fn view(&self) -> ValueModel
        decreases self,
    {
        match self {
            Value::Empty => ValueModel::Empty,
            Value::Float(bits) => ValueModel::Float(*bits),
            Value::Boolean(b) => ValueModel::Boolean(*b),
            Value::Integer(n) => ValueModel::Integer(*n),
            Value::String(s) => ValueModel::String(s@),
            Value::Array(items) => ValueModel::Array(view_values(items@)),
            Value::Object(map) => ValueModel::Object(map@),
        }
    }
}

/// `view_values` maps the sequence pointwise.
pub proof fn lemma_view_values(s: Seq<Value>)
    ensures
        view_values(s).len() == s.len(),
        forall|i: int| 0 <= i < s.len() ==> view_values(s)[i] == s[i]@,
    decreases s,
{
    if s.len() > 0 {
        lemma_view_values(s.drop_last());
        assert(view_values(s) == view_values(s.drop_last()).push(s.last()@));
        assert forall|i: int| 0 <= i < s.len() implies view_values(s)[i] == s[i]@ by {
            if i < s.len() - 1 {
                assert(view_values(s)[i] == view_values(s.drop_last())[i]);
                assert(s.drop_last()[i] == s[i]);
            } else {
                assert(s.last() == s[i]);
            }
        }
    }
}

/// `view_entries` maps the sequence pointwise.
pub proof fn lemma_view_entries(s: Seq<(String, Value)>)
    ensures
        view_entries(s).len() == s.len(),
        forall|i: int|
            0 <= i < s.len() ==> view_entries(s)[i] == (s[i].0@, s[i].1@),
    decreases s,
{
    if s.len() > 0 {
        lemma_view_entries(s.drop_last());
        assert(view_entries(s) == view_entries(s.drop_last()).push((s.last().0@, s.last().1@)));
        assert forall|i: int|
            0 <= i < s.len() implies view_entries(s)[i] == (s[i].0@, s[i].1@) by {
            if i < s.len() - 1 {
                assert(view_entries(s)[i] == view_entries(s.drop_last())[i]);
                assert(s.drop_last()[i] == s[i]);
            } else {
                assert(s.last() == s[i]);
            }
        }
    }
}

impl Default for Value {
    /// The empty value.
    fn default() -> (r: Value)
        ensures
            r == Value::Empty,
    {
        Value::Empty
    }
}

impl Value {
    /// A deep copy with the same model.
    pub fn duplicate(&self) -> (r: Value)
        ensures
            r@ == self@,
        decreases self,
    {
        match self {
            Value::Empty => Value::Empty,
            Value::Float(bits) => Value::Float(*bits),
            Value::Boolean(b) => Value::Boolean(*b),
            Value::Integer(n) => Value::Integer(*n),
            Value::String(s) => Value::String(s.clone()),
            Value::Array(items) => {
                let n = items.len();
                let mut out: Vec<Value> = Vec::new();
                let mut i: usize = 0;
                proof {
                    lemma_view_values(items@);
                }
                #[verifier::loop_isolation(false)]
                while i < n
                    invariant
                        0 <= i <= n,
                        out@.len() == i,
                        forall|j: int| 0 <= j < i ==> #[trigger] out@[j]@ == items@[j]@,
                    decreases n - i,
                {
                    out.push(items[i].duplicate());
                    i = i + 1;
                }
                proof {
                    lemma_view_values(out@);
                    assert(view_values(out@) =~= view_values(items@));
                }
                Value::Array(out)
            },
            Value::Object(map) => Value::Object(map.duplicate()),
        }
    }
}

// --- well-formedness ---

/// Entry keys are strictly increasing, hence unique.
pub open spec fn entries_sorted<V>(entries: Seq<(Seq<char>, V)>) -> bool {
    forall|i: int, j: int|
        0 <= i < j < entries.len() ==> key_lt(entries[i].0, entries[j].0)
}

/// Every value in the list is well formed.
pub open spec fn wf_list(items: Seq<ValueModel>) -> bool
    decreases items,
{
    if items.len() == 0 {
        true
    } else {
        wf_model(items.last()) && wf_list(items.drop_last())
    }
}

/// Every value in the entry list is well formed.
pub open spec fn wf_entry_values(entries: Seq<(Seq<char>, ValueModel)>) -> bool
    decreases entries,
{
    if entries.len() == 0 {
        true
    } else {
        wf_model(entries.last().1) && wf_entry_values(entries.drop_last())
    }
}

/// Well-formedness of a value model: every object in it has its entries
/// sorted by key.
pub open spec fn wf_model(m: ValueModel) -> bool
    decreases m,
{
    match m {
        ValueModel::Array(items) => wf_list(items),
        ValueModel::Object(entries) => entries_sorted(entries) && wf_entry_values(entries),
        _ => true,
    }
}

/// Pointwise reading of [`wf_list`].
pub proof fn lemma_wf_list(items: Seq<ValueModel>)
    ensures
        wf_list(items) <==> (forall|i: int| 0 <= i < items.len() ==> wf_model(#[trigger] items[i])),
    decreases items,
{
    if items.len() > 0 {
        lemma_wf_list(items.drop_last());
        if wf_model(items.last()) && wf_list(items.drop_last()) {
            assert forall|i: int| 0 <= i < items.len() implies wf_model(#[trigger] items[i]) by {
                if i < items.len() - 1 {
                    assert(items[i] == items.drop_last()[i]);
                }
            }
        }
        if forall|i: int| 0 <= i < items.len() ==> wf_model(#[trigger] items[i]) {
            assert forall|i: int|
                0 <= i < items.drop_last().len() implies wf_model(
                #[trigger] items.drop_last()[i],
            ) by {
                assert(items.drop_last()[i] == items[i]);
            }
        }
    }
}

/// Pointwise reading of [`wf_entry_values`].
pub proof fn lemma_wf_entry_values(entries: Seq<(Seq<char>, ValueModel)>)
    ensures
        wf_entry_values(entries) <==> (forall|i: int|
            0 <= i < entries.len() ==> wf_model(#[trigger] entries[i].1)),
    decreases entries,
{
    if entries.len() > 0 {
        lemma_wf_entry_values(entries.drop_last());
        if wf_model(entries.last().1) && wf_entry_values(entries.drop_last()) {
            assert forall|i: int| 0 <= i < entries.len() implies wf_model(
                #[trigger] entries[i].1,
            ) by {
                if i < entries.len() - 1 {
                    assert(entries[i] == entries.drop_last()[i]);
                }
            }
        }
        if forall|i: int| 0 <= i < entries.len() ==> wf_model(#[trigger] entries[i].1) {
            assert forall|i: int|
                0 <= i < entries.drop_last().len() implies wf_model(
                #[trigger] entries.drop_last()[i].1,
            ) by {
                assert(entries.drop_last()[i] == entries[i]);
            }
        }
    }
}

// --- nesting depth ---

/// Nesting depth of a value: leaves are 0, arrays and objects one more
/// than their deepest element.
pub open spec fn model_depth(m: ValueModel) -> nat
    decreases m,
{
    match m {
        ValueModel::Array(items) => 1 + depth_list(items),
        ValueModel::Object(entries) => 1 + depth_entries(entries),
        _ => 0,
    }
}

/// The deepest nesting among the values of a list.
pub open spec fn depth_list(items: Seq<ValueModel>) -> nat
    decreases items,
{
    if items.len() == 0 {
        0
    } else {
        let d = model_depth(items.last());
        let rest = depth_list(items.drop_last());
        if d > rest {
            d
        } else {
            rest
        }
    }
}

/// The deepest nesting among the values of an entry list.
pub open spec fn depth_entries(entries: Seq<(Seq<char>, ValueModel)>) -> nat
    decreases entries,
{
    if entries.len() == 0 {
        0
    } else {
        let d = model_depth(entries.last().1);
        let rest = depth_entries(entries.drop_last());
        if d > rest {
            d
        } else {
            rest
        }
    }
}

// --- machine-size bounds ---

/// Whether every length in the value (string byte lengths, element and
/// entry counts) fits the 64-bit fields of the wire format.  Every value
/// built in memory satisfies this; it is stated separately because the
/// model itself is unbounded.
pub open spec fn model_fits(m: ValueModel) -> bool
    decreases m,
{
    match m {
        ValueModel::String(s) => encode_utf8(s).len() < 0x10000000000000000,
        ValueModel::Array(items) => items.len() < 0x10000000000000000 && fits_list(items),
        ValueModel::Object(entries) => entries.len() < 0x10000000000000000 && fits_entries(
            entries,
        ),
        _ => true,
    }
}

/// Every value in the list fits.
pub open spec fn fits_list(items: Seq<ValueModel>) -> bool
    decreases items,
{
    if items.len() == 0 {
        true
    } else {
        model_fits(items.last()) && fits_list(items.drop_last())
    }
}

/// Every key length and value in the entry list fits.
pub open spec fn fits_entries(entries: Seq<(Seq<char>, ValueModel)>) -> bool
    decreases entries,
{
    if entries.len() == 0 {
        true
    } else {
        encode_utf8(entries.last().0).len() < 0x10000000000000000 && model_fits(entries.last().1)
            && fits_entries(entries.drop_last())
    }
}

/// Pointwise reading of [`fits_list`].
pub proof fn lemma_fits_list(items: Seq<ValueModel>)
    ensures
        fits_list(items) <==> (forall|i: int|
            0 <= i < items.len() ==> model_fits(#[trigger] items[i])),
    decreases items,
{
    if items.len() > 0 {
        lemma_fits_list(items.drop_last());
        if model_fits(items.last()) && fits_list(items.drop_last()) {
            assert forall|i: int| 0 <= i < items.len() implies model_fits(
                #[trigger] items[i],
            ) by {
                if i < items.len() - 1 {
                    assert(items[i] == items.drop_last()[i]);
                }
            }
        }
        if forall|i: int| 0 <= i < items.len() ==> model_fits(#[trigger] items[i]) {
            assert forall|i: int|
                0 <= i < items.drop_last().len() implies model_fits(
                #[trigger] items.drop_last()[i],
            ) by {
                assert(items.drop_last()[i] == items[i]);
            }
        }
    }
}

/// Pointwise reading of [`fits_entries`].
pub proof fn lemma_fits_entries(entries: Seq<(Seq<char>, ValueModel)>)
    ensures
        fits_entries(entries) <==> (forall|i: int|
            0 <= i < entries.len() ==> (encode_utf8(#[trigger] entries[i].0).len()
                < 0x10000000000000000 && model_fits(entries[i].1))),
    decreases entries,
{
    if entries.len() > 0 {
        lemma_fits_entries(entries.drop_last());
        if encode_utf8(entries.last().0).len() < 0x10000000000000000 && model_fits(
            entries.last().1,
        ) && fits_entries(entries.drop_last()) {
            assert forall|i: int|
                0 <= i < entries.len() implies (encode_utf8(#[trigger] entries[i].0).len()
                < 0x10000000000000000 && model_fits(entries[i].1)) by {
                if i < entries.len() - 1 {
                    assert(entries[i] == entries.drop_last()[i]);
                }
            }
        }
        if forall|i: int|
            0 <= i < entries.len() ==> (encode_utf8(#[trigger] entries[i].0).len()
                < 0x10000000000000000 && model_fits(entries[i].1)) {
            assert forall|i: int|
                0 <= i < entries.drop_last().len() implies (encode_utf8(
                #[trigger] entries.drop_last()[i].0,
            ).len() < 0x10000000000000000 && model_fits(entries.drop_last()[i].1)) by {
                assert(entries.drop_last()[i] == entries[i]);
            }
        }
    }
}

/// Every value in a list nests no deeper than the list's depth.
pub proof fn lemma_depth_list(items: Seq<ValueModel>)
    ensures
        forall|i: int|
            0 <= i < items.len() ==> model_depth(#[trigger] items[i]) <= depth_list(items),
    decreases items,
{
    if items.len() > 0 {
        lemma_depth_list(items.drop_last());
        assert forall|i: int|
            0 <= i < items.len() implies model_depth(#[trigger] items[i]) <= depth_list(
            items,
        ) by {
            if i < items.len() - 1 {
                assert(items[i] == items.drop_last()[i]);
            } else {
                assert(items[i] == items.last());
            }
        }
    }
}

/// A list whose values all nest within `d` has depth at most `d`.
pub proof fn lemma_depth_list_bound(items: Seq<ValueModel>, d: nat)
    requires
        forall|i: int| 0 <= i < items.len() ==> model_depth(#[trigger] items[i]) <= d,
    ensures
        depth_list(items) <= d,
    decreases items,
{
    if items.len() > 0 {
        assert forall|i: int|
            0 <= i < items.drop_last().len() implies model_depth(
            #[trigger] items.drop_last()[i],
        ) <= d by {
            assert(items.drop_last()[i] == items[i]);
        }
        lemma_depth_list_bound(items.drop_last(), d);
        assert(items.last() == items[items.len() - 1]);
    }
}

/// Every value in an entry list nests no deeper than the list's depth.
pub proof fn lemma_depth_entries(entries: Seq<(Seq<char>, ValueModel)>)
    ensures
        forall|i: int|
            0 <= i < entries.len() ==> model_depth(#[trigger] entries[i].1) <= depth_entries(
                entries,
            ),
    decreases entries,
{
    if entries.len() > 0 {
        lemma_depth_entries(entries.drop_last());
        assert forall|i: int|
            0 <= i < entries.len() implies model_depth(#[trigger] entries[i].1) <= depth_entries(
            entries,
        ) by {
            if i < entries.len() - 1 {
                assert(entries[i] == entries.drop_last()[i]);
            } else {
                assert(entries[i] == entries.last());
            }
        }
    }
}

/// An entry list whose values all nest within `d` has depth at most `d`.
pub proof fn lemma_depth_entries_bound(entries: Seq<(Seq<char>, ValueModel)>, d: nat)
    requires
        forall|i: int| 0 <= i < entries.len() ==> model_depth(#[trigger] entries[i].1) <= d,
    ensures
        depth_entries(entries) <= d,
    decreases entries,
{
    if entries.len() > 0 {
        assert forall|i: int|
            0 <= i < entries.drop_last().len() implies model_depth(
            #[trigger] entries.drop_last()[i].1,
        ) <= d by {
            assert(entries.drop_last()[i] == entries[i]);
        }
        lemma_depth_entries_bound(entries.drop_last(), d);
        assert(entries.last() == entries[entries.len() - 1]);
    }
}

// --- insertion ---

/// Insertion into a key-sorted entry sequence: an equal key is
/// overwritten (the later occurrence wins), otherwise the new entry goes
/// before the first greater key.
pub open spec fn obj_insert<V>(
    entries: Seq<(Seq<char>, V)>,
    k: Seq<char>,
    v: V,
) -> Seq<(Seq<char>, V)>
    decreases entries.len(),
{
    if entries.len() == 0 {
        seq![(k, v)]
    } else if key_lt(k, entries[0].0) {
        seq![(k, v)] + entries
    } else if k == entries[0].0 {
        seq![(k, v)] + entries.drop_first()
    } else {
        seq![entries[0]] + obj_insert(entries.drop_first(), k, v)
    }
}

/// Lookup in an entry sequence: the value of the first entry with the
/// given key.
pub open spec fn obj_get<V>(
    entries: Seq<(Seq<char>, V)>,
    k: Seq<char>,
) -> Option<V>
    decreases entries.len(),
{
    if entries.len() == 0 {
        None
    } else if entries[0].0 == k {
        Some(entries[0].1)
    } else {
        obj_get(entries.drop_first(), k)
    }
}

/// Inserting into a sorted entry sequence keeps it sorted.
pub proof fn lemma_obj_insert_sorted<V>(
    entries: Seq<(Seq<char>, V)>,
    k: Seq<char>,
    v: V,
)
    requires
        entries_sorted(entries),
    ensures
        entries_sorted(obj_insert(entries, k, v)),
        obj_insert(entries, k, v).len() >= 1,
        entries.len() <= obj_insert(entries, k, v).len() <= entries.len() + 1,
    decreases entries.len(),
{
    let out = obj_insert(entries, k, v);
    if entries.len() == 0 {
    } else if key_lt(k, entries[0].0) {
        assert forall|i: int, j: int| 0 <= i < j < out.len() implies key_lt(
            out[i].0,
            out[j].0,
        ) by {
            if i == 0 {
                if j > 1 {
                    lemma_key_lt_trans(k, entries[0].0, entries[j - 1].0);
                }
            } else {
                assert(out[i] == entries[i - 1] && out[j] == entries[j - 1]);
            }
        }
    } else if k == entries[0].0 {
        assert forall|i: int, j: int| 0 <= i < j < out.len() implies key_lt(
            out[i].0,
            out[j].0,
        ) by {
            if i == 0 {
                assert(out[j] == entries.drop_first()[j - 1]);
                assert(entries.drop_first()[j - 1] == entries[j]);
            } else {
                assert(out[i] == entries[i] && out[j] == entries[j]);
            }
        }
    } else {
        lemma_key_lt_trichotomy(k, entries[0].0);
        assert forall|i: int, j: int|
            0 <= i < j < entries.drop_first().len() implies key_lt(
            entries.drop_first()[i].0,
            entries.drop_first()[j].0,
        ) by {
            assert(entries.drop_first()[i] == entries[i + 1]);
            assert(entries.drop_first()[j] == entries[j + 1]);
        }
        lemma_obj_insert_sorted(entries.drop_first(), k, v);
        let tail = obj_insert(entries.drop_first(), k, v);
        assert forall|i: int, j: int| 0 <= i < j < out.len() implies key_lt(
            out[i].0,
            out[j].0,
        ) by {
            if i == 0 {
                assert(out[j] == tail[j - 1]);
                // every key of the tail is either an original later key or k,
                // both greater than entries[0].0
                lemma_obj_insert_head_bound(entries.drop_first(), k, v, entries[0].0);
            } else {
                assert(out[i] == tail[i - 1] && out[j] == tail[j - 1]);
            }
        }
    }
}

/// If a bound is below the inserted key and every key of the sequence,
/// it is below every key after insertion.
proof fn lemma_obj_insert_head_bound<V>(
    entries: Seq<(Seq<char>, V)>,
    k: Seq<char>,
    v: V,
    bound: Seq<char>,
)
    requires
        key_lt(bound, k),
        forall|i: int| 0 <= i < entries.len() ==> key_lt(bound, #[trigger] entries[i].0),
    ensures
        forall|i: int|
            0 <= i < obj_insert(entries, k, v).len() ==> key_lt(
                bound,
                #[trigger] obj_insert(entries, k, v)[i].0,
            ),
    decreases entries.len(),
{
    let out = obj_insert(entries, k, v);
    if entries.len() == 0 {
    } else if key_lt(k, entries[0].0) {
        assert forall|i: int| 0 <= i < out.len() implies key_lt(bound, out[i].0) by {
            if i > 0 {
                assert(out[i] == entries[i - 1]);
            }
        }
    } else if k == entries[0].0 {
        assert forall|i: int| 0 <= i < out.len() implies key_lt(bound, out[i].0) by {
            if i > 0 {
                assert(out[i] == entries.drop_first()[i - 1]);
                assert(entries.drop_first()[i - 1] == entries[i]);
            }
        }
    } else {
        assert forall|i: int|
            0 <= i < entries.drop_first().len() implies key_lt(
            bound,
            #[trigger] entries.drop_first()[i].0,
        ) by {
            assert(entries.drop_first()[i] == entries[i + 1]);
        }
        lemma_obj_insert_head_bound(entries.drop_first(), k, v, bound);
        let tail = obj_insert(entries.drop_first(), k, v);
        assert forall|i: int| 0 <= i < out.len() implies key_lt(bound, out[i].0) by {
            if i > 0 {
                assert(out[i] == tail[i - 1]);
            }
        }
    }
}

/// Inserting a key greater than every present key appends the entry.
pub proof fn lemma_obj_insert_append<V>(
    entries: Seq<(Seq<char>, V)>,
    k: Seq<char>,
    v: V,
)
    requires
        forall|i: int| 0 <= i < entries.len() ==> key_lt(#[trigger] entries[i].0, k),
    ensures
        obj_insert(entries, k, v) == entries.push((k, v)),
    decreases entries.len(),
{
    if entries.len() == 0 {
        assert(obj_insert(entries, k, v) =~= entries.push((k, v)));
    } else {
        lemma_key_lt_trichotomy(k, entries[0].0);
        assert forall|i: int|
            0 <= i < entries.drop_first().len() implies key_lt(
            #[trigger] entries.drop_first()[i].0,
            k,
        ) by {
            assert(entries.drop_first()[i] == entries[i + 1]);
        }
        lemma_obj_insert_append(entries.drop_first(), k, v);
        assert(obj_insert(entries, k, v) =~= entries.push((k, v)));
    }
}

/// Inserting a well-formed value keeps every entry value well formed.
pub proof fn lemma_obj_insert_wf(
    entries: Seq<(Seq<char>, ValueModel)>,
    k: Seq<char>,
    v: ValueModel,
)
    requires
        wf_entry_values(entries),
        wf_model(v),
    ensures
        wf_entry_values(obj_insert(entries, k, v)),
{
    lemma_wf_entry_values(entries);
    let out = obj_insert(entries, k, v);
    lemma_obj_insert_shape(entries, k, v);
    assert forall|i: int| 0 <= i < out.len() implies wf_model(#[trigger] out[i].1) by {}
    lemma_wf_entry_values(out);
}

/// Every entry after insertion is either the inserted pair or one of the
/// original entries.
pub proof fn lemma_obj_insert_shape<V>(
    entries: Seq<(Seq<char>, V)>,
    k: Seq<char>,
    v: V,
)
    ensures
        forall|i: int|
            0 <= i < obj_insert(entries, k, v).len() ==> (#[trigger] obj_insert(entries, k, v)[i]
                == (k, v) || exists|j: int|
                0 <= j < entries.len() && obj_insert(entries, k, v)[i] == entries[j]),
    decreases entries.len(),
{
    let out = obj_insert(entries, k, v);
    if entries.len() == 0 {
    } else if key_lt(k, entries[0].0) {
        assert forall|i: int|
            0 <= i < out.len() implies (#[trigger] out[i] == (k, v) || exists|j: int|
            0 <= j < entries.len() && out[i] == entries[j]) by {
            if i > 0 {
                assert(out[i] == entries[i - 1]);
            }
        }
    } else if k == entries[0].0 {
        assert forall|i: int|
            0 <= i < out.len() implies (#[trigger] out[i] == (k, v) || exists|j: int|
            0 <= j < entries.len() && out[i] == entries[j]) by {
            if i > 0 {
                assert(out[i] == entries.drop_first()[i - 1]);
                assert(entries.drop_first()[i - 1] == entries[i]);
            }
        }
    } else {
        lemma_obj_insert_shape(entries.drop_first(), k, v);
        let tail = obj_insert(entries.drop_first(), k, v);
        assert forall|i: int|
            0 <= i < out.len() implies (#[trigger] out[i] == (k, v) || exists|j: int|
            0 <= j < entries.len() && out[i] == entries[j]) by {
            if i > 0 {
                assert(out[i] == tail[i - 1]);
                if tail[i - 1] != (k, v) {
                    let j = choose|j: int|
                        0 <= j < entries.drop_first().len() && tail[i - 1]
                            == entries.drop_first()[j];
                    assert(entries.drop_first()[j] == entries[j + 1]);
                }
            }
        }
    }
}

// --- the wire encoding ---

/// The serialized form of a string: an unsigned varint byte length, then
/// the UTF-8 bytes.
pub open spec fn str_encoding(s: Seq<char>) -> Seq<u8> {
    vlq_enc(encode_utf8(s).len()) + encode_utf8(s)
}

/// The serialized form of a value: its tag byte, then its payload.
pub open spec fn encoding(m: ValueModel) -> Seq<u8>
    decreases m,
{
    match m {
        ValueModel::Empty => seq![1u8],
        ValueModel::Float(bits) => seq![2u8] + crate::endian::be_bytes(bits as nat, 8),
        ValueModel::Boolean(b) => seq![
            3u8,
            if b {
                1u8
            } else {
                0u8
            },
        ],
        ValueModel::Integer(n) => seq![4u8] + vlq_enc(zigzag(n) as nat),
        ValueModel::String(s) => seq![5u8] + str_encoding(s),
        ValueModel::Array(items) => seq![6u8] + vlq_enc(items.len()) + encoding_list(items),
        ValueModel::Object(entries) => seq![7u8] + vlq_enc(entries.len()) + encoding_entries(
            entries,
        ),
    }
}

/// The serialized forms of a list of values, concatenated in order.
pub open spec fn encoding_list(items: Seq<ValueModel>) -> Seq<u8>
    decreases items,
{
    if items.len() == 0 {
        Seq::empty()
    } else {
        encoding(items[0]) + encoding_list(items.drop_first())
    }
}

/// The serialized forms of a list of entries: each a bare key string
/// (no tag byte) followed by its value.
pub open spec fn encoding_entries(entries: Seq<(Seq<char>, ValueModel)>) -> Seq<u8>
    decreases entries,
{
    if entries.len() == 0 {
        Seq::empty()
    } else {
        str_encoding(entries[0].0) + encoding(entries[0].1) + encoding_entries(
            entries.drop_first(),
        )
    }
}

// --- executable object map ---

impl ObjectMap {
    /// An empty map.
    pub fn new() -> (r: ObjectMap)
        ensures
            r@ == Seq::<(Seq<char>, ValueModel)>::empty(),
    {
        ObjectMap { entries: Vec::new() }
    }

    /// Whether this map's keys are strictly sorted.  Holds of every map
    /// the crate builds; a lemma on [`obj_insert`] shows it is preserved.
    pub open spec fn wf(&self) -> bool {
        entries_sorted(self@)
    }

    /// The number of entries.
    pub fn len(&self) -> (n: usize)
        ensures
            n == self@.len(),
    {
        proof {
            lemma_view_entries(self.entries@);
        }
        self.entries.len()
    }

    /// Binds `key` to `value`; an existing binding of an equal key is
    /// replaced.
    pub fn insert(&mut self, key: String, value: Value)
        requires
            old(self).wf(),
        ensures
            final(self)@ == obj_insert(old(self)@, key@, value@),
            final(self).wf(),
    {
        proof {
            lemma_view_entries(self.entries@);
            lemma_obj_insert_sorted(self@, key@, value@);
        }
        let ghost orig = self@;
        let mut i: usize = 0;
        let n = self.entries.len();
        while i < n && matches!(str_compare(self.entries[i].0.as_str(), key.as_str()), StrOrder::Less)
            invariant
                0 <= i <= n,
                n == self.entries@.len(),
                self@ == orig,
                self.wf(),
                view_entries(self.entries@) == self@,
                forall|j: int| 0 <= j < i ==> key_lt(#[trigger] self@[j].0, key@),
            decreases n - i,
        {
            proof {
                lemma_view_entries(self.entries@);
            }
            i = i + 1;
        }
        proof {
            lemma_view_entries(self.entries@);
        }
        if i < n && matches!(str_compare(self.entries[i].0.as_str(), key.as_str()), StrOrder::Equal)
        {
            let ghost pre = self.entries@;
            self.entries.set(i, (key, value));
            proof {
                lemma_view_entries(pre);
                lemma_view_entries(self.entries@);
                lemma_obj_insert_update(orig, key@, value@, i as int);
                assert(view_entries(self.entries@) =~= obj_insert(orig, key@, value@));
            }
        } else {
            let ghost pre = self.entries@;
            self.entries.insert(i, (key, value));
            proof {
                lemma_view_entries(pre);
                lemma_view_entries(self.entries@);
                if i < n {
                    crate::order::lemma_key_lt_trichotomy(pre[i as int].0@, key@);
                }
                lemma_obj_insert_splice(orig, key@, value@, i as int);
                assert(view_entries(self.entries@) =~= obj_insert(orig, key@, value@));
            }
        }
    }

    /// The value bound to `key`, if any.
    pub fn get(&self, key: &str) -> (r: Option<&Value>)
        ensures
            match r {
                Some(v) => obj_get(self@, key@) == Some(v@),
                None => obj_get(self@, key@) is None,
            },
    {
        proof {
            lemma_view_entries(self.entries@);
            assert(self@.skip(0) =~= self@);
        }
        let n = self.entries.len();
        let mut i: usize = 0;
        while i < n
            invariant
                0 <= i <= n,
                n == self.entries@.len(),
                view_entries(self.entries@) == self@,
                self@.len() == n,
                forall|j: int| 0 <= j < i ==> #[trigger] self@[j].0 != key@,
                obj_get(self@, key@) == obj_get(self@.skip(i as int), key@),
            decreases n - i,
        {
            proof {
                lemma_view_entries(self.entries@);
            }
            if matches!(str_compare(self.entries[i].0.as_str(), key), StrOrder::Equal) {
                proof {
                    assert(self@.skip(i as int)[0] == self@[i as int]);
                }
                return Some(&self.entries[i].1);
            }
            proof {
                assert(self@.skip(i as int)[0] == self@[i as int]);
                assert(self@.skip(i as int).drop_first() =~= self@.skip(i + 1));
            }
            i = i + 1;
        }
        proof {
            assert(self@.skip(i as int).len() == 0);
        }
        None
    }

    /// The keys, in sorted order.
    pub fn keys(&self) -> (r: Vec<String>)
        ensures
            r@.len() == self@.len(),
            forall|i: int| 0 <= i < r@.len() ==> #[trigger] r@[i]@ == self@[i].0,
    {
        proof {
            lemma_view_entries(self.entries@);
        }
        let n = self.entries.len();
        let mut r: Vec<String> = Vec::new();
        let mut i: usize = 0;
        while i < n
            invariant
                0 <= i <= n,
                n == self.entries@.len(),
                view_entries(self.entries@) == self@,
                self@.len() == n,
                r@.len() == i,
                forall|j: int| 0 <= j < i ==> #[trigger] r@[j]@ == self@[j].0,
            decreases n - i,
        {
            proof {
                lemma_view_entries(self.entries@);
            }
            r.push(self.entries[i].0.clone());
            i = i + 1;
        }
        r
    }

    /// A deep copy with the same model.
    pub fn duplicate(&self) -> (r: ObjectMap)
        ensures
            r@ == self@,
        decreases self,
    {
        let n = self.entries.len();
        let mut out: Vec<(String, Value)> = Vec::new();
        let mut i: usize = 0;
        #[verifier::loop_isolation(false)]
        while i < n
            invariant
                0 <= i <= n,
                out@.len() == i,
                forall|j: int|
                    0 <= j < i ==> (#[trigger] out@[j].0@, out@[j].1@) == (
                        self.entries@[j].0@,
                        self.entries@[j].1@,
                    ),
            decreases n - i,
        {
            let key = self.entries[i].0.clone();
            let val = self.entries[i].1.duplicate();
            out.push((key, val));
            i = i + 1;
        }
        let r = ObjectMap { entries: out };
        proof {
            lemma_view_entries(out@);
            lemma_view_entries(self.entries@);
            assert(view_entries(out@) =~= view_entries(self.entries@));
        }
        r
    }

    /// The entry at position `i` in sorted order.  The returned entry is
    /// structurally part of the map, so a recursive walk may descend
    /// through it.
    pub fn entry_at(&self, i: usize) -> (r: &(String, Value))
        requires
            i < self@.len(),
        ensures
            (r.0@, r.1@) == self@[i as int],
            decreases_to!(*self => *r),
    {
        proof {
            lemma_view_entries(self.entries@);
        }
        let r = &self.entries[i];
        proof {
            assert(decreases_to!(*self => self.entries));
            assert(decreases_to!(self.entries => self.entries@[i as int]));
        }
        r
    }
}

/// When the scan stopped on an equal key at position `i`, insertion
/// replaces that entry in place.
pub proof fn lemma_obj_insert_update<V>(
    entries: Seq<(Seq<char>, V)>,
    k: Seq<char>,
    v: V,
    i: int,
)
    requires
        entries_sorted(entries),
        0 <= i < entries.len(),
        forall|j: int| 0 <= j < i ==> key_lt(#[trigger] entries[j].0, k),
        entries[i].0 == k,
    ensures
        obj_insert(entries, k, v) == entries.update(i, (k, v)),
    decreases i,
{
    lemma_key_lt_trichotomy(k, entries[0].0);
    if i == 0 {
        assert(obj_insert(entries, k, v) =~= entries.update(0, (k, v)));
    } else {
        assert(key_lt(entries[0].0, k));
        assert forall|j: int|
            0 <= j < i - 1 implies key_lt(#[trigger] entries.drop_first()[j].0, k) by {
            assert(entries.drop_first()[j] == entries[j + 1]);
        }
        assert forall|a: int, b: int|
            0 <= a < b < entries.drop_first().len() implies key_lt(
            entries.drop_first()[a].0,
            entries.drop_first()[b].0,
        ) by {
            assert(entries.drop_first()[a] == entries[a + 1]);
            assert(entries.drop_first()[b] == entries[b + 1]);
        }
        assert(entries.drop_first()[i - 1] == entries[i]);
        lemma_obj_insert_update(entries.drop_first(), k, v, i - 1);
        assert(obj_insert(entries, k, v) =~= entries.update(i, (k, v)));
    }
}

/// When the scan stopped at position `i` on a greater key (or the end),
/// insertion splices the new entry in at `i`.
pub proof fn lemma_obj_insert_splice<V>(
    entries: Seq<(Seq<char>, V)>,
    k: Seq<char>,
    v: V,
    i: int,
)
    requires
        entries_sorted(entries),
        0 <= i <= entries.len(),
        forall|j: int| 0 <= j < i ==> key_lt(#[trigger] entries[j].0, k),
        i < entries.len() ==> key_lt(k, entries[i].0),
    ensures
        obj_insert(entries, k, v) == entries.insert(i, (k, v)),
    decreases i,
{
    if entries.len() == 0 {
        assert(obj_insert(entries, k, v) =~= entries.insert(0, (k, v)));
    } else if i == 0 {
        lemma_key_lt_trichotomy(k, entries[0].0);
        assert(obj_insert(entries, k, v) =~= entries.insert(0, (k, v)));
    } else {
        lemma_key_lt_trichotomy(k, entries[0].0);
        assert(key_lt(entries[0].0, k));
        assert forall|j: int|
            0 <= j < i - 1 implies key_lt(#[trigger] entries.drop_first()[j].0, k) by {
            assert(entries.drop_first()[j] == entries[j + 1]);
        }
        assert forall|a: int, b: int|
            0 <= a < b < entries.drop_first().len() implies key_lt(
            entries.drop_first()[a].0,
            entries.drop_first()[b].0,
        ) by {
            assert(entries.drop_first()[a] == entries[a + 1]);
            assert(entries.drop_first()[b] == entries[b + 1]);
        }
        if i - 1 < entries.drop_first().len() {
            assert(entries.drop_first()[i - 1] == entries[i]);
        }
        lemma_obj_insert_splice(entries.drop_first(), k, v, i - 1);
        assert(obj_insert(entries, k, v) =~= entries.insert(i, (k, v)));
    }
}

} // verus!
