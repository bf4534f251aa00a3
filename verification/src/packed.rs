//! The packed archive and the versioned document.
//!
//! An archive starts with the literal `SBAsset6` and an 8-byte big-endian
//! offset of its index section.  The index is the literal `INDEX`, a
//! metadata object, and a directory table: a varint entry count followed
//! by entries of a length-prefixed path, an 8-byte signed start offset,
//! and an 8-byte signed length.  A document is the literal `SBVJ01`, a
//! length-prefixed identifier, an optional big-endian 32-bit version, and
//! one tagged value.
//!
//! Both are parsed eagerly when opened: either the whole index or
//! envelope parses, or opening fails and nothing is retained.

use vstd::prelude::*;
use vstd::slice::slice_subrange;
use vstd::utf8::encode_utf8;

use crate::bson::{
    parse_maybe_u32, parse_str, spec_parse_maybe_u32, spec_parse_object, spec_parse_str,
    spec_parse_value, MAX_DEPTH,
};
use crate::endian::{be_bytes, be_fold, be_fold_signed, read_be_i64, read_be_u64, write_be};
use crate::error::{err_at, framed, ErrModel, Error, ErrorKind, Rule};
use crate::order::{key_lt, str_compare, StrOrder};
use crate::value::{
    encoding, entries_sorted, lemma_obj_insert_shape, lemma_obj_insert_sorted,
    lemma_obj_insert_splice, lemma_obj_insert_update, obj_get, obj_insert, str_encoding,
    wf_entry_values, wf_model, ObjectMap, Value, ValueModel,
};

verus! {

/// The magic literal at the start of an archive file.
pub open spec fn archive_magic() -> Seq<u8> {
    seq![0x53u8, 0x42, 0x41, 0x73, 0x73, 0x65, 0x74, 0x36]
}

/// The magic literal at the start of the index section.
pub open spec fn index_magic() -> Seq<u8> {
    seq![0x49u8, 0x4e, 0x44, 0x45, 0x58]
}

/// The magic literal at the start of a document file.
pub open spec fn document_magic() -> Seq<u8> {
    seq![0x53u8, 0x42, 0x56, 0x4a, 0x30, 0x31]
}

/// Whether `pat` occurs in `bytes` at `pos`.
pub open spec fn has_at(bytes: Seq<u8>, pos: int, pat: Seq<u8>) -> bool {
    0 <= pos && pos + pat.len() <= bytes.len() && bytes.subrange(pos, pos + pat.len()) == pat
}

/// Compares the bytes at `pos` against `pat`.
fn match_bytes(input: &[u8], pos: usize, pat: &[u8]) -> (r: bool)
    ensures
        r == has_at(input@, pos as int, pat@),
{
    let n = pat.len();
    if input.len() < n || pos > input.len() - n {
        return false;
    }
    let total = input.len();
    let mut i: usize = 0;
    while i < n
        invariant
            0 <= i <= n,
            n == pat@.len(),
            total == input@.len(),
            pos + n <= input@.len(),
            forall|j: int| 0 <= j < i ==> input@[pos + j] == pat@[j],
        decreases n - i,
    {
        if input[pos + i] != pat[i] {
            proof {
                assert(input@.subrange(pos as int, pos + pat@.len())[i as int] != pat@[i as int]);
            }
            return false;
        }
        i = i + 1;
    }
    proof {
        assert(input@.subrange(pos as int, pos + pat@.len()) =~= pat@);
    }
    true
}

/// The directory of an archive: a mapping from archive-relative path to a
/// `(start, length)` byte range, keys unique and sorted.
#[derive(Debug, PartialEq)]
pub struct Directory {
    entries: Vec<(String, (i64, i64))>,
}

/// The models of a sequence of directory entries, in order.
pub open spec fn view_dir_entries(s: Seq<(String, (i64, i64))>) -> Seq<(Seq<char>, (i64, i64))>
    decreases s,
{
    if s.len() == 0 {
        Seq::empty()
    } else {
        view_dir_entries(s.drop_last()).push((s.last().0@, s.last().1))
    }
}

/// `view_dir_entries` maps the sequence pointwise.
proof fn lemma_view_dir_entries(s: Seq<(String, (i64, i64))>)
    ensures
        view_dir_entries(s).len() == s.len(),
        forall|i: int| 0 <= i < s.len() ==> view_dir_entries(s)[i] == (s[i].0@, s[i].1),
    decreases s,
{
    if s.len() > 0 {
        lemma_view_dir_entries(s.drop_last());
        assert(view_dir_entries(s) == view_dir_entries(s.drop_last()).push(
            (s.last().0@, s.last().1),
        ));
        assert forall|i: int|
            0 <= i < s.len() implies view_dir_entries(s)[i] == (s[i].0@, s[i].1) by {
            if i < s.len() - 1 {
                assert(view_dir_entries(s)[i] == view_dir_entries(s.drop_last())[i]);
                assert(s.drop_last()[i] == s[i]);
            } else {
                assert(s.last() == s[i]);
            }
        }
    }
}

impl View for Directory {
    type V = Seq<(Seq<char>, (i64, i64))>;

    closed spec fn view(&self) -> Seq<(Seq<char>, (i64, i64))> {
        view_dir_entries(self.entries@)
    }
}

impl Directory {
    /// An empty directory.
    pub fn new() -> (r: Directory)
        ensures
            r@ == Seq::<(Seq<char>, (i64, i64))>::empty(),
    {
        let r = Directory { entries: Vec::new() };
        proof {
            assert(r@ =~= Seq::<(Seq<char>, (i64, i64))>::empty());
        }
        r
    }

    /// Whether this directory's paths are strictly sorted.
    pub open spec fn wf(&self) -> bool {
        entries_sorted(self@)
    }

    /// The number of entries.
    pub fn len(&self) -> (n: usize)
        ensures
            n == self@.len(),
    {
        proof {
            lemma_view_dir_entries(self.entries@);
        }
        self.entries.len()
    }

    /// Binds `path` to `range`; an existing binding of an equal path is
    /// replaced.
    pub fn insert(&mut self, path: String, range: (i64, i64))
        requires
            old(self).wf(),
        ensures
            final(self)@ == obj_insert(old(self)@, path@, range),
            final(self).wf(),
    {
        proof {
            lemma_view_dir_entries(self.entries@);
            lemma_obj_insert_sorted(self@, path@, range);
        }
        let ghost orig = self@;
        let mut i: usize = 0;
        let n = self.entries.len();
        while i < n && matches!(
            str_compare(self.entries[i].0.as_str(), path.as_str()),
            StrOrder::Less,
        )
            invariant
                0 <= i <= n,
                n == self.entries@.len(),
                self@ == orig,
                self.wf(),
                view_dir_entries(self.entries@) == self@,
                forall|j: int| 0 <= j < i ==> key_lt(#[trigger] self@[j].0, path@),
            decreases n - i,
        {
            proof {
                lemma_view_dir_entries(self.entries@);
            }
            i = i + 1;
        }
        proof {
            lemma_view_dir_entries(self.entries@);
        }
        if i < n && matches!(
            str_compare(self.entries[i].0.as_str(), path.as_str()),
            StrOrder::Equal,
        ) {
            let ghost pre = self.entries@;
            self.entries.set(i, (path, range));
            proof {
                lemma_view_dir_entries(pre);
                lemma_view_dir_entries(self.entries@);
                lemma_obj_insert_update(orig, path@, range, i as int);
                assert(view_dir_entries(self.entries@) =~= obj_insert(orig, path@, range));
            }
        } else {
            let ghost pre = self.entries@;
            self.entries.insert(i, (path, range));
            proof {
                lemma_view_dir_entries(pre);
                lemma_view_dir_entries(self.entries@);
                if i < n {
                    crate::order::lemma_key_lt_trichotomy(pre[i as int].0@, path@);
                }
                lemma_obj_insert_splice(orig, path@, range, i as int);
                assert(view_dir_entries(self.entries@) =~= obj_insert(orig, path@, range));
            }
        }
    }

    /// The range bound to `path`, if any.
    pub fn get(&self, path: &str) -> (r: Option<(i64, i64)>)
        ensures
            r == obj_get(self@, path@),
    {
        proof {
            lemma_view_dir_entries(self.entries@);
            assert(self@.skip(0) =~= self@);
        }
        let n = self.entries.len();
        let mut i: usize = 0;
        while i < n
            invariant
                0 <= i <= n,
                n == self.entries@.len(),
                view_dir_entries(self.entries@) == self@,
                self@.len() == n,
                obj_get(self@, path@) == obj_get(self@.skip(i as int), path@),
            decreases n - i,
        {
            proof {
                lemma_view_dir_entries(self.entries@);
                assert(self@.skip(i as int)[0] == self@[i as int]);
                assert(self@.skip(i as int).drop_first() =~= self@.skip(i + 1));
            }
            if matches!(str_compare(self.entries[i].0.as_str(), path), StrOrder::Equal) {
                return Some(self.entries[i].1);
            }
            i = i + 1;
        }
        proof {
            assert(self@.skip(i as int).len() == 0);
        }
        None
    }

    /// The paths, in sorted order.
    pub fn keys(&self) -> (r: Vec<String>)
        ensures
            r@.len() == self@.len(),
            forall|i: int| 0 <= i < r@.len() ==> #[trigger] r@[i]@ == self@[i].0,
    {
        proof {
            lemma_view_dir_entries(self.entries@);
        }
        let n = self.entries.len();
        let mut r: Vec<String> = Vec::new();
        let mut i: usize = 0;
        while i < n
            invariant
                0 <= i <= n,
                n == self.entries@.len(),
                view_dir_entries(self.entries@) == self@,
                self@.len() == n,
                r@.len() == i,
                forall|j: int| 0 <= j < i ==> #[trigger] r@[j]@ == self@[j].0,
            decreases n - i,
        {
            proof {
                lemma_view_dir_entries(self.entries@);
            }
            r.push(self.entries[i].0.clone());
            i = i + 1;
        }
        r
    }
}

// --- the index section ---

/// One directory entry at `pos`: a length-prefixed path, then two 8-byte
/// signed big-endian fields, the start offset and the length.  An entry
/// whose range does not lie within the `total` bytes of the archive is a
/// truncation failure: the directory promises bytes the region does not
/// hold.
pub open spec fn spec_parse_dir_entry(bytes: Seq<u8>, pos: int) -> Result<
    ((Seq<char>, (i64, i64)), int),
    ErrModel,
> {
    match spec_parse_str(bytes, pos) {
        Ok((path, p2)) => {
            if p2 + 16 <= bytes.len() {
                let start = be_fold_signed(bytes.subrange(p2, p2 + 8)) as i64;
                let len = be_fold_signed(bytes.subrange(p2 + 8, p2 + 16)) as i64;
                if 0 <= start && 0 <= len && start + len <= bytes.len() {
                    Ok(((path, (start, len)), p2 + 16))
                } else {
                    Err(framed(err_at(ErrorKind::TruncatedInput, bytes.len() as int), Rule::Entry, pos))
                }
            } else {
                Err(framed(err_at(ErrorKind::TruncatedInput, bytes.len() as int), Rule::Entry, pos))
            }
        },
        Err(e) => Err(framed(e, Rule::Entry, pos)),
    }
}

/// `count` directory entries starting at `pos`, folded into `acc`; a
/// later duplicate path overwrites an earlier one.
pub open spec fn spec_parse_dir_entries(
    bytes: Seq<u8>,
    pos: int,
    count: nat,
    acc: Seq<(Seq<char>, (i64, i64))>,
) -> Result<(Seq<(Seq<char>, (i64, i64))>, int), ErrModel>
    decreases count,
{
    if count == 0 {
        Ok((acc, pos))
    } else {
        match spec_parse_dir_entry(bytes, pos) {
            Ok(((path, range), end)) => spec_parse_dir_entries(
                bytes,
                end,
                (count - 1) as nat,
                obj_insert(acc, path, range),
            ),
            Err(e) => Err(e),
        }
    }
}

/// The directory table at `pos`: a varint entry count, then the entries.
pub open spec fn spec_parse_directory(bytes: Seq<u8>, pos: int) -> Result<
    (Seq<(Seq<char>, (i64, i64))>, int),
    ErrModel,
> {
    match crate::bson::spec_read_vlqu(bytes, pos) {
        Ok((n, body)) => match spec_parse_dir_entries(bytes, body, n as nat, Seq::empty()) {
            Ok(ok) => Ok(ok),
            Err(e) => Err(framed(e, Rule::Directory, pos)),
        },
        Err(e) => Err(framed(e, Rule::Directory, pos)),
    }
}

/// The archive metadata at `pos`: a bare object payload.
pub open spec fn spec_parse_metadata(bytes: Seq<u8>, pos: int) -> Result<
    (Seq<(Seq<char>, ValueModel)>, int),
    ErrModel,
> {
    match spec_parse_object(bytes, pos, MAX_DEPTH as nat) {
        Ok(ok) => Ok(ok),
        Err(e) => Err(framed(e, Rule::Metadata, pos)),
    }
}

/// The index section at `pos`: the literal `INDEX`, the metadata object,
/// and the directory table.
pub open spec fn spec_parse_index(bytes: Seq<u8>, pos: int) -> Result<
    ((Seq<(Seq<char>, ValueModel)>, Seq<(Seq<char>, (i64, i64))>), int),
    ErrModel,
> {
    if pos < 0 || pos + 5 > bytes.len() {
        Err(framed(err_at(ErrorKind::TruncatedInput, bytes.len() as int), Rule::Index, pos))
    } else if bytes.subrange(pos, pos + 5) != index_magic() {
        Err(framed(err_at(ErrorKind::MalformedHeader, pos), Rule::Index, pos))
    } else {
        match spec_parse_metadata(bytes, pos + 5) {
            Ok((meta, p2)) => match spec_parse_directory(bytes, p2) {
                Ok((dir, end)) => Ok(((meta, dir), end)),
                Err(e) => Err(framed(e, Rule::Index, pos)),
            },
            Err(e) => Err(framed(e, Rule::Index, pos)),
        }
    }
}

/// Parses one directory entry at `pos`.
fn parse_dir_entry(input: &[u8], pos: usize) -> (r: Result<((String, (i64, i64)), usize), Error>)
    ensures
        match r {
            Ok(((path, range), end)) => {
                &&& spec_parse_dir_entry(input@, pos as int) == Ok::<_, ErrModel>(
                    ((path@, range), end as int),
                )
                &&& pos <= end <= input@.len()
                &&& 0 <= range.0 && 0 <= range.1 && range.0 + range.1 <= input@.len()
            },
            Err(e) => spec_parse_dir_entry(input@, pos as int) == Err::<
                ((Seq<char>, (i64, i64)), int),
                _,
            >(e@),
        },
{
    let (path, p2) = match parse_str(input, pos) {
        Ok(ok) => ok,
        Err(e) => {
            return Err(e.with_frame(Rule::Entry, pos));
        },
    };
    if input.len() - p2 < 16 {
        return Err(Error::new(ErrorKind::TruncatedInput, input.len()).with_frame(Rule::Entry, pos));
    }
    let (start, p3) = match read_be_i64(input, p2) {
        Ok(ok) => ok,
        Err(e) => {
            return Err(Error::new(ErrorKind::TruncatedInput, input.len()).with_frame(
                Rule::Entry,
                pos,
            ));
        },
    };
    let (len, p4) = match read_be_i64(input, p3) {
        Ok(ok) => ok,
        Err(e) => {
            return Err(Error::new(ErrorKind::TruncatedInput, input.len()).with_frame(
                Rule::Entry,
                pos,
            ));
        },
    };
    if start < 0 || len < 0 {
        return Err(Error::new(ErrorKind::TruncatedInput, input.len()).with_frame(Rule::Entry, pos));
    }
    if (start as u64) > input.len() as u64 || (len as u64) > input.len() as u64 - (start as u64) {
        return Err(Error::new(ErrorKind::TruncatedInput, input.len()).with_frame(Rule::Entry, pos));
    }
    Ok(((path, (start, len)), p4))
}

/// Parses the directory table at `pos`.
fn parse_directory(input: &[u8], pos: usize) -> (r: Result<(Directory, usize), Error>)
    ensures
        match r {
            Ok((dir, end)) => {
                &&& spec_parse_directory(input@, pos as int) == Ok::<_, ErrModel>(
                    (dir@, end as int),
                )
                &&& dir.wf()
                &&& dir_ranges_ok(dir@, input@.len() as int)
                &&& pos <= end <= input@.len()
            },
            Err(e) => spec_parse_directory(input@, pos as int) == Err::<
                (Seq<(Seq<char>, (i64, i64))>, int),
                _,
            >(e@),
        },
{
    let (n, body) = match crate::vlq::read_vlqu64(input, pos) {
        Ok(ok) => ok,
        Err(e) => {
            proof {
                assert(spec_parse_directory(input@, pos as int) == Err::<
                    (Seq<(Seq<char>, (i64, i64))>, int),
                    _,
                >(framed(e@, Rule::Directory, pos as int)));
            }
            return Err(e.with_frame(Rule::Directory, pos));
        },
    };
    let mut dir = Directory::new();
    let mut p = body;
    let mut k: u64 = 0;
    proof {
        assert(crate::bson::spec_read_vlqu(input@, pos as int) == Ok::<_, ErrModel>(
            (n, body as int),
        ));
    }
    while k < n
        invariant
            0 <= k <= n,
            body <= p <= input@.len(),
            crate::bson::spec_read_vlqu(input@, pos as int) == Ok::<_, ErrModel>((n, body as int)),
            dir.wf(),
            dir_ranges_ok(dir@, input@.len() as int),
            spec_parse_dir_entries(input@, body as int, n as nat, Seq::empty())
                == spec_parse_dir_entries(input@, p as int, (n - k) as nat, dir@),
        decreases n - k,
    {
        let ghost acc = dir@;
        let ((path, range), end) = match parse_dir_entry(input, p) {
            Ok(ok) => ok,
            Err(e) => {
                proof {
                    assert(spec_parse_dir_entries(input@, p as int, (n - k) as nat, acc)
                        == Err::<(Seq<(Seq<char>, (i64, i64))>, int), _>(e@));
                    assert(spec_parse_directory(input@, pos as int) == Err::<
                        (Seq<(Seq<char>, (i64, i64))>, int),
                        _,
                    >(framed(e@, Rule::Directory, pos as int)));
                }
                return Err(e.with_frame(Rule::Directory, pos));
            },
        };
        proof {
            assert(spec_parse_dir_entries(input@, p as int, (n - k) as nat, acc)
                == spec_parse_dir_entries(
                input@,
                end as int,
                (n - k - 1) as nat,
                obj_insert(acc, path@, range),
            ));
            lemma_dir_ranges_ok_insert(acc, path@, range, input@.len() as int);
        }
        dir.insert(path, range);
        p = end;
        k = k + 1;
    }
    proof {
        assert(spec_parse_dir_entries(input@, p as int, 0, dir@) == Ok::<_, ErrModel>(
            (dir@, p as int),
        ));
        assert(spec_parse_directory(input@, pos as int) == Ok::<_, ErrModel>((dir@, p as int)));
    }
    Ok((dir, p))
}

/// Every directory range lies within a region of `total` bytes.
pub open spec fn dir_ranges_ok(dir: Seq<(Seq<char>, (i64, i64))>, total: int) -> bool {
    forall|i: int|
        0 <= i < dir.len() ==> {
            let range = (#[trigger] dir[i]).1;
            0 <= range.0 && 0 <= range.1 && range.0 + range.1 <= total
        }
}

/// Inserting an in-bounds range keeps every range in bounds.
proof fn lemma_dir_ranges_ok_insert(
    dir: Seq<(Seq<char>, (i64, i64))>,
    path: Seq<char>,
    range: (i64, i64),
    total: int,
)
    requires
        dir_ranges_ok(dir, total),
        0 <= range.0 && 0 <= range.1 && range.0 + range.1 <= total,
    ensures
        dir_ranges_ok(obj_insert(dir, path, range), total),
{
    lemma_obj_insert_shape(dir, path, range);
    let out = obj_insert(dir, path, range);
    assert forall|i: int|
        0 <= i < out.len() implies {
        let r = (#[trigger] out[i]).1;
        0 <= r.0 && 0 <= r.1 && r.0 + r.1 <= total
    } by {
        if out[i] != (path, range) {
            let j = choose|j: int| 0 <= j < dir.len() && out[i] == dir[j];
            assert(dir[j].1 == out[i].1);
        }
    }
}

/// Parses the archive metadata object at `pos`.
fn parse_metadata(input: &[u8], pos: usize) -> (r: Result<(ObjectMap, usize), Error>)
    ensures
        match r {
            Ok((meta, end)) => {
                &&& spec_parse_metadata(input@, pos as int) == Ok::<_, ErrModel>(
                    (meta@, end as int),
                )
                &&& entries_sorted(meta@)
                &&& wf_entry_values(meta@)
                &&& pos <= end <= input@.len()
            },
            Err(e) => spec_parse_metadata(input@, pos as int) == Err::<
                (Seq<(Seq<char>, ValueModel)>, int),
                _,
            >(e@),
        },
{
    match crate::bson::parse_object(input, pos) {
        Ok((v, end)) => match v {
            Value::Object(map) => Ok((map, end)),
            _ => vstd::pervasive::unreached(),
        },
        Err(e) => Err(e.with_frame(Rule::Metadata, pos)),
    }
}

// --- the packed archive ---

/// The archive metadata: an object mapping string keys to values.
pub type Metadata = ObjectMap;

/// The parsed index of an archive: metadata and directory.
#[derive(Debug, PartialEq)]
pub struct Index {
    meta: ObjectMap,
    dir: Directory,
}

/// Mathematical model of an opened archive: the backing bytes, the
/// metadata entries, and the directory entries.
#[verifier::ext_equal]
pub struct ArchiveModel {
    pub data: Seq<u8>,
    pub meta: Seq<(Seq<char>, ValueModel)>,
    pub dir: Seq<(Seq<char>, (i64, i64))>,
}

/// An opened packed archive: the whole file's bytes and the index parsed
/// from them.  File lookups return slices borrowed from the backing
/// bytes.
#[derive(Debug, PartialEq)]
pub struct PackedAssets {
    data: Vec<u8>,
    index: Index,
}

impl View for PackedAssets {
    type V = ArchiveModel;

    closed spec fn view(&self) -> ArchiveModel {
        ArchiveModel { data: self.data@, meta: self.index.meta@, dir: self.index.dir@ }
    }
}

/// What opening an archive yields from its bytes: the metadata entries
/// and the directory entries, or the failure.
pub open spec fn spec_open_archive(bytes: Seq<u8>) -> Result<
    (Seq<(Seq<char>, ValueModel)>, Seq<(Seq<char>, (i64, i64))>),
    ErrModel,
> {
    if !has_at(bytes, 0, archive_magic()) {
        Err(framed(err_at(ErrorKind::MalformedHeader, 0), Rule::Header, 0))
    } else if bytes.len() < 16 {
        Err(framed(err_at(ErrorKind::TruncatedInput, bytes.len() as int), Rule::Header, 0))
    } else {
        let off = be_fold(bytes.subrange(8, 16));
        if off > bytes.len() {
            Err(framed(err_at(ErrorKind::TruncatedInput, bytes.len() as int), Rule::Header, 0))
        } else {
            match spec_parse_index(bytes, off as int) {
                Ok(((meta, dir), _end)) => Ok((meta, dir)),
                Err(e) => Err(e),
            }
        }
    }
}

/// Parses the index section at `pos`.
fn parse_index(input: &[u8], pos: usize) -> (r: Result<(Index, usize), Error>)
    ensures
        match r {
            Ok((idx, end)) => {
                &&& spec_parse_index(input@, pos as int) == Ok::<_, ErrModel>(
                    ((idx.meta@, idx.dir@), end as int),
                )
                &&& entries_sorted(idx.meta@)
                &&& wf_entry_values(idx.meta@)
                &&& idx.dir.wf()
                &&& dir_ranges_ok(idx.dir@, input@.len() as int)
                &&& pos <= end <= input@.len()
            },
            Err(e) => spec_parse_index(input@, pos as int) == Err::<
                ((Seq<(Seq<char>, ValueModel)>, Seq<(Seq<char>, (i64, i64))>), int),
                _,
            >(e@),
        },
{
    let magic = index_magic_vec();
    if input.len() < 5 || pos > input.len() - 5 {
        return Err(Error::new(ErrorKind::TruncatedInput, input.len()).with_frame(Rule::Index, pos));
    }
    if !match_bytes(input, pos, magic.as_slice()) {
        return Err(Error::new(ErrorKind::MalformedHeader, pos).with_frame(Rule::Index, pos));
    }
    let (meta, p2) = match parse_metadata(input, pos + 5) {
        Ok(ok) => ok,
        Err(e) => {
            return Err(e.with_frame(Rule::Index, pos));
        },
    };
    let (dir, end) = match parse_directory(input, p2) {
        Ok(ok) => ok,
        Err(e) => {
            return Err(e.with_frame(Rule::Index, pos));
        },
    };
    Ok((Index { meta, dir }, end))
}

/// The archive magic as bytes.
fn archive_magic_vec() -> (r: Vec<u8>)
    ensures
        r@ == archive_magic(),
{
    let mut v: Vec<u8> = Vec::new();
    v.push(0x53);
    v.push(0x42);
    v.push(0x41);
    v.push(0x73);
    v.push(0x73);
    v.push(0x65);
    v.push(0x74);
    v.push(0x36);
    proof {
        assert(v@ =~= archive_magic());
    }
    v
}

/// The index magic as bytes.
fn index_magic_vec() -> (r: Vec<u8>)
    ensures
        r@ == index_magic(),
{
    let mut v: Vec<u8> = Vec::new();
    v.push(0x49);
    v.push(0x4e);
    v.push(0x44);
    v.push(0x45);
    v.push(0x58);
    proof {
        assert(v@ =~= index_magic());
    }
    v
}

/// The document magic as bytes.
fn document_magic_vec() -> (r: Vec<u8>)
    ensures
        r@ == document_magic(),
{
    let mut v: Vec<u8> = Vec::new();
    v.push(0x53);
    v.push(0x42);
    v.push(0x56);
    v.push(0x4a);
    v.push(0x30);
    v.push(0x31);
    proof {
        assert(v@ =~= document_magic());
    }
    v
}

impl PackedAssets {
    /// The well-formedness an opened archive guarantees: sorted unique
    /// metadata keys and directory paths, and every directory range
    /// within the backing bytes.
    pub open spec fn wf(&self) -> bool {
        &&& entries_sorted(self@.meta)
        &&& wf_entry_values(self@.meta)
        &&& entries_sorted(self@.dir)
        &&& dir_ranges_ok(self@.dir, self@.data.len() as int)
    }

    /// Opens an archive from its bytes: verifies the magic, reads the
    /// index offset, and parses the index section.  All or nothing: on
    /// any failure no partial state is returned.
    pub fn new(data: Vec<u8>) -> (r: Result<PackedAssets, Error>)
        ensures
            match r {
                Ok(pa) => {
                    &&& pa@.data == data@
                    &&& spec_open_archive(data@) == Ok::<_, ErrModel>((pa@.meta, pa@.dir))
                    &&& pa.wf()
                },
                Err(e) => spec_open_archive(data@) == Err::<
                    (Seq<(Seq<char>, ValueModel)>, Seq<(Seq<char>, (i64, i64))>),
                    _,
                >(e@),
            },
    {
        let magic = archive_magic_vec();
        if !match_bytes(data.as_slice(), 0, magic.as_slice()) {
            return Err(Error::new(ErrorKind::MalformedHeader, 0).with_frame(Rule::Header, 0));
        }
        if data.len() < 16 {
            return Err(
                Error::new(ErrorKind::TruncatedInput, data.len()).with_frame(Rule::Header, 0),
            );
        }
        let (off, _) = match read_be_u64(data.as_slice(), 8) {
            Ok(ok) => ok,
            Err(_) => vstd::pervasive::unreached(),
        };
        if off > data.len() as u64 {
            return Err(
                Error::new(ErrorKind::TruncatedInput, data.len()).with_frame(Rule::Header, 0),
            );
        }
        let (index, _end) = match parse_index(data.as_slice(), off as usize) {
            Ok(ok) => ok,
            Err(e) => {
                return Err(e);
            },
        };
        Ok(PackedAssets { data, index })
    }

    /// The known archive paths, in sorted order.
    pub fn assets(&self) -> (r: Vec<String>)
        ensures
            r@.len() == self@.dir.len(),
            forall|i: int| 0 <= i < r@.len() ==> #[trigger] r@[i]@ == self@.dir[i].0,
    {
        self.index.dir.keys()
    }

    /// A copy of the archive metadata object.
    pub fn metadata(&self) -> (r: ObjectMap)
        ensures
            r@ == self@.meta,
    {
        self.index.meta.duplicate()
    }

    /// The bytes of the file at `path`: the slice of the backing region
    /// that the directory entry names, or nothing when the path is
    /// unknown.
    pub fn file(&self, path: &str) -> (r: Option<&[u8]>)
        requires
            self.wf(),
        ensures
            match obj_get(self@.dir, path@) {
                Some(range) => {
                    &&& r is Some
                    &&& r->0@ == self@.data.subrange(range.0 as int, range.0 + range.1)
                },
                None => r is None,
            },
    {
        let total = self.data.len();
        let (start, len) = match self.index.dir.get(path) {
            Some(range) => range,
            None => {
                return None;
            },
        };
        proof {
            lemma_obj_get_present(self.index.dir@, path@);
            let i = choose|i: int|
                0 <= i < self@.dir.len() && #[trigger] self@.dir[i] == (path@, (start, len));
            assert(self@.dir[i].1 == (start, len));
            assert(0 <= start && 0 <= len && start + len <= self@.data.len());
        }
        let s = start as usize;
        let l = len as usize;
        Some(slice_subrange(self.data.as_slice(), s, s + l))
    }
}

/// A value returned by a lookup is the value of some entry.
proof fn lemma_obj_get_present<V>(entries: Seq<(Seq<char>, V)>, k: Seq<char>)
    ensures
        obj_get(entries, k) matches Some(v) ==> exists|i: int|
            0 <= i < entries.len() && #[trigger] entries[i] == (k, v),
    decreases entries.len(),
{
    if entries.len() > 0 {
        if entries[0].0 == k {
            assert(entries[0] == (k, entries[0].1));
        } else {
            lemma_obj_get_present(entries.drop_first(), k);
            if obj_get(entries, k) is Some {
                let v = obj_get(entries, k)->0;
                let i = choose|i: int|
                    0 <= i < entries.drop_first().len() && #[trigger] entries.drop_first()[i] == (
                    k,
                    v,
                );
                assert(entries[i + 1] == entries.drop_first()[i]);
            }
        }
    }
}

// --- the versioned document ---

/// A versioned document: an identifier, a version counter, and a typed
/// content value.
#[derive(Debug, PartialEq)]
pub struct VersionedJson {
    pub identifier: String,
    pub version: u32,
    pub content: Value,
}

/// The envelope after the document magic: a length-prefixed identifier,
/// an optional big-endian 32-bit version (0 when absent), and one tagged
/// value.
pub open spec fn spec_parse_versioned_json(bytes: Seq<u8>, pos: int) -> Result<
    ((Seq<char>, u32, ValueModel), int),
    ErrModel,
> {
    match spec_parse_str(bytes, pos) {
        Ok((id, p2)) => match spec_parse_maybe_u32(bytes, p2) {
            Ok((v, p3)) => match spec_parse_value(bytes, p3, MAX_DEPTH as nat) {
                Ok((content, end)) => Ok(
                    (
                        (
                            id,
                            if v is Some {
                                v->0
                            } else {
                                0u32
                            },
                            content,
                        ),
                        end,
                    ),
                ),
                Err(e) => Err(framed(e, Rule::Document, pos)),
            },
            Err(e) => Err(framed(e, Rule::Document, pos)),
        },
        Err(e) => Err(framed(e, Rule::Document, pos)),
    }
}

/// What opening a document yields from its bytes: identifier, version,
/// and content, or the failure.
pub open spec fn spec_open_document(bytes: Seq<u8>) -> Result<
    (Seq<char>, u32, ValueModel),
    ErrModel,
> {
    if !has_at(bytes, 0, document_magic()) {
        Err(framed(err_at(ErrorKind::MalformedHeader, 0), Rule::Header, 0))
    } else {
        match spec_parse_versioned_json(bytes, 6) {
            Ok(((id, version, content), _end)) => Ok((id, version, content)),
            Err(e) => Err(e),
        }
    }
}

/// Parses the document envelope at `pos`.
fn parse_versioned_json(input: &[u8], pos: usize) -> (r: Result<(VersionedJson, usize), Error>)
    ensures
        match r {
            Ok((doc, end)) => {
                &&& spec_parse_versioned_json(input@, pos as int) == Ok::<_, ErrModel>(
                    ((doc.identifier@, doc.version, doc.content@), end as int),
                )
                &&& wf_model(doc.content@)
                &&& pos <= end <= input@.len()
            },
            Err(e) => spec_parse_versioned_json(input@, pos as int) == Err::<
                ((Seq<char>, u32, ValueModel), int),
                _,
            >(e@),
        },
{
    let (identifier, p2) = match parse_str(input, pos) {
        Ok(ok) => ok,
        Err(e) => {
            return Err(e.with_frame(Rule::Document, pos));
        },
    };
    let (maybe_version, p3) = match parse_maybe_u32(input, p2) {
        Ok(ok) => ok,
        Err(e) => {
            return Err(e.with_frame(Rule::Document, pos));
        },
    };
    let (content, end) = match crate::bson::parse_bson(input, p3) {
        Ok(ok) => ok,
        Err(e) => {
            return Err(e.with_frame(Rule::Document, pos));
        },
    };
    let version = match maybe_version {
        Some(v) => v,
        None => 0,
    };
    Ok((VersionedJson { identifier, version, content }, end))
}

/// A parsed player save file: its versioned document.
#[derive(Debug, PartialEq)]
pub struct Player {
    pub contents: VersionedJson,
}

impl Player {
    /// Opens a document from its bytes: verifies the magic and parses
    /// the envelope.  All or nothing: on any failure no partial state is
    /// returned.
    pub fn new(data: &[u8]) -> (r: Result<Player, Error>)
        ensures
            match r {
                Ok(p) => {
                    &&& spec_open_document(data@) == Ok::<_, ErrModel>(
                        (p.contents.identifier@, p.contents.version, p.contents.content@),
                    )
                    &&& wf_model(p.contents.content@)
                },
                Err(e) => spec_open_document(data@) == Err::<(Seq<char>, u32, ValueModel), _>(e@),
            },
    {
        let magic = document_magic_vec();
        if !match_bytes(data, 0, magic.as_slice()) {
            return Err(Error::new(ErrorKind::MalformedHeader, 0).with_frame(Rule::Header, 0));
        }
        let (contents, _end) = match parse_versioned_json(data, 6) {
            Ok(ok) => ok,
            Err(e) => {
                return Err(e);
            },
        };
        Ok(Player { contents })
    }
}

/// The serialized form of a document: the magic, the identifier, the
/// version (always written present), and the content.
pub open spec fn spec_document_bytes(id: Seq<char>, version: u32, content: ValueModel) -> Seq<
    u8,
> {
    document_magic() + str_encoding(id) + seq![1u8] + be_bytes(version as nat, 4) + encoding(
        content,
    )
}

/// Increments the document's version by one and serializes it: the
/// magic, the identifier, the new version, and the content.  The caller
/// is responsible for writing the returned buffer to storage.
pub fn save_versioned_json(json: &mut VersionedJson) -> (out: Vec<u8>)
    requires
        old(json).version < u32::MAX,
    ensures
        final(json).identifier == old(json).identifier,
        final(json).content == old(json).content,
        final(json).version == old(json).version + 1,
        out@ == spec_document_bytes(
            old(json).identifier@,
            (old(json).version + 1) as u32,
            old(json).content@,
        ),
{
    json.version = json.version + 1;
    let mut out = document_magic_vec();
    crate::serializer::write_str(&mut out, json.identifier.as_str());
    out.push(1);
    write_be(&mut out, json.version as u64, 4);
    crate::serializer::write_value(&mut out, &json.content);
    proof {
        assert(out@ =~= spec_document_bytes(
            old(json).identifier@,
            (old(json).version + 1) as u32,
            old(json).content@,
        ));
    }
    out
}

/// Document round trip: opening the serialized form of a document yields
/// its identifier, version, and content back.
#[verifier::rlimit(100)]
pub proof fn lemma_document_round_trip(id: Seq<char>, version: u32, content: ValueModel)
    requires
        encode_utf8(id).len() < 0x10000000000000000,
        wf_model(content),
        crate::value::model_fits(content),
        crate::value::model_depth(content) <= MAX_DEPTH as nat,
    ensures
        spec_open_document(spec_document_bytes(id, version, content)) == Ok::<_, ErrModel>(
            (id, version, content),
        ),
{
    let bytes = spec_document_bytes(id, version, content);
    let m = document_magic();
    let s = str_encoding(id);
    let vb = seq![1u8] + be_bytes(version as nat, 4);
    let e = encoding(content);
    crate::endian::lemma_pow256_values();
    crate::endian::lemma_be_round_trip(version as nat, 4);
    assert(bytes =~= m + s + vb + e);
    assert(bytes.subrange(0, bytes.len() as int) =~= bytes);
    assert(bytes =~= ((m + s) + vb) + e);
    crate::bson::lemma_split_match(bytes, 0, (m + s) + vb, e);
    crate::bson::lemma_split_match(bytes, 0, m + s, vb);
    crate::bson::lemma_split_match(bytes, 0, m, s);
    assert(has_at(bytes, 0, m));
    crate::bson::lemma_parse_str_encoding(bytes, 6, id);
    let p2 = 6 + s.len() as int;
    assert(bytes.subrange(p2, p2 + vb.len()) == vb);
    assert(bytes[p2] == vb[0]);
    assert forall|j: int| 0 <= j < 4 implies bytes.subrange(p2 + 1, p2 + 5)[j] == be_bytes(
        version as nat,
        4,
    )[j] by {
        assert(bytes.subrange(p2, p2 + vb.len())[j + 1] == vb[j + 1]);
    }
    assert(bytes.subrange(p2 + 1, p2 + 5) =~= be_bytes(version as nat, 4));
    assert(spec_parse_maybe_u32(bytes, p2) == Ok::<_, ErrModel>((Some(version), p2 + 5)));
    let p3 = p2 + 5;
    crate::bson::lemma_parse_value_encoding(bytes, p3, content, MAX_DEPTH as nat);
}

} // verus!
