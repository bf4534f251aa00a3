//! Structured, offset-annotated failure reporting for the codec.
//!
//! Every parse failure carries the kind of the terminal cause, the byte
//! offset at which it occurred, and a chain of context frames naming the
//! grammar rules that were being parsed, each with the offset at which the
//! rule was entered.  Frames are pushed while a failure propagates outward,
//! so they run from the innermost rule to the outermost; a renderer that
//! wants to report the outermost rule first walks them in reverse.
//! Rendering is a presentation concern and lives outside this crate.

use vstd::prelude::*;

verus! {

/// The kind of a codec failure.
#[derive(Clone, Copy, Debug, PartialEq, Eq, Structural)]
pub enum ErrorKind {
    /// An expected literal (a magic string) did not match.
    MalformedHeader,
    /// The input ended before a structure was complete.
    TruncatedInput,
    /// An unknown tag byte stood where a value was expected.
    InvalidTag,
    /// A string payload was not valid UTF-8.
    InvalidUtf8,
    /// A number outside the range the format can represent.
    IntegerOverflow,
    /// A shape the format cannot express, such as a sequence whose length
    /// is not known up front.
    UnsupportedShape,
    /// An archive lookup for a path the directory does not hold.
    PathNotFound,
    /// A failure of the underlying storage, reported by a caller that
    /// performs the actual reads.
    IoError,
    /// Values nested more deeply than the parser's recursion allowance.
    DepthLimit,
}

/// A grammar rule, named in diagnostic frames.
#[derive(Clone, Copy, Debug, PartialEq, Eq, Structural)]
pub enum Rule {
    /// A tagged value.
    Value,
    /// The payload of a float value.
    Float,
    /// The payload of a boolean value.
    Boolean,
    /// The payload of an integer value.
    Integer,
    /// A length-prefixed string.
    String,
    /// The payload of an array value.
    Array,
    /// The payload of an object value.
    Object,
    /// A variable-length integer.
    Varint,
    /// The metadata object of an archive index.
    Metadata,
    /// The directory table of an archive index.
    Directory,
    /// One directory entry.
    Entry,
    /// The index section of an archive.
    Index,
    /// The optional version field of a document.
    Version,
    /// The envelope of a versioned document.
    Document,
    /// The magic literal at the start of a file.
    Header,
}

/// One context frame: the rule being parsed and the offset at which it
/// was entered.
#[derive(Clone, Copy, Debug, PartialEq, Eq, Structural)]
pub struct Frame {
    pub rule: Rule,
    pub offset: usize,
}

/// A structured codec failure.
#[derive(Clone, Debug, PartialEq)]
pub struct Error {
    /// The kind of the terminal cause.
    pub kind: ErrorKind,
    /// The byte offset at which the terminal cause occurred.
    pub offset: usize,
    /// Context frames, innermost first.
    pub frames: Vec<Frame>,
}

/// Mathematical model of an [`Error`]: the kind, the terminal offset, and
/// the frame chain as pairs of rule and entry offset, innermost first.
#[verifier::ext_equal]
pub struct ErrModel {
    pub kind: ErrorKind,
    pub offset: int,
    pub frames: Seq<(Rule, int)>,
}

impl View for Error {
    type V = ErrModel;

    open spec fn view(&self) -> ErrModel {
        ErrModel {
            kind: self.kind,
            offset: self.offset as int,
            frames: self.frames@.map_values(|f: Frame| (f.rule, f.offset as int)),
        }
    }
}

/// A failure model with an empty frame chain.
pub open spec fn err_at(kind: ErrorKind, offset: int) -> ErrModel {
    ErrModel { kind, offset, frames: Seq::empty() }
}

/// `e` with one more (outer) frame appended.
pub open spec fn framed(e: ErrModel, rule: Rule, offset: int) -> ErrModel {
    ErrModel { frames: e.frames.push((rule, offset)), ..e }
}

impl Error {
    /// A failure with no context frames yet.
    pub fn new(kind: ErrorKind, offset: usize) -> (e: Error)
        ensures
            e@ == err_at(kind, offset as int),
    {
        let e = Error { kind, offset, frames: Vec::new() };
        proof {
            assert(e@ =~= err_at(kind, offset as int));
        }
        e
    }

    /// Record that the failure happened while parsing `rule`, entered at
    /// `offset`.
    pub fn with_frame(self, rule: Rule, offset: usize) -> (e: Error)
        ensures
            e@ == framed(self@, rule, offset as int),
    {
        let ghost pre = self@;
        let mut frames = self.frames;
        frames.push(Frame { rule, offset });
        let e = Error { kind: self.kind, offset: self.offset, frames };
        proof {
            assert(e@ =~= framed(pre, rule, offset as int));
        }
        e
    }
}

} // verus!
