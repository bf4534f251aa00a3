//! Codec for the Starbound binary container formats: the `SBAsset6` packed
//! archive and the `SBVJ01` versioned-document save file.
//!
//! Both formats are built from two primitives: a big-endian base-128
//! variable-length integer encoding ([`vlq`]) and a small tagged value
//! model (empty, float, boolean, integer, string, array, object) defined
//! in [`value`], decoded by [`bson`] and encoded by [`serializer`].
//! [`packed`] layers the archive index and the document envelope on top;
//! [`error`] carries structured, offset-annotated diagnostics through all
//! parsing.
//!
//! Every parser and serializer is specified against a mathematical model
//! of the wire format, and round-trip laws relate the two directions:
//! see `lemma_vlqu_round_trip`, `lemma_vlqi_round_trip`,
//! `lemma_value_round_trip`, and `lemma_document_round_trip`.

pub mod bson;
pub mod endian;
pub mod error;
pub mod order;
pub mod packed;
pub mod serializer;
pub mod value;
pub mod vlq;

pub use error::{Error, ErrorKind, Frame, Rule};
pub use packed::{save_versioned_json, Directory, Index, Metadata, PackedAssets, Player,
    VersionedJson};
pub use serializer::{to_writer, Serializer};
pub use value::{ObjectMap, Value, ValueModel};
