//! A library that re-indexes a geospatial feature file stored in a
//! length-framed binary format: it decodes a file that may lack a spatial
//! index, computes a static packed spatial index over all contained features,
//! and encodes a new file that is format-identical except for the added index
//! and the reordered feature block.

use vstd::prelude::*;

pub mod codec;
pub mod decode;
pub mod geom;
pub mod index;
pub mod key;
pub mod laws;
pub mod model;
pub mod pipeline;
pub mod summary;

verus! {

/// The ways a rewrite can fail. Every failure is terminal: nothing is
/// retried and no partial result is returned beside an error.
#[derive(Clone, Copy, PartialEq, Eq, Structural, Debug)]
pub enum Error {
    /// The magic prefix, the version byte or a header field is not as the
    /// format declares it.
    MalformedHeader,
    /// A feature payload fails its internal structural decoding, or bytes
    /// trail the declared feature count.
    MalformedFeature,
    /// A length prefix points past the end of the input.
    UnexpectedEof,
    /// The index builder was given a node capacity below two.
    InvalidBranchingFactor,
    /// The index builder was given no entries at all.
    EmptyDataset,
}

impl Error {
    /// A human-readable description of the failure.
    pub fn message(&self) -> (r: &'static str)
        ensures
            r@ =~= self.spec_message(),
    {
        match self {
            Error::MalformedHeader => "malformed header",
            Error::MalformedFeature => "malformed feature",
            Error::UnexpectedEof => "unexpected end of input",
            Error::InvalidBranchingFactor => "invalid branching factor",
            Error::EmptyDataset => "empty dataset",
        }
    }

    pub open spec fn spec_message(self) -> Seq<char> {
        match self {
            Error::MalformedHeader => "malformed header"@,
            Error::MalformedFeature => "malformed feature"@,
            Error::UnexpectedEof => "unexpected end of input"@,
            Error::InvalidBranchingFactor => "invalid branching factor"@,
            Error::EmptyDataset => "empty dataset"@,
        }
    }
}

} // verus!
