//! Derives labels and annotations for a node from its provider identifier.
//!
//! A provider identifier such as `aws://us-east-2/i-1234567890abcdef0` is
//! taken apart into provider, node id and segments. Templates such as
//! `{:provider}-{:last}` are compiled once and rendered against identifiers,
//! each under a validated metadata key, and the outcome is compared with the
//! metadata a node already carries to decide whether it needs an update.

use vstd::prelude::*;
use vstd::string::*;

pub mod controller;
pub mod meta;
pub mod pairs;
pub mod provider_id;
pub mod template;
pub mod text;

verus! {

/// What can go wrong in this library.
#[derive(Clone, Copy, Debug, PartialEq, Eq)]
pub enum Error {
    /// The provider identifier was refused.
    ProviderID(provider_id::ProviderIDError),
    /// The template was refused when it was compiled.
    TemplateParser(template::TemplateError),
    /// The metadata key was refused.
    MetadataKey(meta::KeyError),
    /// A template asked for a segment that the identifier does not have.
    SegmentOutOfRange,
}

impl Error {
    /// The error in words: its kind, then what the part at fault says.
    pub open spec fn message(self) -> Seq<char> {
        match self {
            Error::ProviderID(e) => "ProviderIDError: "@ + e.message(),
            Error::TemplateParser(e) => "TemplateParseError: "@ + e.message(),
            Error::MetadataKey(e) => "MetadataKeyError: "@ + e.message(),
            Error::SegmentOutOfRange => "SegmentOutOfRange: the identifier has no such segment"@,
        }
    }

    /// The error in words: its kind, then what the part at fault says.
    pub fn to_string(&self) -> (r: String)
        ensures
            r@ == self.message(),
    {
        match self {
            Error::ProviderID(e) => {
                let mut r = "ProviderIDError: ".to_owned();
                r.append(e.to_string().as_str());
                r
            },
            Error::TemplateParser(e) => {
                let mut r = "TemplateParseError: ".to_owned();
                r.append(e.to_string().as_str());
                r
            },
            Error::MetadataKey(e) => {
                let mut r = "MetadataKeyError: ".to_owned();
                r.append(e.to_string().as_str());
                r
            },
            Error::SegmentOutOfRange =>
                "SegmentOutOfRange: the identifier has no such segment".to_owned(),
        }
    }
}

} // verus!
