//! Errors of the library.
use vstd::prelude::*;

use crate::resource_name::ResourceNameError;
use crate::text::concat;

verus! {

/// A rule could not be added: one of its segment patterns holds the wildcard
/// but is not a valid glob. It carries that pattern.
#[derive(Debug, PartialEq, Eq)]
pub enum ConfigurationError {
    InvalidGlob(String),
}

/// A principal's access control model could not be loaded.
#[derive(Debug, Clone, PartialEq, Eq)]
pub enum PipError {
    /// There is no policy data for the principal.
    AcmNotFound(String),
    /// The policy data is malformed; a later load may succeed.
    InvalidAcmFormat(String),
    /// The policy data holds a pattern that cannot become a rule (a
    /// configuration error, which loading again does not mend). It carries
    /// the pattern.
    InvalidPattern(String),
}

/// A decision could not be made.
#[derive(Debug, Clone, PartialEq, Eq)]
pub enum PdpError {
    /// The principal's model could not be loaded.
    Pip(PipError),
}

/// The errors of the library as a whole.
#[derive(Debug)]
pub enum RawrError {
    NotFound,
    Internal(String),
    ResourceName(ResourceNameError),
}

/// The text that describes a loading error.
pub open spec fn pip_message(e: PipError) -> Seq<char> {
    match e {
        PipError::AcmNotFound(detail) => "access control model not found: "@ + detail@,
        PipError::InvalidAcmFormat(detail) => "access control model is malformed: "@ + detail@,
        PipError::InvalidPattern(pattern) => "access control model has an invalid pattern: "@
            + pattern@,
    }
}

impl PipError {
    /// A description of this error.
    pub fn message(&self) -> (r: String)
        ensures
            r@ == pip_message(*self),
    {
        match self {
            PipError::AcmNotFound(detail) => concat("access control model not found: ", detail.as_str()),
            PipError::InvalidAcmFormat(detail) => concat(
                "access control model is malformed: ",
                detail.as_str(),
            ),
            PipError::InvalidPattern(pattern) => concat(
                "access control model has an invalid pattern: ",
                pattern.as_str(),
            ),
        }
    }
}

impl PdpError {
    /// A description of this error.
    pub fn message(&self) -> (r: String)
        ensures
            r@ == "failed to decide: "@ + match *self {
                PdpError::Pip(e) => pip_message(e),
            },
    {
        match self {
            PdpError::Pip(e) => {
                let inner = e.message();
                concat("failed to decide: ", inner.as_str())
            },
        }
    }
}

impl From<PipError> for PdpError {
    fn from(err: PipError) -> (r: PdpError)
        ensures
            r == PdpError::Pip(err),
    {
        PdpError::Pip(err)
    }
}

impl vstd::std_specs::convert::FromSpecImpl<PipError> for PdpError {
    open spec fn obeys_from_spec() -> bool {
        true
    }

    open spec fn from_spec(err: PipError) -> PdpError {
        PdpError::Pip(err)
    }
}

impl From<ResourceNameError> for RawrError {
    fn from(err: ResourceNameError) -> (r: RawrError)
        ensures
            r == RawrError::ResourceName(err),
    {
        RawrError::ResourceName(err)
    }
}

impl vstd::std_specs::convert::FromSpecImpl<ResourceNameError> for RawrError {
    open spec fn obeys_from_spec() -> bool {
        true
    }

    open spec fn from_spec(err: ResourceNameError) -> RawrError {
        RawrError::ResourceName(err)
    }
}

} // verus!
