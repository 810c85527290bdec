//! The error taxonomy of the engine.

use vstd::prelude::*;
use vstd::string::StringExecFns;
use vstd::string::StrSliceExecFns;

verus! {

pub type OvenResult<T> = Result<T, OvenError>;

/// A fatal error raised before the run starts serving requests.
/// Both variants carry the collaborator's message.
#[derive(Debug, Clone, PartialEq)]
pub enum OvenError {
    DocumentReadError(String),
    DocumentParseError(String),
}

pub type RequestResult<T> = Result<T, RequestError>;

/// An error raised while handling one request.
#[derive(Debug, Clone, PartialEq)]
pub enum RequestError {
    /// The selector text of a Selection request was malformed.
    SelectorParseError(String),
    /// The external worker reported a terminal failure.
    ChildTerminated(String),
    /// A request payload could not be decoded.
    JsonParseError(String),
    /// A transport failure on the request's own connection.
    Misc(String),
}

/// A fault of the queue builder while resolving the override mapping.
#[derive(Debug, Clone, PartialEq)]
pub enum BuildError {
    /// A `Replace` instruction named a node the tree does not own.
    ReplaceTargetMissing,
    /// `Replace` indirection recursed past any acyclic bound: the
    /// override mapping holds a self- or mutually-referential entry.
    ReplaceRecursionLimit,
}

/// A fault of the serialization phase.
#[derive(Debug, Clone, PartialEq)]
pub enum SerializationError {
    /// The sink rejected a write.
    BadWrite,
    /// The plan ended inside an element's attribute/namespace run.
    UnexpectedEOF,
    /// A name uses a namespace uri with no bound prefix.
    UnsetURI(String),
    /// A `Replace` instruction reached the serializer.
    UnexpectedInstruction,
}


impl OvenError {
    /// The human-readable form the program reports: the variant's name,
    /// a separator, and the collaborator's message.
    pub fn describe(&self) -> (r: String)
        ensures
            match self {
                OvenError::DocumentReadError(m) => r@ == "DocumentReadError: "@ + m@,
                OvenError::DocumentParseError(m) => r@ == "DocumentParseError: "@ + m@,
            },
    {
        match self {
            OvenError::DocumentReadError(m) => {
                let mut s = String::from_str("DocumentReadError: ");
                s.append(m.as_str());
                s
            },
            OvenError::DocumentParseError(m) => {
                let mut s = String::from_str("DocumentParseError: ");
                s.append(m.as_str());
                s
            },
        }
    }
}

impl RequestError {
    /// The human-readable form the program reports.
    pub fn describe(&self) -> (r: String)
        ensures
            match self {
                RequestError::SelectorParseError(m) => r@ == "SelectorParseError: "@ + m@,
                RequestError::ChildTerminated(m) => r@ == "ChildTerminated: "@ + m@,
                RequestError::JsonParseError(m) => r@ == "JsonParseError: "@ + m@,
                RequestError::Misc(m) => r@ == "Misc: "@ + m@,
            },
    {
        match self {
            RequestError::SelectorParseError(m) => {
                let mut s = String::from_str("SelectorParseError: ");
                s.append(m.as_str());
                s
            },
            RequestError::ChildTerminated(m) => {
                let mut s = String::from_str("ChildTerminated: ");
                s.append(m.as_str());
                s
            },
            RequestError::JsonParseError(m) => {
                let mut s = String::from_str("JsonParseError: ");
                s.append(m.as_str());
                s
            },
            RequestError::Misc(m) => {
                let mut s = String::from_str("Misc: ");
                s.append(m.as_str());
                s
            },
        }
    }
}

} // verus!
