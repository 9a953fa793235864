//! The error taxonomy of the core operations: transport failures, malformed
//! inline payloads, filesystem failures, unusable selection criteria, and
//! empty discovery results.
use vstd::prelude::*;

verus! {

/// What can go wrong in discovery, selection and persistence.
#[derive(Debug)]
pub enum CoreError {
    /// Transport failure or a non-success HTTP status.
    Network(String),
    /// Malformed inline payload or undecodable encoding.
    Parse(String),
    /// Directory or file creation or write failure.
    Io(String),
    /// No active criteria, or criteria that matched nothing.
    Selection(String),
    /// Zero fonts discovered on the page.
    NotFound(String),
}

impl Clone for CoreError {
    fn clone(&self) -> (r: Self)
        ensures
            r == *self,
    {
        match self {
            CoreError::Network(d) => CoreError::Network(d.clone()),
            CoreError::Parse(d) => CoreError::Parse(d.clone()),
            CoreError::Io(d) => CoreError::Io(d.clone()),
            CoreError::Selection(d) => CoreError::Selection(d.clone()),
            CoreError::NotFound(d) => CoreError::NotFound(d.clone()),
        }
    }
}

impl CoreError {
    /// The error's detail text.
    pub fn detail(&self) -> (r: &String)
        ensures
            *self matches CoreError::Network(d) ==> r@ == d@,
            *self matches CoreError::Parse(d) ==> r@ == d@,
            *self matches CoreError::Io(d) ==> r@ == d@,
            *self matches CoreError::Selection(d) ==> r@ == d@,
            *self matches CoreError::NotFound(d) ==> r@ == d@,
    {
        match self {
            CoreError::Network(d) => d,
            CoreError::Parse(d) => d,
            CoreError::Io(d) => d,
            CoreError::Selection(d) => d,
            CoreError::NotFound(d) => d,
        }
    }

    /// A one-line rendering: the error's kind, a colon, and its detail.
    pub fn describe(&self) -> (r: String)
        ensures
            *self matches CoreError::Network(d) ==> r@ == "network error: "@ + d@,
            *self matches CoreError::Parse(d) ==> r@ == "parse error: "@ + d@,
            *self matches CoreError::Io(d) ==> r@ == "io error: "@ + d@,
            *self matches CoreError::Selection(d) ==> r@ == "selection error: "@ + d@,
            *self matches CoreError::NotFound(d) ==> r@ == "not found: "@ + d@,
    {
        let mut out: String;
        match self {
            CoreError::Network(d) => {
                out = String::from_str("network error: ");
                out.append(d.as_str());
            },
            CoreError::Parse(d) => {
                out = String::from_str("parse error: ");
                out.append(d.as_str());
            },
            CoreError::Io(d) => {
                out = String::from_str("io error: ");
                out.append(d.as_str());
            },
            CoreError::Selection(d) => {
                out = String::from_str("selection error: ");
                out.append(d.as_str());
            },
            CoreError::NotFound(d) => {
                out = String::from_str("not found: ");
                out.append(d.as_str());
            },
        }
        out
    }
}

} // verus!
