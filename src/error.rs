use vstd::prelude::*;

use crate::value::{Tree, Value};

verus! {

/// What can go wrong while loading or expanding a configuration.
#[derive(Debug)]
pub enum Error {
    /// The configuration sources could not be read or merged.
    ConfigError(String),
    /// The typed configuration could not be turned into a tree.
    SerializationError(String),
    /// The expanded tree did not fit the typed configuration.
    DeserializationError(String),
    /// Expansion went deeper than the depth ceiling, or a placeholder named
    /// its own location. Carries the depth and path where this was found and
    /// the value (or partly rebuilt string) being processed there.
    TokenRecursionLimitExceeded { depth: usize, path: String, value: Value },
}

/// The model of an `Error`.
pub enum Fault {
    Config(Seq<char>),
    Serialization(Seq<char>),
    Deserialization(Seq<char>),
    RecursionLimit { depth: nat, path: Seq<char>, value: Tree },
}

impl View for Error {
    type V = Fault;

    open spec fn view(&self) -> Fault {
        match self {
            Error::ConfigError(m) => Fault::Config(m@),
            Error::SerializationError(m) => Fault::Serialization(m@),
            Error::DeserializationError(m) => Fault::Deserialization(m@),
            Error::TokenRecursionLimitExceeded { depth, path, value } => Fault::RecursionLimit {
                depth: *depth as nat,
                path: path@,
                value: value@,
            },
        }
    }
}

/// The model of the outcome of an expansion.
pub open spec fn outcome(r: Result<Value, Error>) -> Result<Tree, Fault> {
    match r {
        Ok(v) => Ok(v@),
        Err(e) => Err(e@),
    }
}

} // verus!
