//! Errors of the engine.

use vstd::prelude::*;
use crate::text::{decimal, join2, unsigned_to_text};

verus! {

/// What went wrong, with the text that explains it.
#[derive(Debug)]
pub enum DatabaseError {
    Io(String),
    PageNotFound(u64),
    BufferPoolFull,
    IndexError(String),
    PlanningError(String),
    ExecutionError(String),
    TransactionError(String),
    TypeError(String),
    ParseError(String),
    BindingError(String),
    ConstraintViolation(String),
    KeyNotFound,
    SerializationError(String),
    ModelError(String),
    Unknown(String),
}

/// An error as contracts speak of it: its kind and the characters of its text.
pub enum Fault {
    Io(Seq<char>),
    PageNotFound(u64),
    BufferPoolFull,
    Index(Seq<char>),
    Planning(Seq<char>),
    Execution(Seq<char>),
    Transaction(Seq<char>),
    Type(Seq<char>),
    Parse(Seq<char>),
    Binding(Seq<char>),
    Constraint(Seq<char>),
    KeyNotFound,
    Serialization(Seq<char>),
    Model(Seq<char>),
    Unknown(Seq<char>),
}

impl View for DatabaseError {
    type V = Fault;

    open spec fn view(&self) -> Fault {
        match *self {
            DatabaseError::Io(s) => Fault::Io(s@),
            DatabaseError::PageNotFound(n) => Fault::PageNotFound(n),
            DatabaseError::BufferPoolFull => Fault::BufferPoolFull,
            DatabaseError::IndexError(s) => Fault::Index(s@),
            DatabaseError::PlanningError(s) => Fault::Planning(s@),
            DatabaseError::ExecutionError(s) => Fault::Execution(s@),
            DatabaseError::TransactionError(s) => Fault::Transaction(s@),
            DatabaseError::TypeError(s) => Fault::Type(s@),
            DatabaseError::ParseError(s) => Fault::Parse(s@),
            DatabaseError::BindingError(s) => Fault::Binding(s@),
            DatabaseError::ConstraintViolation(s) => Fault::Constraint(s@),
            DatabaseError::KeyNotFound => Fault::KeyNotFound,
            DatabaseError::SerializationError(s) => Fault::Serialization(s@),
            DatabaseError::ModelError(s) => Fault::Model(s@),
            DatabaseError::Unknown(s) => Fault::Unknown(s@),
        }
    }
}

/// The line shown to a user for a fault.
pub open spec fn fault_text(f: Fault) -> Seq<char> {
    match f {
        Fault::Io(s) => "IO error: "@ + s,
        Fault::PageNotFound(n) => "Page not found: "@ + decimal(n as int),
        Fault::BufferPoolFull => "Buffer pool full"@,
        Fault::Index(s) => "Index error: "@ + s,
        Fault::Planning(s) => "Query planning error: "@ + s,
        Fault::Execution(s) => "Execution error: "@ + s,
        Fault::Transaction(s) => "Transaction error: "@ + s,
        Fault::Type(s) => "Type error: "@ + s,
        Fault::Parse(s) => "Parsing error: "@ + s,
        Fault::Binding(s) => "Binding error: "@ + s,
        Fault::Constraint(s) => "Constraint violation: "@ + s,
        Fault::KeyNotFound => "Key not found"@,
        Fault::Serialization(s) => "Serialization error: "@ + s,
        Fault::Model(s) => "Model training error: "@ + s,
        Fault::Unknown(s) => "Unknown error: "@ + s,
    }
}

impl DatabaseError {
    /// The line shown to a user.
    pub fn message(&self) -> (r: String)
        ensures
            r@ == fault_text(self@),
    {
        match self {
            DatabaseError::Io(s) => join2("IO error: ", s.as_str()),
            DatabaseError::PageNotFound(n) => {
                let digits = unsigned_to_text(*n);
                join2("Page not found: ", digits.as_str())
            },
            DatabaseError::BufferPoolFull => "Buffer pool full".to_owned(),
            DatabaseError::IndexError(s) => join2("Index error: ", s.as_str()),
            DatabaseError::PlanningError(s) => join2(
                "Query planning error: ",
                s.as_str(),
            ),
            DatabaseError::ExecutionError(s) => join2("Execution error: ", s.as_str()),
            DatabaseError::TransactionError(s) => join2(
                "Transaction error: ",
                s.as_str(),
            ),
            DatabaseError::TypeError(s) => join2("Type error: ", s.as_str()),
            DatabaseError::ParseError(s) => join2("Parsing error: ", s.as_str()),
            DatabaseError::BindingError(s) => join2("Binding error: ", s.as_str()),
            DatabaseError::ConstraintViolation(s) => join2(
                "Constraint violation: ",
                s.as_str(),
            ),
            DatabaseError::KeyNotFound => "Key not found".to_owned(),
            DatabaseError::SerializationError(s) => join2(
                "Serialization error: ",
                s.as_str(),
            ),
            DatabaseError::ModelError(s) => join2("Model training error: ", s.as_str()),
            DatabaseError::Unknown(s) => join2("Unknown error: ", s.as_str()),
        }
    }
}

} // verus!
