//! What errors say.

use shrestidb::DatabaseError;

fn said(e: DatabaseError) -> String {
    e.message()
}

#[test]
fn every_error_says_what_went_wrong() {
    let t = || "x".to_string();
    assert_eq!(said(DatabaseError::Io(t())), "IO error: x");
    assert_eq!(said(DatabaseError::PageNotFound(12)), "Page not found: 12");
    assert_eq!(said(DatabaseError::BufferPoolFull), "Buffer pool full");
    assert_eq!(said(DatabaseError::IndexError(t())), "Index error: x");
    assert_eq!(said(DatabaseError::PlanningError(t())), "Query planning error: x");
    assert_eq!(said(DatabaseError::ExecutionError(t())), "Execution error: x");
    assert_eq!(said(DatabaseError::TransactionError(t())), "Transaction error: x");
    assert_eq!(said(DatabaseError::TypeError(t())), "Type error: x");
    assert_eq!(said(DatabaseError::ParseError(t())), "Parsing error: x");
    assert_eq!(said(DatabaseError::BindingError(t())), "Binding error: x");
    assert_eq!(said(DatabaseError::ConstraintViolation(t())), "Constraint violation: x");
    assert_eq!(said(DatabaseError::KeyNotFound), "Key not found");
    assert_eq!(said(DatabaseError::SerializationError(t())), "Serialization error: x");
    assert_eq!(said(DatabaseError::ModelError(t())), "Model training error: x");
    assert_eq!(said(DatabaseError::Unknown(t())), "Unknown error: x");
}
