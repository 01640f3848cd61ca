//! Typed registrations collected during constant evaluation: the decisions
//! of the compiler driver, over plain values.
pub mod bytes;
pub mod order;
pub mod records;
pub mod register;
pub mod finish;
pub mod driver;
pub mod canonical;
