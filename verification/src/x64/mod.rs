//! The x86-64 backend: from selected instructions with allocated values to a
//! stream of assembler operations.
pub mod body;
pub mod calls;
pub mod convention;
pub mod copies;
pub mod execute;
pub mod layout;
pub mod machine;
pub mod places;
pub mod translate;
pub mod whole;
