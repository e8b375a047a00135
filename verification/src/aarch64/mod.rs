//! The AArch64 scalar backend.
pub mod bytes;
pub mod correct;
pub mod decode;
pub mod emit;
pub mod encode;
pub mod error;
pub mod execute;
pub mod flow;
pub mod functions;
pub mod link;
pub mod machine;
pub mod registers;
pub mod spill;
pub mod spilled;
pub mod stacked;
pub mod stackflow;
