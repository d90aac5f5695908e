//! Process management for a small single-core kernel: the process table, a
//! round-robin scheduler, and the kernel calls that create, end, wait for,
//! suspend and switch processes.
//!
//! The scheduler is an owned value, [`process::processor::Processor`]. Every
//! operation on it is a total function with a contract over its mathematical
//! view, [`process::model::TableView`]; the laws that relate several
//! operations are proved in [`process::laws`].

pub mod process;
