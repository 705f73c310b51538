//! A single-user task tracker: the task data model, the validators for raw
//! priority and due-date input, the command engine that applies one operation
//! to the store, and the codec for the persisted store file. Task ids are
//! unique for the store's lifetime, each command's effect is stated exactly,
//! and decoding an encoded store is proved to return it unchanged.

pub mod config;
pub mod date;
pub mod digits;
pub mod engine;
pub mod persist;
pub mod task;
pub mod validate;
