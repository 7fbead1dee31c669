//! A fixed-size slotted page that packs variable-length, heterogeneous
//! tuples (integer and UTF-8 text fields) into a byte buffer, together
//! with a minimal page store front end.
//!
//! The binary layout is a classic slotted page: a six-byte header, a
//! slot directory growing upward from the header, and tuple data growing
//! downward from the end of the buffer.

pub mod format;
pub mod laws;
pub mod page;
pub mod storage;

pub use format::FieldV;
pub use page::{DataField, Page, PageError, SharedPage};
pub use storage::{Storage, PAGE_SIZE};
