//! Turns an e-reader clippings export into per-book lists of highlights.
//!
//! An export is one text in which every clipping ends with a separator line.
//! [`split_notes`] cuts it into records, [`classify`] reads a title and a
//! highlight out of each record and files the highlights by book, and
//! [`clean`] drops the highlights that a later, longer version supersedes.
//! [`organize`] runs all of it and names the document of every book.

pub mod config;
pub mod dedup;
pub mod extract;
pub mod group;
pub mod pipeline;
pub mod split;
pub mod text;

pub use crate::config::Config;
pub use crate::dedup::{clean, overlaps};
pub use crate::extract::{extract_clipping, normalize_title, Clipping};
pub use crate::group::{classify, BookGroup};
pub use crate::pipeline::{compile, file_name, organize, organize_between, BookNotes};
pub use crate::split::{split_between, split_notes, SEPARATOR};
