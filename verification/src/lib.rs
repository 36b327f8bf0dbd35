//! The hierarchy engine of shaker.
//!
//! Source units are staged as records in a store, each under a dotted
//! ordinal such as `3.1.4`, and written back as a tree of cross-linked
//! Markdown pages. This crate holds what decides the outcome, with its
//! contracts proved:
//!
//! - [`ordinal`]: parent, siblings, section number and order of ordinals,
//!   all from the text of the ordinal alone;
//! - [`cache`]: the record store, one record for each ordinal, with lookups
//!   by ordinal and by parent;
//! - [`sink`]: the page of each record, and the walk through a section that
//!   hands out its pages one by one;
//! - [`headings`]: which heading a page carries;
//! - [`source`]: the record that is made from the metadata of a source unit.
//!
//! Reading the source tree and writing the pages to disk is left to the
//! program around this crate.

pub mod cache;
pub mod error;
pub mod headings;
pub mod ordinal;
pub mod sink;
pub mod source;
pub mod text;
