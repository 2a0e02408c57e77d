//! Rebuilds the ordered list of main items of a HID report descriptor from
//! the flat, index-linked form in which Windows keeps a parsed descriptor.
//!
//! Preparsed data holds a header, an array of capabilities and an array of
//! collection nodes. The order of the items of the descriptor, the nesting
//! of its collections, its paddings and its delimiters are not in it. The
//! reconstruction finds them again in these steps:
//!
//! - [`extract`] carves the three structures out of the bytes,
//! - [`hierarchy`] tests that the nodes are a tree and lists the children of
//!   every collection,
//! - [`ranges`] finds the bits that every report occupies below every
//!   collection,
//! - [`order`] puts the children of every collection into the order of their
//!   bits,
//! - [`collections`] writes the openings and ends of the collections,
//! - [`fields`] puts every capability into its collection, at the place of
//!   its bits,
//! - [`padding`] fills the gaps and the last byte of every report,
//! - [`descriptor`] ties the steps together.
//!
//! What holds of every result is proved in [`nesting`], [`contiguity`],
//! [`delimiters`] and [`flat`].

pub mod types;
pub mod typedefs;
pub mod list;
pub mod extract;
pub mod hierarchy;
pub mod ranges;
pub mod order;
pub mod collections;
pub mod fields;
pub mod padding;
pub mod descriptor;
pub mod nesting;
pub mod contiguity;
pub mod delimiters;
pub mod flat;
