//! Top DAG compression of ordered labelled trees.
//!
//! A tree is laid out in an arena and merged round by round, two
//! neighbouring children or a parent and its only child at a time, until
//! one id stands for all of it. Every merge is a cluster of two older ids;
//! equal clusters get the same id, so that what repeats in the tree is
//! stored once. The table of labels and clusters can be written as a flat
//! form of bits, entries and merge types, read back from it, and expanded
//! into the tree again.
//!
//! - [`io_tree`], [`xml`]: the tree, and how it is put together from the
//!   events of an XML document.
//! - [`structs`], [`flags_and_statistic`], [`error`], [`uninitialized`]:
//!   the records, the configuration and the failures.
//! - [`labels`], [`cluster_table`], [`tables`]: the ids. [`dag`] says what
//!   trees an id stands for.
//! - [`arena`], [`ingest`], [`merge`]: the arena, how a tree gets into it
//!   and how it is merged. [`pass_model`] says what each pass and each
//!   round makes of an arena, [`forest`] what trees an arena stands for,
//!   [`merge_proofs`] why a merge does not change them, and [`reach`] why
//!   the id that is left in the end is the last of the table.
//! - [`flat`], [`traverse`], [`detraverse`]: the flat form, how it is
//!   written and read. [`round_trip`] shows that reading what was written
//!   gives clusters that stand for the same trees and are built alike, and
//!   [`same_walk`] that writing them again gives the same flat form.
//! - [`builder`]: the builder that ties it together.
//! - [`label_text`]: the labels as one text, line by line.

pub mod arena;
pub mod builder;
pub mod cluster_table;
pub mod dag;
pub mod detraverse;
pub mod error;
pub mod flags_and_statistic;
pub mod flat;
pub mod forest;
pub mod ingest;
pub mod io_tree;
pub mod label_text;
pub mod labels;
pub mod merge;
pub mod merge_proofs;
pub mod pass_model;
pub mod reach;
pub mod round_trip;
pub mod same_walk;
pub mod structs;
pub mod tables;
pub mod traverse;
pub mod uninitialized;
pub mod xml;

pub use crate::builder::TopTreeBuilder;
pub use crate::error::TopDagError;
pub use crate::flags_and_statistic::{Flags, MergeRule, Statistic};
pub use crate::io_tree::IO_Tree;
pub use crate::structs::{Child, Cluster, Data, Edge, Leaf, MergeType, Node, NodeHandle};
pub use crate::uninitialized::Uninitialized;
pub use crate::xml::{FromXmlError, ParseError, XmlEvent};
