//! Selector-style queries over an in-memory element tree.
//!
//! A [`Document`] owns a tree of [`Node`]s. A [`Predicate`] is a composable test on an element
//! and its ancestors, and [`Document::find`] lists the elements that satisfy one, in document
//! order.

pub mod attrs;
pub mod chars;
pub mod document;
pub mod laws;
pub mod node;
pub mod order;
pub mod page;
pub mod predicate;
pub mod seqs;

pub use attrs::{Attribute, Attributes};
pub use document::{Document, EmptyResult, Match};
pub use node::{Content, Node};
pub use page::{get_page_src, PAGE_SRC};
pub use predicate::Predicate;
