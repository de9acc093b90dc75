//! A store of decision trees for design interviews.
//!
//! A tree holds the questions of an interview. A question that is open is a head,
//! and to answer it is to cut it. Heads form a tree, by their parents, with edges
//! across it, by the heads that block them. To change an answer reopens whatever
//! stood on it.
//!
//! The modules, from the ground up:
//!
//! - [`text`], [`order`] and [`paths`]: characters, finite sets of text in order, and
//!   text that names files;
//! - [`slug`], [`error`], [`heads`] and [`model`]: what is stored, and what can be
//!   refused;
//! - [`walk`], [`cascade`], [`state`] and [`graph`]: the edges, what stands on what,
//!   and the operations;
//! - [`sound`] and [`kept`]: what the operations keep, as a whole and field by
//!   field;
//! - [`preorder`], [`nesting`], [`query`] and [`render`]: reading a tree, and drawing
//!   it;
//! - [`shown`]: what of a tree is shown where;
//! - [`store`], [`grill`], [`json`] and [`hook`]: files, the session lease, and the
//!   answers to hooks;
//! - [`cli`] and [`complete`]: the commands;
//! - [`told`]: what is said, and what is made of what was said;
//! - [`views`]: that views hide nothing.

pub mod cascade;
pub mod cli;
pub mod complete;
pub mod error;
pub mod graph;
pub mod grill;
pub mod heads;
pub mod hook;
pub mod json;
pub mod kept;
pub mod model;
pub mod nesting;
pub mod order;
pub mod paths;
pub mod preorder;
pub mod query;
pub mod render;
pub mod shown;
pub mod slug;
pub mod sound;
pub mod state;
pub mod store;
pub mod text;
pub mod told;
pub mod views;
pub mod walk;

pub use error::{Edge, Error};
pub use graph::{Cauterise, Cut, Sprout};
pub use model::{Answer, Head, Rejected, Status, Tree};
pub use query::Counts;
pub use store::Store;
