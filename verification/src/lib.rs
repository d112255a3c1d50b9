//! Directory trees drawn as text.
//!
//! A [`node::DirNode`] is one entry of a directory tree together with the
//! entries below it. [`walk::Walker`] builds such a tree from what a caller
//! sees of a file system, one path at a time, and
//! [`node::DirNode::render`] draws it, one line for each entry:
//!
//! ```text
//! └─d
//!   ├─a
//!   │ └─x
//!   └─b
//! ```
//!
//! The root is drawn without indentation and with the corner. Every other
//! entry stands behind one column for each of its ancestors, blank below an
//! ancestor that was the last of its siblings, with a vertical guide below one
//! that was not. Children keep the order in which their directory listed them.
//!
//! The library reads no file system and writes no output. The modules
//! [`position`], [`layout`] and [`world`] hold what is proved of diagrams and
//! walks beyond the contracts of the functions.

pub mod layout;
pub mod node;
pub mod position;
pub mod render;
pub mod walk;
pub mod world;
