//! Labeled trees read from bracket notation.
//!
//! A tree is written as `{label{child}{child}}`: an opening token, the label
//! of the node, its children from left to right, and a closing token.
//!
//! - [`label`]: the values that nodes carry.
//! - [`node`]: the nodes of a tree, and trees as mathematical values.
//! - [`scan`]: which bytes of a text are structural tokens.
//! - [`parsing`]: the parser, and the definition of what it returns.
//! - [`notation`]: how a tree is written down, with the proof that a tree
//!   which is written and read again is the same tree.
//! - [`error`]: the ways in which reading can fail.
pub mod error;
pub mod label;
pub mod node;
pub mod notation;
pub mod parsing;
pub mod scan;
