//! Assertions on parsed function items.
//!
//! A test takes a syntax node of `syn` (a function item, an item of any kind,
//! or a list of nodes), starts an assertion on it with `has_fn`, says what it
//! expects of the function's name, visibility, attributes and body, and ends
//! with `check`. The outcome is a success, or a failure that carries one
//! message for everything that did not match.
//!
//! - `utils` holds the outcome of a check and the ways to build and combine
//!   outcomes.
//! - `function` holds the checks of each kind of node, and the builder.
//! - `text` holds the texts of the messages.
//! - `syntax` holds what is read from the nodes of `syn`, which is believed
//!   and not proved.

pub mod function;
pub mod syntax;
pub mod text;
pub mod utils;
