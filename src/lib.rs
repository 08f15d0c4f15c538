//! A retained-mode layout engine: box constraints and their algebra, render nodes
//! laid out through a registry of layout handlers, the flex layout policy, and a
//! positional build cache that reconciles fresh widget declarations with the
//! render tree of the previous frame.

pub mod constraints;
pub mod flex;
pub mod flex_layout;
pub mod geometry;
pub mod node;
pub mod pipeline;
pub mod registry;
pub mod tape;
pub mod tree;
pub mod widgets;
