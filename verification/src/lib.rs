//! Rendering of a directory hierarchy as an indented tree diagram.
//!
//! The library holds the rules of the diagram: how the children of a
//! directory are ordered, which of them are shown, which connector and
//! indentation each line gets, and in which order directories are visited.
//! Reading directories and writing lines is left to the caller, who drives a
//! [`render::Renderer`] with the listings it asks for. What the lines of a
//! whole tree are is said in [`diagram`], with the proof that the renderer
//! writes them.

pub mod args;
pub mod diagram;
pub mod entry;
pub mod filter;
pub mod line;
pub mod names;
pub mod render;
