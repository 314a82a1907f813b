//! Incremental compilation of a port-numbered graph of texture processes
//! into GLSL shader sources.
use vstd::prelude::*;

pub mod text;
pub mod shader;
pub mod value;
pub mod process;
pub mod dag;
pub mod generator;

pub use dag::{Edge, Port, WouldBreak, port};
pub use generator::{Generator, Node};
pub use shader::Source;
pub use value::{Color, Number, ParseError, decode_color, encode_color};

verus! {

/// What happened to a node.
#[derive(Clone, Copy, Debug, PartialEq, Eq, Structural)]
pub enum EventType {
    Added,
    Changed,
    Removed,
}

} // verus!
