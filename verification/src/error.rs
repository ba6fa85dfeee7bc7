//! The errors of the library.

use vstd::prelude::*;

verus! {

/// What can go wrong when a graph is built or queried.
#[derive(Debug, Clone, Copy, PartialEq, Eq, Structural)]
pub enum GraphError {
    /// A node index was not below the number of nodes of the graph.
    IndexOutOfRange { index: usize, nodes: usize },
}

/// Why a line of a dataset file cannot be read.
#[derive(Debug, Clone, Copy, PartialEq, Eq, Structural)]
pub enum ParseErrorKind {
    /// An integer was expected, and what stands there is none that fits.
    MalformedInteger,
    /// A bit was expected, and what stands there is neither `0` nor `1`.
    MalformedBoolean,
    /// The line ends before the separator and what should follow it.
    MissingSeparator,
}

/// A line of a dataset file that cannot be read.
#[derive(Debug, Clone, Copy, PartialEq, Eq, Structural)]
pub struct ParseError {
    /// The position of the line among the lines of the text, from 0.
    pub line: usize,
    /// What is wrong with the line.
    pub kind: ParseErrorKind,
}

/// What can go wrong when a matrix is read from the text of an edge list.
#[derive(Debug, Clone, Copy, PartialEq, Eq, Structural)]
pub enum LoadError {
    /// A line of the text cannot be read.
    Parse(ParseError),
    /// The text was read, and an edge names a node that the text's node
    /// count leaves out.
    Graph(GraphError),
}

} // verus!
