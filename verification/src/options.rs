//! Display options that a renderer consumes: the output format and the
//! color theme. The graph engine passes them through untouched.

use vstd::prelude::*;

verus! {

/// The textual format a finished graph is rendered to.
#[derive(Clone, Copy, PartialEq, Eq, Structural, Debug)]
pub enum OutputFormat {
    Mermaid,
    Dot,
    Json,
}

/// The color theme of a rendering.
#[derive(Clone, Copy, PartialEq, Eq, Structural, Debug)]
pub enum Theme {
    Default,
    Light,
    Dark,
}

} // verus!
