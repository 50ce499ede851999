//! The fatal error of the rendering core.  Fetch, cache and output-write
//! failures belong to the surrounding program; the pipeline itself can only
//! fail while rendering: a template that does not substitute, or the rewrite
//! engine failing on a code block.
use vstd::prelude::*;

verus! {

#[derive(Clone, Copy, Debug, PartialEq, Eq, Structural)]
pub enum RenderError {
    /// A template could not be rendered against its variables.
    TemplateFailed,
    /// The highlighting rewrite failed on a code block.
    RewriteFailed,
}

} // verus!
