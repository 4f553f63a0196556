//! A shell-prompt syntax highlighter: the request protocol, the colour themes,
//! and the span arithmetic that turns tree-sitter captures into highlight regions.
use vstd::prelude::*;

pub mod dynamic;
pub mod highlight;
pub mod protocol;
pub mod regions;
pub mod spans;
pub mod strmap;
pub mod text;
pub mod theme;
pub mod theme_file;

verus! {

} // verus!
