use vstd::prelude::*;

pub mod text;
pub mod paths;
pub mod order;
pub mod trusted;
pub mod tool_output;
pub mod compile;
pub mod cmd;
pub mod link;
