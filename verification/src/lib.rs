//! Branch tree testing: `.tree` specifications, the test files that follow
//! them, and the differences between the two.

use vstd::prelude::*;

pub mod aliases;
pub mod bytes;
pub mod check;
pub mod checking;
pub mod commands;
pub mod config;
pub mod dates;
pub mod diff;
pub mod error;
pub mod extract;
pub mod index;
pub mod install;
pub mod lexical;
pub mod literal;
pub mod machine;
pub mod mapping;
pub mod merging;
pub mod pack;
pub mod pack_add;
pub mod paths;
pub mod patterns;
pub mod report;
pub mod revisions;
pub mod runner;
pub mod scaffold;
pub mod text;
pub mod todo;
pub mod tree;
pub mod treesitter;
pub mod versions;

verus! {

} // verus!
