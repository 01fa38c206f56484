//! Verified core of a small collection of command-line utilities: the
//! fetch-filter-aggregate pipeline of a repository-statistics tool, a
//! todo-list manager's task logic, and a word-frequency counter.

pub mod fetch;
pub mod pipeline;
pub mod repo;
pub mod task;
pub mod text;
pub mod words;

use vstd::prelude::*;

verus! {

} // verus!
