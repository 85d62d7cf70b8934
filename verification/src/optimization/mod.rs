pub mod branch_and_bound;
pub mod nested_search;
