pub mod entry;
pub mod topic;
