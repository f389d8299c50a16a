//! An index that attaches a tree of metadata to any object of a Git repository,
//! kept as a fanout tree under a reference.
//!
//! Nothing here touches a repository. An operation says, one [`step`] at a time,
//! what to do there, and answers once it knows enough.

pub mod oid;
pub mod tree;
pub mod fanout;
pub mod rebuild;
pub mod step;
pub mod index;
pub mod listing;
pub mod laws;
pub mod operation_laws;
pub mod course_laws;
pub mod ending_laws;
pub mod rebuild_laws;
pub mod settle_laws;
pub mod tidy_laws;
pub mod fanout_laws;
pub mod need_laws;
pub mod run_laws;
pub mod listing_laws;
pub mod listing_course_laws;
pub mod listing_need_laws;
pub mod order_laws;
pub mod cli;
pub mod man;
