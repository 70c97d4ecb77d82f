//! Decisions of a tool that deletes the paths listed by a file-finding search:
//! reading the list of hits, refusing dangerous paths, the confirmation prompt,
//! and the steps of each deletion. The file system, the terminal and the process
//! environment are left to the caller.

pub mod segments;
pub mod guard;
pub mod hits;
pub mod answer;
pub mod cache;
pub mod removal;
pub mod session;
