//! Record stores for a bookmark list and a tree of tasks and notes:
//! identifier allocation, dirty tracking and conditional persistence.

pub mod bookmarks;
pub mod cli;
pub mod ids;
pub mod items;
pub mod persist;
pub mod text;
