//! Operations on a revision of the repository.

pub mod cat;
pub mod join;
