//! Reads a documentation migrate file and lists the files of a directory that
//! it does not yet record.

pub mod migratefile;
pub mod pending;
