//! Follows a symbolic link chain to the final absolute path, without asking
//! that the final path exist.
//!
//! The library holds the lexical path work and the decisions of the link
//! walk; reading links and asking whether a path is a link are done by the
//! caller, who hands the answers back one step at a time.
use vstd::prelude::*;

pub mod path;
pub mod resolver;
pub mod walk;
