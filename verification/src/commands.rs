//! The commands, each a set of rules over plain values.

pub mod cat;
pub mod clone;
pub mod conflict;
pub mod expand;
pub mod log;
pub mod ls;
pub mod pack;
pub mod pull;
pub mod push;
pub mod restore;
pub mod stats;
pub mod stub;
pub mod transfer;
