//! The installation engine of a Node package manager: picking the version of a
//! package that a range asks for, naming the directories of the virtual store,
//! and planning the links that lay an already resolved set of dependencies out
//! on disk.
//!
//! Every function here works on plain values. Touching the network or the
//! filesystem is left to the caller, who carries out the plans computed here
//! and hands the outcomes back.

pub mod layout;
pub mod precedence;
pub mod range;
pub mod registry;
pub mod semver;
pub mod snapshot;
pub mod store_name;
pub mod text;
