//! A resource-oriented task scheduler.
//!
//! Systems declare up front which shared singleton resources they read and
//! which they mutate; the dispatcher turns those declarations, together with
//! explicit ordering edges, into a stage plan in which no two systems of one
//! stage have conflicting access, and replays that plan on every dispatch.

pub mod access;
pub mod dispatch;
pub mod meta;
pub mod res;
pub mod system;
