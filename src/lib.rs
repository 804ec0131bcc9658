//! Disk usage analysis: sized directory trees built from flat scan records,
//! and a navigation state machine for browsing them.

pub mod app;
pub mod event;
pub mod order;
pub mod paths;
pub mod sizes;
pub mod tree;
