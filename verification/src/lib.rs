pub mod apply;
pub mod diff;
pub mod events;
pub mod laws;
pub mod node;
pub mod patch;
