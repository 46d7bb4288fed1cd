pub mod frametime;
pub mod graph;
