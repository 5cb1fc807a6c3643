pub mod laws;
pub mod manager;
pub mod model;
pub mod network;
pub mod scheduler;
