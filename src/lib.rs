pub mod args;
pub mod bands;
pub mod events;
pub mod grid;
pub mod palette;
pub mod scheduler;
