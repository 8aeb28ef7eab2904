//! What holds of the library as a whole: its laws, each with its proof.

pub mod coord;
pub mod events;
pub mod paint;
pub mod platform;
pub mod queue;
pub mod rows;
pub mod text;
pub mod window;
