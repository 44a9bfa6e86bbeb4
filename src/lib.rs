pub mod instruments;
pub mod laws;
pub mod midi;
pub mod note;
pub mod order;
pub mod song;
pub mod utils;
