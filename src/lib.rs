pub mod command;
pub mod diff;
pub mod float_bits;
pub mod listing;
pub mod snapshot;
pub mod state;
pub mod text;
pub mod value;
