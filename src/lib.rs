pub mod chunk;
pub mod entry;
pub mod wrap;
pub mod position;
pub mod state;
pub mod request;
