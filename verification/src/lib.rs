//! The verified core of an image-to-ASCII converter.
pub mod backends;
pub mod codec;
pub mod grid;
pub mod histogram;
pub mod jobs;
pub mod neighborhood;
pub mod sources;
pub mod state;
pub mod text;
