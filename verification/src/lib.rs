//! A digital creature: its memory, its thoughts, its moods and the
//! slow habits that grow out of what it keeps doing.

pub mod config;
pub mod creature;
pub mod evolution;
pub mod intent;
pub mod launch;
pub mod lists;
pub mod memory;
pub mod net;
pub mod rng;
pub mod selfwrite;
pub mod text;
pub mod thought;
pub mod wired;
pub mod words;
pub mod world;
