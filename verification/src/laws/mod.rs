//! What holds of every outline, of every line and of every file name.

pub mod blocks;
pub mod code;
pub mod count;
pub mod declarations;
pub mod edits;
pub mod lines;
pub mod progress;
pub mod shape;
pub mod spans;
pub mod text;
