//! Console disc images and executables.
pub mod disc;
pub mod executable;
