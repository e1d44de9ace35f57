pub mod laws;
pub mod protocol;
