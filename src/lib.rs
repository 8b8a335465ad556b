pub mod batch;
pub mod replay;
pub mod score;
pub mod sessions;
pub mod stats;
pub mod window;
