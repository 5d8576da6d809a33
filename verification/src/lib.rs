pub mod array;
pub mod binary;
pub mod hash;
pub mod play;
pub mod utils;
