pub mod dist;
pub mod hk;
pub mod path;
