pub mod cache;
pub mod laws;
pub mod model;
pub mod trait_cache;
