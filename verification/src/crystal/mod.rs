pub mod dratini_rng;
pub mod gb_mem;
pub mod pk2;
pub mod reader;
pub mod dratini;
