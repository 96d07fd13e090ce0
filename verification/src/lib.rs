pub mod crystal;
