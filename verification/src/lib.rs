pub mod error;
pub mod experimental;
pub mod fiber;
pub mod fiber_structs;
pub mod numbers;
pub mod patcher;
pub mod patches;
pub mod text;
pub mod utils;
