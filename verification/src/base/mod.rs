pub mod errors;
pub mod types;
pub mod utils;
pub mod validators;
