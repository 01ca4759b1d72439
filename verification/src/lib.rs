pub mod handlers;
pub mod json;
pub mod score;
pub mod store;
