pub mod errors;
pub mod handlers;
pub mod models;
pub mod security;
pub mod store;
pub mod token;
