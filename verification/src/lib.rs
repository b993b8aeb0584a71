pub mod client;
pub mod codec;
pub mod errors;
pub mod numeric;
pub mod store;
pub mod token;
pub mod types;
