pub mod decode;
pub mod fetcher;
pub mod parser;
