pub mod bencode;
pub mod config;
pub mod adysec_engine;
pub mod crawler;
pub mod dht;
pub mod hexcode;
pub mod metadata;
pub mod model;
pub mod pipeline;
pub mod search;
pub mod text;
pub mod storage;
