pub mod auth;
pub mod db;
pub mod laws;
pub mod log;
pub mod migrate;
pub mod payload;
pub mod pokes;
pub mod promises;
pub mod rate;
pub mod server;
pub mod settings;
pub mod streams;
pub mod table;
pub mod text;
