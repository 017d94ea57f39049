pub mod config;
pub mod connection;
pub mod master;
pub mod parser;
pub mod rdb;
pub mod request;
pub mod slave;
pub mod store;
pub mod text;
