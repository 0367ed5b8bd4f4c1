pub mod auth;
pub mod config;
pub mod input;
pub mod packets;
pub mod replies;
pub mod room;
pub mod rooms;
pub mod store;
pub mod tree;
pub mod vault;
