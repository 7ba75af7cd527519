pub mod auth;
pub mod blockchain;
pub mod challenge;
pub mod config;
pub mod error;
pub mod models;
pub mod state;
pub mod text;
pub mod websocket;
