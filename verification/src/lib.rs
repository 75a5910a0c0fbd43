//! What an API gateway decides: which rule takes a request, who it comes from, which upstream it
//! goes to, and what is sent and answered.

pub mod auth;
pub mod config;
pub mod error;
pub mod health_check;
pub mod load_balancer;
pub mod message;
pub mod nacos;
pub mod path_matcher;
pub mod proxy;
pub mod server;
pub mod text;
pub mod websocket;
