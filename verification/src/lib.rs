//! A multi-path HTTP forward proxy core: per-target accessibility tracking,
//! routing over network paths ("runways"), DNS resolution planning, health
//! probing plans, and HTTP response validation.

pub mod config;
pub mod dns;
pub mod health;
pub mod ip;
pub mod proxy;
pub mod routing;
pub mod runway;
pub mod runway_manager;
pub mod strutil;
pub mod tracker;
pub mod validator;

pub use validator::SuccessValidator;
