//! The pure logic of the bot service: fee estimates, the states a bot,
//! listing or subscription can be in, the rules requests must meet, its
//! settings, the last-price cache, the paper engine's and the demo
//! seeder's simulated trades, API-key hashing and template matching.

pub mod auth;
pub mod billing;
pub mod config;
pub mod db;
pub mod paper;
pub mod price_cache;
pub mod rules;
pub mod seed;
pub mod status;
pub mod strategy;
pub mod templates;
