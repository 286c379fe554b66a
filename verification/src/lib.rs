//! Beckon: the verified core of a desktop assistant launcher.

pub mod text;
pub mod datetime;
pub mod ical;
pub mod eds;
pub mod calendar;
pub mod tasks;
pub mod config;
pub mod tools;
pub mod mail;
pub mod mcp;
pub mod order;
pub mod settings;
pub mod spotlight;
pub mod transcript;
pub mod desktop;
