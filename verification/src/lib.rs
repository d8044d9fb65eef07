//! Decides which earthquake, early-warning and tsunami reports are announced,
//! and how the announcements read.

pub mod audit;
pub mod config;
pub mod cursors;
pub mod delivery;
pub mod discord;
pub mod feed;
pub mod geo;
pub mod intensity;
pub mod json;
pub mod laws;
pub mod mapgen;
pub mod model;
pub mod notices;
pub mod reading;
pub mod stations;
pub mod text;
pub mod tracker;
