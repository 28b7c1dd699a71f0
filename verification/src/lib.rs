//! Verified core of a terminal dashboard for PM2 processes and Caddy static sites.
pub mod actions;
pub mod app;
pub mod cli;
pub mod clock;
pub mod data;
pub mod fuzzy;
pub mod json;
pub mod keys;
pub mod rank;
pub mod sort;
pub mod text;
pub mod ui;
