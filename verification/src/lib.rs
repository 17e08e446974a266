//! The decisions of a web remote control for mpv.

pub mod api;
pub mod browse;
pub mod cli;
pub mod commands;
pub mod host;
pub mod json;
pub mod lan;
pub mod mpv;
pub mod path;
pub mod qr;
pub mod status;
pub mod supervisor;
pub mod text;
pub mod ws;
