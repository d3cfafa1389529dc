pub mod admin;
pub mod auth;
pub mod cli;
pub mod config;
pub mod dedup;
pub mod editor;
pub mod grid;
pub mod importer;
pub mod kiosk;
pub mod policy;
pub mod preview;
pub mod quiz;
pub mod sorted;
pub mod text;
pub mod timer;
pub mod web;
