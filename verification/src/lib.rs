//! Verified core of `mlab-unifi`, a command line client for the two
//! key-authenticated UniFi APIs.
//!
//! What the commands decide lives here, over plain values: the JSON
//! documents the consoles return (as [`json::Json`]), the profiles, the
//! paging decisions, the audit and posture rules, the firewall reachability
//! matrix, the snapshot comparison and the rendering decisions. Fetching,
//! printing, the terminal, the prompts and the little that needs floating
//! point are the job of the program around it.

mod text;
pub mod json;
pub mod json_text;
pub mod config;
pub mod registry;
pub mod site;
pub mod client;
pub mod firmware;
pub mod table;
pub mod enrich;
pub mod sort;
pub mod secrets;
pub mod audit;
pub mod posture;
pub mod blast;
pub mod diff;
pub mod advisories;
pub mod render;
pub mod ui;
pub mod wifi;
pub mod network;
pub mod footprint;
pub mod live;
pub mod shadow;
pub mod login;
pub mod devices;
pub mod snapshot;
pub mod api;
pub mod calendar;
