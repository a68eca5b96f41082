//! The decisions behind ClipSync, a clipboard that several computers share.
//!
//! Windows, sockets, files and the clipboard itself are the program's business. This
//! library decides what is done with them: what a message leads to, which bytes of a file
//! are still missing, which of several connections is used, who is trusted, and what the
//! tray says about it all. Everything is a plain value, time included, so that every
//! decision can be stated exactly and proved.

// Characters, numbers and addresses.
pub mod text;
pub mod digits;
pub mod binary64;
pub mod size_parse;
pub mod rate;
pub mod ipv4;
pub mod wallclock;

// What devices exchange, and what is kept.
pub mod types;
pub mod language;
pub mod config;
pub mod device_name;
pub mod known_peers;
pub mod addrbook;

// Files on their way.
pub mod filecache;
pub mod filetransfer;
pub mod hub;

// Connections.
pub mod net_dial;
pub mod net_manager;
pub mod net_pump;
pub mod wiring;

// Pairing.
pub mod host_probe;
pub mod pairing_session;
pub mod pairing_cli;
pub mod pairing_ui;
pub mod pairing_join;

// What the user sees.
pub mod tray_text;
pub mod tray_menu;
pub mod tray_status;
pub mod tray_icon_draw;
pub mod tray;
pub mod tray_bridge;
pub mod dialog;
pub mod prompt_layout;
pub mod autostart;
pub mod logging;
pub mod cli;
