//! Verified core of a menu-bar dashboard for local development servers: it
//! reads which ports listen, recognises the web servers among them, finds
//! their processes and working directories, and keeps a saved list of servers
//! up to date across scans, with user-chosen labels.
pub mod text;
pub mod server;
pub mod ports;
pub mod process;
pub mod procargs;
pub mod page;
pub mod commands;
pub mod laws;
pub mod parsing_laws;
