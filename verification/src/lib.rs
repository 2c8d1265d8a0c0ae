//! Arbitration of the framebuffer between the programs that draw on it.
//!
//! Programs that write to one framebuffer overwrite each other, and the screen flickers.
//! This library decides who may draw where. It keeps the list of the connected clients,
//! finds the scene they bring about and the layers that scene allows, and works out for
//! each client whether it is shown and which areas it must leave to clients above it.
//! Sockets, files and processes are the business of the program around it.
pub mod cli;
pub mod protocol;
pub mod scenes;
pub mod server;
pub mod sessions;
pub mod text;
pub mod tmux;
pub mod visibility;
