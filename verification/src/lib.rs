//! Game logic of a Zappy server: the world map and its resources, players
//! and eggs, the timing of actions, incantations, ejections, broadcasts,
//! the graphical-client protocol and the command-line configuration.
use vstd::prelude::*;

pub mod actions;
pub mod authentication;
pub mod client;
pub mod command;
pub mod config;
pub mod console;
pub mod constants;
pub mod crosshair;
pub mod cube;
pub mod ejection;
pub mod elevation;
pub mod entities;
pub mod game;
pub mod gui;
pub mod gui_messages;
pub mod incantation;
pub mod lifecycle;
pub mod network;
pub mod objects;
pub mod plugins;
pub mod protocol;
pub mod resources;
pub mod scheduler;
pub mod setup;
pub mod sound;
pub mod text;
pub mod timing;
pub mod vision;
pub mod world;

verus! {

} // verus!
