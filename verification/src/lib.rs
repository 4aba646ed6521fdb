//! Core of a desktop pet: WebM/EBML parsing, pixel composition, the behaviour
//! state machine, menu data, control-API routing and asset-import planning.

pub mod menu;
pub mod ebml;
pub mod webm;
pub mod gfx;
pub mod clip;
pub mod text;
pub mod behavior;
pub mod control;
pub mod log;
pub mod state;
pub mod thumb;
pub mod tray;
pub mod db;
pub mod config;
pub mod pet;
pub mod import;
pub mod assets;
pub mod autostart;
pub mod keyframe;
pub mod convert;
