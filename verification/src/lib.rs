use vstd::prelude::*;

pub mod text;
pub mod registrar;
pub mod focus;
pub mod paths;
pub mod procinfo;
pub mod x11;
pub mod matcher;
pub mod menu_tree;
pub mod brightness;
pub mod audio;
pub mod network;
pub mod config;
pub mod desktop;
pub mod session;
pub mod settings;
pub mod launch;
pub mod backup;
pub mod notifications;
pub mod window_controls;
pub mod user_service;
pub mod three_finger_drag;
pub mod panel_profile;
pub mod profile;
pub mod control_center;
pub mod media;
pub mod bluetooth;
pub mod cli;
pub mod active_app;
pub mod menu_engine;
pub mod theme;
