pub mod config;
pub mod loader;
pub mod messenger;
pub mod state;
pub mod supervisor;
pub mod uid;
