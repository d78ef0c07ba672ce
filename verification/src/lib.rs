pub mod config;
pub mod groups;
pub mod json;
pub mod links;
pub mod migration;
pub mod models;
pub mod process;
pub mod region;
pub mod registry;
pub mod session_state;
pub mod store;
pub mod switching;
pub mod text;
