//! Clipboard history: the verified core of a clipboard manager.
pub mod clock;
pub mod display;
pub mod entry;
pub mod hashing;
pub mod laws;
pub mod like_match;
pub mod model;
pub mod paths;
pub mod poller;
pub mod settings;
pub mod shortcut;
pub mod store;
pub mod text;
