pub mod keys;
pub mod collection;
pub mod editor;
mod outside;
pub mod editor_laws;
pub mod page_files;
pub mod layout;
pub mod navigation;
pub mod search;
pub mod pedal;
pub mod library;
pub mod unsafe_force;
pub mod recognition;
pub mod render_queue;
pub mod upgrade;
