//! A state manager's store: what it decides about the places a struct
//! declares, the facts a store records about its own bytes, the engines it
//! can run on, and the threads that write it in the background.

pub mod path;
pub mod meta;

pub mod moved;
pub mod moved_laws;
pub mod filename;
pub mod builder;
pub mod text;
pub mod format;
pub mod debouncer;
pub mod watching;
pub mod files;
pub mod declared;
pub mod check;
pub mod instances;
pub mod opening;
pub mod buffer;
pub mod overlay;
pub mod events;
pub mod commits;
pub mod closing;
pub mod text_error;
pub mod owners;
pub mod places;
pub mod saving;
pub mod document;
pub mod memory;
pub mod levels;
pub mod migrating;
pub mod laying;
pub mod reactive;
pub mod changes;
