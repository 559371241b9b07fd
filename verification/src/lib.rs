//! A distraction-free writing environment: documents and tabs, find and
//! replace, color themes, settings and release checks.

pub mod text;
pub mod search;
pub mod document;
pub mod theme;
pub mod settings;
pub mod updater;
pub mod prerelease;
pub mod shortcuts;
pub mod ime;
