//! The states of the parts of the window, and what is done in them.

pub mod gallery;
pub mod sidebar;
pub mod tag_editor;
pub mod viewer;
