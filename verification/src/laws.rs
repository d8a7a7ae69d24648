//! What holds of the library as a whole, in terms of what goes into an operation and
//! what comes out of it.

pub mod disk;
pub mod filters;
pub mod gallery;
pub mod index;
pub mod listing;
pub mod matching;
pub mod panels;
pub mod passes;
pub mod players;
pub mod playing;
pub mod scans;
pub mod selection;
pub mod settings;
pub mod starting;
pub mod tags;
pub mod texts;
pub mod trees;
