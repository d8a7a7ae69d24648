//! MicroMedia: the rules of a portable media library.
#![allow(unused_imports)]

pub mod app;
pub mod config;
pub mod db;
pub mod filter;
pub mod graphics;
pub mod hash;
pub mod laws;
pub mod media;
pub mod mpv;
pub mod names;
pub mod order;
pub mod overlay;
pub mod paths;
pub mod player;
pub mod scanner;
pub mod selection;
pub mod seqs;
pub mod sort;
pub mod tagging;
pub mod text;
pub mod thumbnail;
pub mod thumbs;
pub mod tree;
pub mod ui;
pub mod workers;
