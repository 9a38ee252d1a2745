//! ClipCut: the logic of a fast video clipping tool.

pub mod config;
pub mod encode;
pub mod export;
pub mod fixed;
pub mod library;
pub mod marks;
pub mod media;
pub mod panel;
pub mod player;
pub mod queue;
pub mod render;
pub mod session;
pub mod text;
pub mod timecode;
