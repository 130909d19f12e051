//! Terminal image viewer core: turns raster images into ASCII art, renders
//! it as ANSI or HTML text, and holds the layout and input rules of the viewer.

pub mod ascii;
pub mod config;
pub mod input;
pub mod layout;
pub mod playback;
pub mod render;
pub mod text;
pub mod view;
