//! Library core of a pixel-art-first image viewer.

pub mod text;
pub mod paths;
pub mod order;
pub mod browse;
pub mod format;
pub mod anim;
pub mod archive;
pub mod cache;
pub mod colo_thumb;
pub mod tiles;
pub mod raster;
pub mod pixels;
pub mod captions;
pub mod filetypes;
pub mod picks;
pub mod ops;
pub mod search;
pub mod scene;
pub mod nav;
pub mod smart;
pub mod playback;
pub mod filters;
pub mod preview;
