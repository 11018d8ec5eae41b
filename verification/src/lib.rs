//! The verified core of a Rhythia replay renderer: everything that decides
//! what a replay shows, kept apart from the GPU, the encoder process and the
//! file system.
//!
//! Reals are whole numbers of millionths throughout: song times in millionths of
//! a millisecond, places in millionths of a world unit or of a pixel, shares and
//! percentages in millionths.

pub mod analysis;
pub mod audio;
pub mod background;
pub mod blit;
pub mod builtin;
pub mod calendar;
pub mod card;
pub mod colors;
pub mod compose;
pub mod config;
pub mod count;
pub mod drawing;
pub mod encoder;
pub mod error;
pub mod exe_assets;
pub mod extent;
pub mod extraction;
pub mod finish;
pub mod fixed;
pub mod font;
pub mod frame;
pub mod hitreg;
pub mod hud;
pub mod integrity;
pub mod json;
pub mod log;
pub mod mesh;
pub mod meters;
pub mod mods;
pub mod motion;
pub mod movement;
pub mod number;
pub mod nv12;
pub mod overlay;
pub mod pictures;
pub mod quality;
pub mod race;
pub mod replay;
pub mod results;
pub mod rhs;
pub mod scene;
pub mod side;
pub mod signals;
pub mod stats;
pub mod study;
pub mod text;
pub mod timebase;
pub mod timing;
pub mod trail;
pub mod transport;
pub mod trend;
pub mod video;
pub mod window;
pub mod words;
