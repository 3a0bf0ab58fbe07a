//! An IPTV relay core: MPEG-TS inspection, seamless switching between bitrate
//! ladders, and the playlist around it.

pub mod address;
pub mod binary64;
pub mod clock;
pub mod config;
pub mod congestion;
pub mod course;
pub mod cutting;
pub mod ffmpeg;
pub mod keyframe;
pub mod ladder;
pub mod listing;
pub mod mpegts;
pub mod playlist;
pub mod prepare;
pub mod preroll;
pub mod reread;
pub mod session;
pub mod splice;
pub mod state;
pub mod steering;
pub mod streambuf;
pub mod tables;
pub mod text;
pub mod units;
