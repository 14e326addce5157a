//! Size-minimising compiler for tracker songs: from a parsed song to an emission plan for a
//! four-channel sound chip's playback routine.

pub mod bits;
pub mod export;
pub mod optimise;
pub mod song;
pub mod uge;
