//! Verified core of a wallpaper rotator.
//!
//! The library tracks a collection of image files together with per-image
//! show counts, keeps that collection consistent with the contents of a
//! watched directory, re-centers the counts for numeric stability, draws the
//! next wallpaper from a count-biased distribution, and encodes the whole
//! state into a self-describing binary form for persistence.
//!
//! Everything that reads a directory, touches the state file or talks to a
//! desktop environment lives outside this crate; the library only works on
//! plain values handed to it.

pub mod args;
pub mod catalog;
pub mod codec;
pub mod select;
pub mod strutil;
pub mod wallpapers;
