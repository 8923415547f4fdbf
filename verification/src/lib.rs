//! Container support for Microsoft xWMA (`.xwm`) and Bethesda FUZ (`.fuz`)
//! audio: type detection, and demuxers that turn a byte stream, in whatever
//! pieces it comes, into an elementary stream.
//!
//! Everything here works on plain values. The elements that connect it to a
//! pipeline hand buffers, events and queries in, and push what comes out.

pub mod bytes;
pub mod error;
pub mod events;
pub mod output;

pub mod typefind;

pub mod format;
pub mod timeline;
pub mod model;
pub mod xwmademux;
pub mod laws;
pub mod seeking;
pub mod files;
pub mod file_laws;
pub mod written;
pub mod moments;
pub mod end_to_end;

pub mod fuzdemux;
pub mod fuz_laws;
