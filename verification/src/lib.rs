//! The verified core of an MKV subtitle editor: the media model, the text
//! formats of subtitles, the decisions of its two FFmpeg back ends, the
//! server that hands edited texts to `ffmpeg`, and the font work.
pub mod text;
pub mod number;
pub mod media;
pub mod ass;
pub mod probe;
pub mod paths;
pub mod ffi;
pub mod server;
pub mod fonts;
pub mod service;
