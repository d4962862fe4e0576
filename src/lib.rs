//! Converts four-channel tracker modules into the sound-driver format of a
//! handheld console: `mod4` decodes a module into a `Song`, `song_writer`
//! encodes a `Song` into the device's byte layout.
pub mod mod4;
pub mod song;
pub mod song_writer;
