//! A verified core for an evdev keyboard remapper.
//!
//! The library holds the event-processing engine of the remapper: the state
//! machine that turns a stream of physical key events into the stream of
//! synthesized output events, honouring dual-role keys (hold vs. tap) and
//! chord remaps, together with the compiled mapping table and the pure parts
//! of device selection and configuration compilation.  Device I/O, uinput,
//! TOML reading and the CLI live outside the library.

pub mod keys;
pub mod mapping;
pub mod engine;
pub mod deviceinfo;
