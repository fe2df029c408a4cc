//! Verified logic of local speech: voices that users import from recordings, and the
//! playback of the speech that is generated with them.
//!
//! - `wav` reads and writes recordings, `resample` brings them to the rate of stored
//!   voices, and `voices` keeps the registry of imported voices, which `identity` names by
//!   their content.
//! - `reading` and `writing` state which files are recordings and what their bytes stand
//!   for, `fidelity` what a recording keeps in 16 bits, and `interpolation` what a change
//!   of its rate keeps.
//! - `streaming` assembles generated speech into playback buffers, `playback_speed`
//!   surrounds the time stretcher, and `text` decides what is spoken and shown.
//! - `binary32` and `rounding` are the arithmetic under all of this: samples are held as
//!   the bits of binary32 numbers, and `accuracy` states that every operation on them gives
//!   the nearest representable result.
//!
//! Files, the audio device and the time stretcher are outside.  What was seen of them comes
//! in as plain values or through callbacks, and what is to be done goes out the same way.

pub mod accuracy;
pub mod binary32;
pub mod fidelity;
pub mod identity;
pub mod interpolation;
pub mod playback_speed;
pub mod reading;
pub mod resample;
pub mod rounding;
pub mod streaming;
pub mod text;
pub mod voices;
pub mod wav;
pub mod writing;
