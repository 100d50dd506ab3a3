//! Verified core of an audio practice and transcription tool.

use vstd::prelude::*;

pub mod contrast;
pub mod archive;
pub mod decoder;
pub mod engine;
pub mod markup;
pub mod paths;
pub mod playback;
pub mod project;
pub mod shortcuts;
pub mod tags;
pub mod text;
pub mod timefmt;
pub mod tone;
pub mod viewport;

verus! {

} // verus!
