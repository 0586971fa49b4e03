//! The data the click-track renderer consumes: one PCM click for strong
//! beats and one for weak beats. Loading and mixing the samples is I/O work
//! and lives with the renderer, outside this library.

use vstd::prelude::*;

verus! {

/// The two click sounds of the metronome, as 16-bit PCM samples.
#[derive(Debug)]
pub struct Metronome {
    pub weak: Vec<i16>,
    pub strong: Vec<i16>,
}

} // verus!
