//! The code synthesizer for key-value engines.
use vstd::prelude::*;

verus! {

/// Synthesizes the source of a key-value engine for a chosen design.
pub struct WokSynth;

} // verus!
