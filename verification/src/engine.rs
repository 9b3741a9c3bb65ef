//! Classification engine abstraction: the router orchestrates rules and
//! post-processing around a tier classifier and takes any implementation.

use crate::single::Single;
use vstd::prelude::*;

verus! {

/// Tier classification engine: turns a request into R0 to R3 probabilities.
///
/// Nothing is assumed of an implementation: the router states what it hands
/// to the engine and what it makes of every possible answer.
pub trait ClassifyEngine: Send + Sync {
    /// Classifies `input` into tier probabilities. An answer holds the
    /// probabilities for R0, R1, R2 and R3, and the raw embedding vector that
    /// the head consumed.
    ///
    /// `prev_tier` (0 to 3) is the previous turn's tier. `capture` marks a
    /// real routing decision, as opposed to a preview.
    fn classify(&self, input: &str, prev_tier: Option<u8>, capture: bool) -> (res: Result<
        (Vec<Single>, Vec<Single>),
        String,
    >);

    /// Embedding dimension of the classification backbone.
    fn num_embd(&self) -> (res: usize);

    /// Whether the engine is loaded and ready to classify.
    fn is_initialized(&self) -> (res: bool);

    /// Reloads the classification head after a new one was deployed. An engine
    /// without a reload path of its own does nothing, and that succeeds.
    fn reload(&self) -> (res: Result<(), String>)
        default_ensures
            res == Ok::<(), String>(()),
    {
        Ok(())
    }
}

} // verus!
