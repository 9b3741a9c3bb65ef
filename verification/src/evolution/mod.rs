//! Self-evolution of the classification head: captured decisions are
//! labelled, the head is fine-tuned on them, and a new head is deployed only
//! where it is no worse on a fixed evaluation pack.

pub mod capture;
pub mod events;
pub mod hex;
pub mod mark;
pub mod pack;
pub mod run;
