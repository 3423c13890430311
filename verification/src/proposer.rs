//! The proposer — subscribes to drift events and, in a later version,
//! batches them into proposals. For now it keeps nothing.
use vstd::prelude::*;

use crate::drift::DriftPatch;
use crate::types::FileId;

verus! {

pub struct Proposer;

pub struct State;

pub struct Arguments;

/// A command to the proposer.
pub enum Message {
    DriftObserved(DriftEmitted),
    Tick,
    ProposeNow,
}

/// Drift seen by one reconciler.
pub struct DriftEmitted {
    pub file_id: FileId,
    pub drift: DriftPatch,
}

} // verus!
