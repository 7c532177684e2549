//! The state snapshot a websocket client receives on connecting.

use vstd::prelude::*;

verus! {

/// Latest state of the predictor as shown to websocket clients.
#[derive(Clone, Debug)]
pub struct ServerSnapshot {
    /// Kind of message.
    pub kind: &'static str,
    pub status: String,
    pub total_win: usize,
    pub total_round: usize,
    pub preds: Vec<usize>,
    pub lost_in_arrow: usize,
}

} // verus!
