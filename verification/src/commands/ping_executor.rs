use vstd::prelude::*;
use crate::frame::{Frame, FrameView};

verus! {

/// PING.
pub struct PingExecutor {}

impl PingExecutor {
    /// The reply: the simple string `PONG`.
    pub fn execute(&self) -> (r: Frame)
        ensures
            r@ == FrameView::Simple("PONG"@),
    {
        Frame::Simple(String::from_str("PONG"))
    }
}

} // verus!
