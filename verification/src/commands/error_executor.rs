use vstd::prelude::*;
use crate::frame::{Frame, FrameView};

verus! {

/// A request that named a known command wrongly; the message says how.
pub struct ErrorExecutor {
    pub value: String,
}

impl ErrorExecutor {
    /// The reply: an error frame with the message.
    pub fn execute(&self) -> (r: Frame)
        ensures
            r@ == FrameView::Error(self.value@),
    {
        Frame::Error(self.value.clone())
    }
}

} // verus!
