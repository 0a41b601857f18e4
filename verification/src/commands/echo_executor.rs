use vstd::prelude::*;
use bytes::Bytes;
use crate::buffers::{bytes_content, bytes_as_slice, bytes_copy_from_slice};
use crate::frame::{Frame, FrameView};

verus! {

/// ECHO value.
pub struct EchoExecutor {
    pub value: Bytes,
}

impl EchoExecutor {
    /// The reply: a copy of the value as a bulk frame.
    pub fn execute(&self) -> (r: Frame)
        ensures
            r@ == FrameView::Bulk(bytes_content(self.value)),
    {
        let value = bytes_as_slice(&self.value);
        Frame::Bulk(bytes_copy_from_slice(value))
    }
}

} // verus!
