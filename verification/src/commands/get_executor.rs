use vstd::prelude::*;
use bytes::Bytes;
use crate::buffers::{bytes_content, bytes_as_slice, bytes_clone};
use crate::db::{Db, get_outcome};
use crate::frame::{Frame, FrameView};
use crate::text::{utf8_lossy, utf8_to_string_lossy};

verus! {

/// GET key.
pub struct GetExecutor {
    pub key: Bytes,
}

/// The reply to a read that found `value`, or nothing.
pub open spec fn read_reply(value: Option<Seq<u8>>) -> FrameView {
    match value {
        Some(v) => FrameView::Bulk(v),
        None => FrameView::Null,
    }
}

impl GetExecutor {
    /// Reads the key (its bytes taken as UTF-8) at time `now`: the stored
    /// bytes as a bulk frame while the entry is live, and null otherwise; an
    /// expired entry is removed.
    pub fn execute(&self, db: &mut Db, now: u64) -> (r: Frame)
        ensures
            (final(db)@, r@) == ({
                let (after, value) = get_outcome(old(db)@, utf8_lossy(bytes_content(self.key)), now);
                (after, read_reply(value))
            }),
    {
        let key = utf8_to_string_lossy(bytes_as_slice(&self.key));
        let mut value: Option<Bytes> = None;
        let mut expired = false;
        match db.entries.get(key.as_str()) {
            Some(v) => match v.expiry {
                None => {
                    value = Some(bytes_clone(&v.value));
                },
                Some(exp) => {
                    if exp > now {
                        value = Some(bytes_clone(&v.value));
                    } else {
                        expired = true;
                    }
                },
            },
            None => {},
        }
        if expired {
            db.entries.remove(key.as_str());
            proof {
                assert(db@ =~= old(db)@.remove(key@));
            }
        }
        match value {
            Some(v) => Frame::Bulk(v),
            None => Frame::Null,
        }
    }
}

} // verus!
