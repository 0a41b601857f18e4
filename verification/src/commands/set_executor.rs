use vstd::prelude::*;
use bytes::Bytes;
use crate::buffers::{bytes_content, bytes_as_slice};
use crate::db::{Db, DBElement, Entry, set_outcome};
use crate::frame::{Frame, FrameView};
use crate::text::{utf8_lossy, utf8_to_string_lossy};
use crate::wire::encode_frame;

verus! {

/// SET key value [PX milliseconds].
pub struct SetExecutor {
    pub key: Bytes,
    pub value: Frame,
    pub px: Option<i64>,
}

/// Whether the expiry time `now + px` fits the clock; the server's clock
/// arithmetic panics past it.
pub open spec fn expiry_fits(px: Option<i64>, now: u64) -> bool {
    match px {
        Some(ms) => ms > 0 ==> now + ms <= u64::MAX,
        None => true,
    }
}

impl SetExecutor {
    /// Stores the encoded value under the key (its bytes taken as UTF-8) as
    /// `set_outcome` says, and replies `OK`, also when a non-positive expiry
    /// leaves the store unchanged.
    pub fn execute(&self, db: &mut Db, now: u64) -> (r: Frame)
        requires
            expiry_fits(self.px, now),
        ensures
            final(db)@ == set_outcome(old(db)@, utf8_lossy(bytes_content(self.key)), encode_frame(self.value@), self.px, now),
            r@ == FrameView::Simple("OK"@),
    {
        let key = utf8_to_string_lossy(bytes_as_slice(&self.key));
        match self.px {
            Some(px) => {
                if px > 0 {
                    let element = DBElement { value: self.value.encode(), expiry: Some(now + px as u64) };
                    db.entries.insert(key, element);
                    proof {
                        assert(db@ =~= set_outcome(old(db)@, utf8_lossy(bytes_content(self.key)), encode_frame(self.value@), self.px, now));
                    }
                }
            },
            None => {
                let element = DBElement { value: self.value.encode(), expiry: None };
                db.entries.insert(key, element);
                proof {
                    assert(db@ =~= set_outcome(old(db)@, utf8_lossy(bytes_content(self.key)), encode_frame(self.value@), self.px, now));
                }
            },
        }
        Frame::Simple(String::from_str("OK"))
    }
}

} // verus!
