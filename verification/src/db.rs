//! The key-value store that GET and SET work on: each key holds the encoded
//! frame it was set to and, optionally, the time at which it expires.
//! Times are milliseconds on the server's monotonic clock.

use vstd::prelude::*;
use vstd::hash_map::StringHashMap;
use bytes::Bytes;
use crate::buffers::bytes_content;

verus! {

/// A stored value.
pub struct DBElement {
    pub value: Bytes,
    /// When the value stops being readable; `None` for never.
    pub expiry: Option<u64>,
}

/// What a stored value holds.
pub struct Entry {
    pub value: Seq<u8>,
    pub expiry: Option<u64>,
}

impl View for DBElement {
    type V = Entry;

    open spec fn view(&self) -> Entry {
        Entry { value: bytes_content(self.value), expiry: self.expiry }
    }
}

/// The store: keys are strings.
pub struct Db {
    pub entries: StringHashMap<DBElement>,
}

impl View for Db {
    type V = Map<Seq<char>, Entry>;

    open spec fn view(&self) -> Map<Seq<char>, Entry> {
        self.entries@.map_values(|e: DBElement| e@)
    }
}

/// Whether an entry can still be read at `now`.
pub open spec fn is_live(e: Entry, now: u64) -> bool {
    match e.expiry {
        None => true,
        Some(t) => t > now,
    }
}

/// A read of `key` at `now`: the value when it is live; an expired entry is
/// removed and reads as nothing.
pub open spec fn get_outcome(db: Map<Seq<char>, Entry>, key: Seq<char>, now: u64) -> (Map<Seq<char>, Entry>, Option<Seq<u8>>) {
    if db.contains_key(key) {
        if is_live(db[key], now) {
            (db, Some(db[key].value))
        } else {
            (db.remove(key), None)
        }
    } else {
        (db, None)
    }
}

/// A write of `value` under `key` at `now`: with no expiry it is kept for
/// good; with a positive expiry of `px` milliseconds it is kept until
/// `now + px`; an expiry of zero or less leaves the store unchanged.
pub open spec fn set_outcome(db: Map<Seq<char>, Entry>, key: Seq<char>, value: Seq<u8>, px: Option<i64>, now: u64) -> Map<Seq<char>, Entry> {
    match px {
        None => db.insert(key, Entry { value, expiry: None }),
        Some(ms) => if ms > 0 {
            db.insert(key, Entry { value, expiry: Some((now + ms) as u64) })
        } else {
            db
        },
    }
}

impl Db {
    /// An empty store.
    pub fn new() -> (r: Db)
        ensures
            r@ == Map::<Seq<char>, Entry>::empty(),
    {
        let r = Db { entries: StringHashMap::new() };
        proof {
            assert(r@ =~= Map::<Seq<char>, Entry>::empty());
        }
        r
    }
}

} // verus!
