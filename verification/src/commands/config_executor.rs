use vstd::prelude::*;
use vstd::hash_map::StringHashMap;
use vstd::utf8::encode_utf8;
use bytes::Bytes;
use crate::buffers::{bytes_content, bytes_as_slice, bytes_from_vec};
use crate::frame::{Frame, FrameView, append_bytes};
use crate::text::{utf8_lossy, lowercase, utf8_to_string_lossy, to_lowercase, same_text};
use crate::wire::encode_frame;

verus! {

/// CONFIG subcommand key: reads a setting of the server.
pub struct ConfigExecutor {
    pub command: Bytes,
    pub key: Bytes,
}

/// The setting that the key names, its bytes taken as UTF-8.
pub open spec fn config_key(key: Bytes) -> Seq<char> {
    utf8_lossy(bytes_content(key))
}

/// The reply to CONFIG with subcommand `command`, for a setting `key` that
/// holds `value`: for `GET` (in any case) an array of two bulk frames, each
/// holding the bulk encoding of the key and of the value; otherwise an error.
pub open spec fn config_reply(command: Seq<char>, key: Seq<char>, value: Seq<char>) -> FrameView {
    if lowercase(command) == "get"@ {
        FrameView::Array(seq![
            FrameView::Bulk(encode_frame(FrameView::Bulk(encode_utf8(key)))),
            FrameView::Bulk(encode_frame(FrameView::Bulk(encode_utf8(value)))),
        ])
    } else {
        FrameView::Error("invalid command"@)
    }
}

/// The bulk encoding of a string: `$`, its length in bytes, and its bytes.
fn bulk_string(text: &str) -> (r: Bytes)
    ensures
        bytes_content(r) == encode_frame(FrameView::Bulk(encode_utf8(text@))),
{
    let data = text.as_bytes();
    let mut out: Vec<u8> = Vec::new();
    out.push(36);
    crate::decimal::write_decimal(data.len() as u64, &mut out);
    out.push(13);
    out.push(10);
    append_bytes(&mut out, data);
    out.push(13);
    out.push(10);
    proof {
        assert(out@ =~= encode_frame(FrameView::Bulk(encode_utf8(text@))));
    }
    bytes_from_vec(out)
}

impl ConfigExecutor {
    /// Looks the setting up and answers as `config_reply` says. The setting
    /// must exist: the lookup of a missing one panics in the server.
    pub fn execute(&self, cfg: &StringHashMap<String>) -> (r: Frame)
        requires
            cfg@.contains_key(config_key(self.key)),
        ensures
            r@ == config_reply(utf8_lossy(bytes_content(self.command)), config_key(self.key), cfg@[config_key(self.key)]@),
    {
        let command = utf8_to_string_lossy(bytes_as_slice(&self.command));
        let key = utf8_to_string_lossy(bytes_as_slice(&self.key));
        let value = match cfg.get(key.as_str()) {
            Some(v) => v.clone(),
            None => {
                proof {
                    assert(false);
                }
                String::new()
            },
        };
        let lower = to_lowercase(command.as_str());
        if same_text(lower.as_str(), "get") {
            let name = bulk_string(key.as_str());
            let value = bulk_string(value.as_str());
            let items = vec![Frame::Bulk(name), Frame::Bulk(value)];
            proof {
                crate::frame::lemma_views(items@);
                assert(crate::frame::views(items@) =~= seq![
                    FrameView::Bulk(encode_frame(FrameView::Bulk(encode_utf8(key@)))),
                    FrameView::Bulk(encode_frame(FrameView::Bulk(encode_utf8(cfg@[key@]@)))),
                ]);
            }
            Frame::Array(items)
        } else {
            Frame::Error(String::from_str("invalid command"))
        }
    }

    /// Looks the setting up as `execute` does; `None` when the key names no
    /// setting (where `execute` may not be called).
    pub fn try_execute(&self, cfg: &StringHashMap<String>) -> (r: Option<Frame>)
        ensures
            cfg@.contains_key(config_key(self.key)) ==> (r matches Some(f) && f@ == config_reply(utf8_lossy(bytes_content(self.command)), config_key(self.key), cfg@[config_key(self.key)]@)),
            !cfg@.contains_key(config_key(self.key)) ==> r is None,
    {
        let key = utf8_to_string_lossy(bytes_as_slice(&self.key));
        if cfg.contains_key(key.as_str()) {
            Some(self.execute(cfg))
        } else {
            None
        }
    }
}

} // verus!
