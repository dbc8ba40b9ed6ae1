//! The tracker URL and length that a torrent's JSON form gives.
use vstd::prelude::*;
use crate::json::{json_as_str, json_field, json_get, json_str, json_text, json_to_string};

verus! {

pub struct MetaInfo {
    pub announce: String,
    pub length: String,
}

/// `from_json` may be asked about `json`: it has an `announce` string and
/// an `info` object with a `length`.
pub open spec fn metainfo_ok(json: serde_json::Value) -> bool {
    &&& json_field(json, "announce"@) matches Some(a) && json_str(a) is Some
    &&& json_field(json, "info"@) matches Some(i) && json_field(i, "length"@) is Some
}

impl MetaInfo {
    /// The text of `announce`, and the JSON text of `info.length`.
    pub fn from_json(json: serde_json::Value) -> (res: Self)
        requires
            metainfo_ok(json),
        ensures
            res.announce@ == json_str(json_field(json, "announce"@).unwrap()).unwrap(),
            res.length@ == json_text(
                json_field(json_field(json, "info"@).unwrap(), "length"@).unwrap(),
            ),
    {
        let announce = match json_get(&json, "announce") {
            Some(a) => match json_as_str(a) {
                Some(s) => s.to_owned(),
                None => {
                    assert(false);
                    String::new()
                },
            },
            None => {
                assert(false);
                String::new()
            },
        };
        let length = match json_get(&json, "info") {
            Some(info) => match json_get(info, "length") {
                Some(l) => json_to_string(l),
                None => {
                    assert(false);
                    String::new()
                },
            },
            None => {
                assert(false);
                String::new()
            },
        };
        MetaInfo { announce, length }
    }

    /// What `from_json` gives, or `None` where `json` lacks an `announce`
    /// string or an `info` object with a `length`, and `from_json` would panic.
    pub fn try_from_json(json: serde_json::Value) -> (res: Option<Self>)
        ensures
            res is Some <==> metainfo_ok(json),
            res matches Some(m) ==> m.announce@ == json_str(json_field(json, "announce"@).unwrap()).unwrap()
                && m.length@ == json_text(
                json_field(json_field(json, "info"@).unwrap(), "length"@).unwrap(),
            ),
    {
        let has_announce = match json_get(&json, "announce") {
            Some(a) => json_as_str(a).is_some(),
            None => false,
        };
        let has_length = match json_get(&json, "info") {
            Some(info) => json_get(info, "length").is_some(),
            None => false,
        };
        if has_announce && has_length {
            Some(MetaInfo::from_json(json))
        } else {
            None
        }
    }
}

} // verus!
