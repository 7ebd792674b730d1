//! The dark-mode preference: a boolean kept in its own small JSON
//! file, defaulting to light mode wherever the file or the field is
//! missing.

use vstd::prelude::*;
use crate::StoreError;
use crate::json::{Json, JsonV, ser_value, parse_text, obj_get_last, obj_rfind, jv_members};

verus! {

pub open spec fn k_dark() -> Seq<char> {
    seq!['d', 'a', 'r', 'k', '_', 'm', 'o', 'd', 'e']
}

/// The canonical tree of the dark-mode file.
pub open spec fn dark_tree(dark: bool) -> JsonV {
    JsonV::Obj(seq![(k_dark(), JsonV::Bool(dark))])
}

/// The canonical content of the dark-mode file.
pub open spec fn dark_content(dark: bool) -> Seq<char> {
    ser_value(dark_tree(dark))
}

/// What a dark-mode file's tree means: the value of its boolean
/// `dark_mode` member (the last one, if a duplicate sneaks in), or
/// nothing when the tree is not of the expected shape.
pub open spec fn dark_of_tree(t: JsonV) -> Option<bool> {
    match t {
        JsonV::Obj(ms) => match obj_get_last(ms, k_dark()) {
            Some(JsonV::Bool(b)) => Some(b),
            _ => None,
        },
        _ => None,
    }
}

pub open spec fn dark_from_content(c: Seq<char>) -> Option<bool> {
    match parse_text(c) {
        Some(t) => dark_of_tree(t),
        None => None,
    }
}

fn key_dark_exec() -> (r: Vec<char>)
    ensures
        r@ == k_dark(),
{
    let mut v: Vec<char> = Vec::new();
    v.push('d');
    v.push('a');
    v.push('r');
    v.push('k');
    v.push('_');
    v.push('m');
    v.push('o');
    v.push('d');
    v.push('e');
    proof {
        assert(v@ =~= k_dark());
    }
    v
}

/// Renders the dark-mode preference as the content of its file,
/// `dark_mode.json`, which the caller writes out whole.
pub fn save_dark_mode_preference(dark_mode: bool) -> (r: String)
    ensures
        r@ == dark_content(dark_mode),
{
    let mut ms: Vec<(Vec<char>, Json)> = Vec::new();
    ms.push((key_dark_exec(), Json::Bool(dark_mode)));
    proof {
        crate::json::lemma_jv_members(ms@);
        assert(jv_members(ms@) =~= (dark_tree(dark_mode))->Obj_0);
    }
    let tree = Json::Obj(ms);
    crate::json::to_text(&tree)
}

/// Reads the dark-mode preference from the content of its file.
///
/// A missing file means light mode. A file that is present must hold
/// the expected shape, an object with a boolean `dark_mode` member;
/// anything else — text that is not JSON, a non-object, a missing or
/// non-boolean member — is `CorruptData`.
pub fn load_dark_mode_preference(content: Option<&str>) -> (r: Result<bool, StoreError>)
    ensures
        match r {
            Ok(b) => match content {
                None => b == false,
                Some(c) => dark_from_content(c@) == Some(b),
            },
            Err(e) => {
                &&& e matches StoreError::CorruptData(m) && m@
                    == "Failed to parse dark mode preference"@
                &&& content is Some
                &&& dark_from_content((content->0)@) is None
            },
        },
{
    let c = match content {
        None => {
            return Ok(false);
        },
        Some(c) => c,
    };
    let tree = match crate::json::from_text(c) {
        Some(t) => t,
        None => {
            return Err(StoreError::CorruptData("Failed to parse dark mode preference".to_owned()));
        },
    };
    let ms = match &tree {
        Json::Obj(ms) => ms,
        _ => {
            return Err(StoreError::CorruptData("Failed to parse dark mode preference".to_owned()));
        },
    };
    let kd = key_dark_exec();
    match obj_rfind(ms, &kd) {
        Some(i) => match &ms[i].1 {
            Json::Bool(b) => Ok(*b),
            _ => Err(StoreError::CorruptData("Failed to parse dark mode preference".to_owned())),
        },
        None => Err(StoreError::CorruptData("Failed to parse dark mode preference".to_owned())),
    }
}

} // verus!
