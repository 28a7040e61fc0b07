//! The folders and files that the app lays out.

use crate::text;
use vstd::prelude::*;

verus! {

/// A folder given by a variable, unless it is empty.
pub fn override_dir(value: &Option<String>) -> (r: Option<String>)
    ensures
        match *value {
            Some(v) => if v@.len() > 0 {
                r matches Some(t) && t@ == v@
            } else {
                r is None
            },
            None => r is None,
        },
{
    match value {
        Some(v) => if text::chars_of(v.as_str()).len() > 0 {
            Some(v.clone())
        } else {
            None
        },
        None => None,
    }
}

/// A file that is laid out where it is missing: its folder below the data folder
/// (none for the data folder itself), its name, and its content.
pub struct Placeholder {
    pub folder: &'static str,
    pub name: &'static str,
    pub content: &'static str,
}

pub open spec fn is_placeholder(p: Placeholder, f: Seq<char>, n: Seq<char>, c: Seq<char>) -> bool {
    p.folder@ == f && p.name@ == n && p.content@ == c
}

/// The files that are laid out where they are missing.
pub fn placeholders() -> (r: Vec<Placeholder>)
    ensures
        r@.len() == 5,
        is_placeholder(r@[0], ""@, "usage.log"@, ""@),
        is_placeholder(r@[1], ""@, "autocomplete.json"@, "{}"@),
        is_placeholder(r@[2], "queue"@, ".keep"@, ""@),
        is_placeholder(r@[3], "logs"@, ".keep"@, ""@),
        is_placeholder(r@[4], "crashes"@, ".keep"@, ""@),
{
    let mut out: Vec<Placeholder> = Vec::new();
    out.push(Placeholder { folder: "", name: "usage.log", content: "" });
    out.push(Placeholder { folder: "", name: "autocomplete.json", content: "{}" });
    out.push(Placeholder { folder: "queue", name: ".keep", content: "" });
    out.push(Placeholder { folder: "logs", name: ".keep", content: "" });
    out.push(Placeholder { folder: "crashes", name: ".keep", content: "" });
    out
}

} // verus!
