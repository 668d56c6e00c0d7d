use vstd::prelude::*;

use crate::keys::{normalize_entries, spec_normalize};
use crate::repair::{repair, spec_repair};
use crate::table::entry_views;
use crate::text::{spec_trim, str_chars, trim_chars};

verus! {

/// The names a buffer yields when read as a list-of-strings document: an
/// object with a `names` property holding an array of strings. The result
/// depends on the buffer alone; `None` stands for a buffer that does not
/// parse that way.
pub uninterp spec fn parsed_names(s: Seq<char>) -> Option<Seq<Seq<char>>>;

/// Relies on serde_json's `from_str` for `Value` and the accessors
/// `Value::get`, `Value::as_array` and `Value::as_str`: the buffer parses as
/// JSON whose `names` property is an array of strings, and the outcome is a
/// function of the buffer alone.
#[verifier::external_body]
fn parse_names(raw: &str) -> (r: Option<Vec<String>>)
    ensures
        r is Some <==> parsed_names(raw@) is Some,
        r is Some ==> r->0@.map_values(|s: String| s@) == parsed_names(raw@)->0,
{
    let v: serde_json::Value = serde_json::from_str(raw).ok()?;
    let arr = v.get("names")?.as_array()?;
    let mut out = Vec::new();
    for item in arr {
        out.push(item.as_str()?.to_string());
    }
    Some(out)
}

/// Whether a cache document's content short-circuits generation: it does iff
/// it exists and is non-empty after trimming.
pub open spec fn spec_cache_hit(content: Option<Seq<char>>) -> bool {
    &&& content is Some
    &&& spec_trim(content->0).len() > 0
}

/// Where the raw buffer for a leaf comes from: the cached text when it
/// short-circuits, otherwise nothing — the service must be invoked.
pub open spec fn spec_plan(content: Option<Seq<char>>) -> Option<Seq<char>> {
    if spec_cache_hit(content) {
        content
    } else {
        None
    }
}

/// Decides whether an already-cached document is used for a leaf. `Some`
/// carries the cached raw text to reuse; `None` means the service has to be
/// invoked and its raw answer written to the cache.
pub fn plan_source(content: Option<String>) -> (r: Option<String>)
    ensures
        match r {
            Some(s) => {
                &&& content is Some
                &&& s@ == content->0@
                &&& spec_cache_hit(Some(content->0@))
            },
            None => !spec_cache_hit(
                match content {
                    Some(s) => Some(s@),
                    None => None,
                },
            ),
        },
{
    match content {
        None => None,
        Some(s) => {
            let chars = str_chars(s.as_str());
            let t = trim_chars(&chars);
            if t.len() > 0 {
                Some(s)
            } else {
                None
            }
        },
    }
}

/// An existing non-empty cache document prevents any service invocation: the
/// plan for such content is to reuse it as it stands.
pub proof fn lemma_cache_short_circuit(content: Option<Seq<char>>)
    requires
        spec_cache_hit(content),
    ensures
        spec_plan(content) == content,
        spec_plan(content) is Some,
{
}

/// One generation attempt over a raw buffer, cached or fresh from the
/// service: the buffer is repaired, parsed as a list-of-strings document and,
/// on success, handed to the normalizer. `None` reports a buffer that even
/// repair could not make parseable; the caller retries generation.
pub fn attempt_entries(raw: &str, prefix: &str) -> (r: Option<Vec<(String, String)>>)
    ensures
        match parsed_names(spec_repair(raw@)) {
            Some(ns) => {
                &&& r is Some
                &&& entry_views(r->0@) == spec_normalize(ns, prefix@)
            },
            None => r is None,
        },
{
    let repaired = repair(raw);
    match parse_names(repaired.as_str()) {
        None => None,
        Some(names) => Some(normalize_entries(&names, prefix)),
    }
}

} // verus!
