//! The URL resolver: normalizes a user-given site reference, resolves
//! relative references against a base, and recognizes inline data payloads.
//! Parsing and joining themselves are the `url` crate's work, reached through
//! trusted wrappers whose results carry names.
use vstd::prelude::*;

use crate::text::{
    spec_opt_str, spec_starts_with, spec_trim, starts_with, trim_str,
};

verus! {

/// What `url::Url::parse` followed by `as_str` returns for a reference, when
/// it parses as an absolute URL: the normalized rendering. Relies on the
/// `url` crate's documented behaviour: the result depends on the input
/// characters alone.
pub uninterp spec fn parsed_url_of(s: Seq<char>) -> Option<Seq<char>>;

/// Relies on `url::Url::parse` and `Url::as_str`: an absolute reference
/// re-rendered in normalized form; a relative or malformed reference is
/// refused.
#[verifier::external_body]
pub(crate) fn url_parse_normalize(s: &str) -> (r: Option<String>)
    ensures
        spec_opt_str(r) == parsed_url_of(s@),
{
    match url::Url::parse(s) {
        Ok(u) => Some(u.as_str().to_owned()),
        Err(_) => None,
    }
}

/// What parsing `base`, joining `rel` against it, and rendering the outcome
/// returns, when every step succeeds. Relies on the `url` crate's documented
/// behaviour: the result depends on the two inputs alone.
pub uninterp spec fn joined_url_of(base: Seq<char>, rel: Seq<char>) -> Option<Seq<char>>;

/// Relies on `url::Url::parse` and `Url::join`: `rel` resolved against
/// `base`, normalized; an unusable base or reference is refused.
#[verifier::external_body]
pub(crate) fn url_join_normalize(base: &str, rel: &str) -> (r: Option<String>)
    ensures
        spec_opt_str(r) == joined_url_of(base@, rel@),
{
    match url::Url::parse(base) {
        Ok(b) => match b.join(rel) {
            Ok(u) => Some(u.as_str().to_owned()),
            Err(_) => None,
        },
        Err(_) => None,
    }
}

/// What the last path segment of a parsed URL is, when the URL parses and
/// carries path segments. Relies on the `url` crate's documented behaviour:
/// the result depends on the input alone.
pub uninterp spec fn url_last_segment_of(s: Seq<char>) -> Option<Seq<char>>;

/// Relies on `url::Url::parse` and `Url::path_segments`: the final path
/// segment of an absolute URL that has segments.
#[verifier::external_body]
pub(crate) fn url_last_segment(s: &str) -> (r: Option<String>)
    ensures
        spec_opt_str(r) == url_last_segment_of(s@),
{
    match url::Url::parse(s) {
        Ok(u) => match u.path_segments() {
            Some(mut segments) => match segments.next_back() {
                Some(segment) => Some(segment.to_owned()),
                None => None,
            },
            None => None,
        },
        Err(_) => None,
    }
}

/// A resolved record reference: inline data payloads pass through unchanged,
/// absolute references parse as-is, anything else joins against the base;
/// what neither parses nor joins yields nothing.
pub open spec fn spec_resolve(base: Seq<char>, raw: Seq<char>) -> Option<Seq<char>> {
    if spec_starts_with(raw, "data:"@) {
        Some(raw)
    } else {
        match parsed_url_of(raw) {
            Some(u) => Some(u),
            None => joined_url_of(base, raw),
        }
    }
}

/// Resolves a reference against a base URL, passing inline data payloads
/// through unchanged.
pub fn resolve_url(base: &str, raw: &str) -> (r: Option<String>)
    ensures
        spec_opt_str(r) == spec_resolve(base@, raw@),
{
    if starts_with(raw, "data:") {
        return Some(String::from_str(raw));
    }
    match url_parse_normalize(raw) {
        Some(u) => Some(u),
        None => url_join_normalize(base, raw),
    }
}

/// A resolved stylesheet import: inline data payloads are never stylesheets,
/// absolute references parse as-is, anything else joins against the base.
pub open spec fn spec_resolve_import(base: Seq<char>, raw: Seq<char>) -> Option<Seq<char>> {
    if spec_starts_with(raw, "data:"@) {
        None
    } else {
        match parsed_url_of(raw) {
            Some(u) => Some(u),
            None => joined_url_of(base, raw),
        }
    }
}

/// Resolves an import reference against a base URL, refusing inline data
/// payloads.
pub fn resolve_import_url(base: &str, raw: &str) -> (r: Option<String>)
    ensures
        spec_opt_str(r) == spec_resolve_import(base@, raw@),
{
    if starts_with(raw, "data:") {
        return None;
    }
    match url_parse_normalize(raw) {
        Some(u) => Some(u),
        None => url_join_normalize(base, raw),
    }
}

/// The filename a URL points at: its last path segment, when the URL is no
/// inline payload, parses, and that segment is not empty.
pub open spec fn spec_file_name_from_url(u: Seq<char>) -> Option<Seq<char>> {
    if spec_starts_with(u, "data:"@) {
        None
    } else {
        match url_last_segment_of(u) {
            Some(segment) => if segment.len() > 0 {
                Some(segment)
            } else {
                None
            },
            None => None,
        }
    }
}

/// Extracts the filename a URL points at.
pub fn file_name_from_url(u: &str) -> (r: Option<String>)
    ensures
        spec_opt_str(r) == spec_file_name_from_url(u@),
{
    if starts_with(u, "data:") {
        return None;
    }
    match url_last_segment(u) {
        Some(segment) => {
            if segment.as_str().unicode_len() > 0 {
                Some(segment)
            } else {
                None
            }
        },
        None => None,
    }
}

/// A user-given site reference with a scheme made explicit: trimmed, and
/// prefixed with `https://` when it names neither `http` nor `https`.
pub open spec fn spec_normalize_target(s: Seq<char>) -> Seq<char> {
    let t = spec_trim(s);
    if spec_starts_with(t, "http://"@) || spec_starts_with(t, "https://"@) {
        t
    } else {
        "https://"@ + t
    }
}

/// Prefixes `https://` onto a site reference that carries no scheme of its
/// own.
pub fn normalize_target_url(input: &str) -> (result: String)
    ensures
        result@ == spec_normalize_target(input@),
{
    let trimmed = trim_str(input);
    if starts_with(trimmed.as_str(), "http://") || starts_with(trimmed.as_str(), "https://") {
        trimmed
    } else {
        let mut out = String::from_str("https://");
        out.append(trimmed.as_str());
        out
    }
}

} // verus!
