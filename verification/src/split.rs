//! The structural splitter: scheme, host, path and query of a URL-like text.
//!
//! The split is naive and total. It looks for the first `://`, then for the
//! first `/` after it, then for the first `?` after that, and validates
//! nothing.

use crate::text::{
    find_byte, find_separator, free_of, index_from, is_boundary, lemma_ascii_boundaries,
    lemma_index_from, lemma_separator_from, lemma_str_valid, separator_at, separator_from,
    slice_str, QUESTION, SLASH,
};
use vstd::prelude::*;
use vstd::string::*;
use vstd::utf8::*;

verus! {

/// The length of the scheme, its `://` included; zero where `s` holds no `://`.
pub open spec fn scheme_len(s: Seq<u8>) -> int {
    let at = separator_from(s, 0);
    if at < s.len() {
        at + 3
    } else {
        0
    }
}

/// Where the host ends: the first `/` after the scheme, or the end of `s`.
pub open spec fn host_end(s: Seq<u8>) -> int {
    index_from(s, SLASH, scheme_len(s))
}

/// Where the path ends: the first `?` at or after the end of the host, or the
/// end of `s`.
pub open spec fn path_end(s: Seq<u8>) -> int {
    index_from(s, QUESTION, host_end(s))
}

/// The scheme with its trailing `://`, or nothing.
pub open spec fn scheme_of(s: Seq<u8>) -> Seq<u8> {
    s.subrange(0, scheme_len(s))
}

/// The host: what stands between the scheme and the first `/`.
pub open spec fn host_of(s: Seq<u8>) -> Seq<u8> {
    s.subrange(scheme_len(s), host_end(s))
}

/// The path: from the first `/` after the scheme up to the first `?`.
pub open spec fn path_of(s: Seq<u8>) -> Seq<u8> {
    s.subrange(host_end(s), path_end(s))
}

/// The query: from the first `?` of the path to the end.
pub open spec fn query_of(s: Seq<u8>) -> Seq<u8> {
    s.subrange(path_end(s), s.len() as int)
}

/// A path is empty or begins with `/`.
pub open spec fn is_path(p: Seq<u8>) -> bool {
    p.len() == 0 || p[0] == SLASH
}

/// A query is empty or begins with `?`.
pub open spec fn is_query(q: Seq<u8>) -> bool {
    q.len() == 0 || q[0] == QUESTION
}

/// The three cut points lie in order within `s`, and the four pieces have the
/// shape that their names promise.
pub proof fn lemma_split_shape(s: Seq<u8>)
    ensures
        0 <= scheme_len(s) <= host_end(s) <= path_end(s) <= s.len(),
        scheme_len(s) > 0 ==> separator_at(s, scheme_len(s) - 3),
        forall|j: int| 0 <= j < scheme_len(s) - 3 ==> !separator_at(s, j),
        scheme_len(s) == 0 ==> forall|j: int| 0 <= j ==> !separator_at(s, j),
        free_of(host_of(s), SLASH),
        is_path(path_of(s)),
        free_of(path_of(s), QUESTION),
        is_query(query_of(s)),
        path_of(s).len() == 0 ==> query_of(s).len() == 0,
        s =~= scheme_of(s) + host_of(s) + path_of(s) + query_of(s),
{
    lemma_separator_from(s, 0);
    lemma_index_from(s, SLASH, scheme_len(s));
    lemma_index_from(s, QUESTION, host_end(s));
}

/// On valid UTF-8 the three cut points are character boundaries.
pub proof fn lemma_split_boundaries(s: Seq<u8>)
    requires
        valid_utf8(s),
    ensures
        is_boundary(s, scheme_len(s)),
        is_boundary(s, host_end(s)),
        is_boundary(s, path_end(s)),
{
    lemma_split_shape(s);
    if scheme_len(s) > 0 {
        lemma_ascii_boundaries(s, scheme_len(s) - 1);
    }
    if host_end(s) < s.len() {
        lemma_ascii_boundaries(s, host_end(s));
    }
    if path_end(s) < s.len() {
        lemma_ascii_boundaries(s, path_end(s));
    }
}

/// The four pieces of a URL-like text, each a view into the input.
pub struct UrlParts<'a> {
    /// The scheme with its trailing `://`, or the empty string.
    pub scheme: &'a str,
    /// What stands between the scheme and the first `/`.
    pub host: &'a str,
    /// From the first `/` up to the first `?`; may be empty.
    pub path: &'a str,
    /// From the first `?` to the end; may be empty.
    pub query: &'a str,
}

/// Splits `input` into scheme, host, path and query. Always succeeds; the
/// four pieces, in order, make up the input.
pub fn split_url<'a>(input: &'a str) -> (parts: UrlParts<'a>)
    ensures
        parts.scheme.spec_bytes() == scheme_of(input.spec_bytes()),
        parts.host.spec_bytes() == host_of(input.spec_bytes()),
        parts.path.spec_bytes() == path_of(input.spec_bytes()),
        parts.query.spec_bytes() == query_of(input.spec_bytes()),
{
    let bytes = input.as_bytes();
    let len: usize = bytes.len();
    let found: usize = find_separator(bytes);
    let scheme_end: usize = if found < len {
        found + 3
    } else {
        0
    };
    let host_end: usize = find_byte(bytes, SLASH, scheme_end);
    let path_end: usize = find_byte(bytes, QUESTION, host_end);
    proof {
        lemma_str_valid(input);
        lemma_split_shape(input.spec_bytes());
        lemma_split_boundaries(input.spec_bytes());
    }
    UrlParts {
        scheme: slice_str(input, 0, scheme_end),
        host: slice_str(input, scheme_end, host_end),
        path: slice_str(input, host_end, path_end),
        query: slice_str(input, path_end, len),
    }
}

} // verus!
