//! Omit parts of a URL for friendlier display.
//!
//! [`shorten`] brings a URL-like text down to a budget of bytes. It takes out
//! path segments, starting in the middle (`/a/b/c/d/e/f` becomes
//! `/a/…/e/f`), then query parameters, starting at the end (`?a=b&c=d&e=f`
//! becomes `?a=b&…`). A text that has neither is cut off at a character
//! boundary and gets a trailing ellipsis.
//!
//! The text is split naively at the first `://`, the first `/` after it and
//! the first `?` after that. Nothing is validated, decoded or normalized, and
//! a text that is no URL is shortened all the same.

pub mod laws;
pub mod path;
pub mod query;
pub mod split;
pub mod text;
pub mod twice;

use crate::path::{
    joined, joined_with_marker, lemma_joined_concat, lemma_joined_one, marker_segment, path_parts,
    reduce_path, segments, shorten_path, Reduction, ShortenedPath, MARKER_LEN,
};
use crate::query::{kept_query_len, truncate_query};
use crate::split::{host_end, host_of, lemma_split_shape, path_of, query_of, scheme_of, split_url};
use crate::text::{
    byte_len, char_start, ellipsis, find_char_start, lemma_ellipsis_text, lemma_encode_concat,
    lemma_slash_text, minus, new_buffer, slice_str,
};
use std::borrow::Cow;
use vstd::prelude::*;
use vstd::string::*;
use vstd::utf8::*;

verus! {

/// How a call of `shorten` ends.
pub enum Outcome {
    /// The input is returned as it is.
    Unchanged,
    /// Path segments, query parameters or both were taken out.
    Shortened,
    /// The input was cut off and got a trailing ellipsis.
    Truncated,
}

/// The reduction of the path of `s`, where `max_len` asks for one. Scheme
/// and host are kept whole, so the path's budget is what they leave.
pub open spec fn path_reduction(s: Seq<u8>, max_len: int) -> Option<Reduction> {
    reduce_path(path_parts(path_of(s)), minus(max_len, host_end(s)))
}

/// The bytes that scheme, host and the path, reduced or not, leave to the
/// query.
pub open spec fn query_budget(s: Seq<u8>, max_len: int) -> int {
    let path_len = match path_reduction(s, max_len) {
        Some(r) => r.len,
        None => path_of(s).len() as int,
    };
    minus(max_len, host_end(s) + path_len)
}

/// How much of the query of `s` is kept, where it has to be truncated.
pub open spec fn query_cut(s: Seq<u8>, max_len: int) -> Option<int> {
    kept_query_len(query_of(s), query_budget(s, max_len))
}

/// How shortening `s` to `max_len` bytes ends. A text below the budget is
/// left alone. Else the path is reduced and the query truncated as far as
/// needed. Only a text that offers neither and is over the budget is cut
/// off.
pub open spec fn outcome(s: Seq<u8>, max_len: int) -> Outcome {
    if s.len() < max_len {
        Outcome::Unchanged
    } else if path_reduction(s, max_len) is Some || query_cut(s, max_len) is Some {
        Outcome::Shortened
    } else if s.len() > max_len {
        Outcome::Truncated
    } else {
        Outcome::Unchanged
    }
}

/// Scheme and host of `s`, then the path, reduced or not, then the query,
/// truncated or not.
pub open spec fn assembled(s: Seq<u8>, max_len: int) -> Seq<u8> {
    let path = match path_reduction(s, max_len) {
        Some(r) => joined_with_marker(r.kept, r.marker),
        None => path_of(s),
    };
    let query = match query_cut(s, max_len) {
        Some(n) => query_of(s).take(n) + ellipsis(),
        None => query_of(s),
    };
    scheme_of(s) + host_of(s) + path + query
}

/// Where a text that offers no path and no query is cut off: at the last
/// character boundary that leaves room for one character within `max_len`.
pub open spec fn cut_off(s: Seq<u8>, max_len: int) -> int {
    char_start(s, minus(max_len, 1))
}

/// The text `s` shortened to `max_len` bytes.
pub open spec fn shortened(s: Seq<u8>, max_len: int) -> Seq<u8> {
    match outcome(s, max_len) {
        Outcome::Unchanged => s,
        Outcome::Shortened => assembled(s, max_len),
        Outcome::Truncated => s.take(cut_off(s, max_len)) + ellipsis(),
    }
}

/// Puts a shortened URL together: scheme and host, the path or what is left
/// of it, and the query or what is left of it, in this order. Where the path
/// was reduced, `reduced` holds what is left and `path` is not used; where
/// the query was truncated, `truncated` holds what is left and an ellipsis
/// follows it. The result gets room for `capacity` bytes at the start.
pub fn assemble(
    scheme: &str,
    host: &str,
    path: &str,
    reduced: &Option<ShortenedPath<'_>>,
    query: &str,
    truncated: Option<&str>,
    capacity: usize,
) -> (out: String)
    requires
        reduced is Some ==> reduced->0.marker <= reduced->0.parts@.len(),
    ensures
        encode_utf8(out@) == scheme.spec_bytes() + host.spec_bytes() + (match reduced {
            Some(r) => joined_with_marker(r@.kept, r@.marker),
            None => path.spec_bytes(),
        }) + (match truncated {
            Some(kept) => kept.spec_bytes() + ellipsis(),
            None => query.spec_bytes(),
        }),
{
    let mut out = new_buffer(capacity);
    assert(encode_utf8(out@) =~= Seq::<u8>::empty());
    proof {
        lemma_encode_concat(out@, scheme@);
    }
    out.append(scheme);
    proof {
        lemma_encode_concat(out@, host@);
    }
    out.append(host);
    let ghost head = scheme.spec_bytes() + host.spec_bytes();
    assert(encode_utf8(out@) =~= head);
    match reduced {
        Some(r) => {
            let ghost kept = r@.kept;
            let count: usize = r.parts.len();
            let mut i: usize = 0;
            while i < r.marker
                invariant
                    i <= r.marker <= count,
                    count == r.parts@.len(),
                    kept == segments(r.parts@),
                    encode_utf8(out@) == head + joined(kept.take(i as int)),
                decreases r.marker - i,
            {
                proof {
                    lemma_slash_text();
                    lemma_encode_concat(out@, "/"@);
                    lemma_encode_concat(out@ + "/"@, r.parts@[i as int]@);
                    lemma_joined_concat(kept.take(i as int), seq![kept[i as int]]);
                    lemma_joined_one(kept[i as int]);
                    assert(kept.take(i + 1) =~= kept.take(i as int) + seq![kept[i as int]]);
                }
                out.append("/");
                out.append(r.parts[i]);
                i += 1;
                assert(encode_utf8(out@) =~= head + joined(kept.take(i as int)));
            }
            proof {
                lemma_slash_text();
                lemma_ellipsis_text();
                lemma_encode_concat(out@, "/"@);
                lemma_encode_concat(out@ + "/"@, "\u{2026}"@);
            }
            out.append("/");
            out.append("\u{2026}");
            let ghost front = head + joined(kept.take(r.marker as int)) + marker_segment();
            assert(encode_utf8(out@) =~= front);
            assert(kept.subrange(r.marker as int, i as int) =~= Seq::<Seq<u8>>::empty());
            while i < count
                invariant
                    r.marker <= i <= count,
                    count == r.parts@.len(),
                    kept == segments(r.parts@),
                    encode_utf8(out@) == front + joined(kept.subrange(r.marker as int, i as int)),
                decreases count - i,
            {
                proof {
                    let done = kept.subrange(r.marker as int, i as int);
                    lemma_slash_text();
                    lemma_encode_concat(out@, "/"@);
                    lemma_encode_concat(out@ + "/"@, r.parts@[i as int]@);
                    lemma_joined_concat(done, seq![kept[i as int]]);
                    lemma_joined_one(kept[i as int]);
                    assert(kept.subrange(r.marker as int, i + 1) =~= done + seq![kept[i as int]]);
                }
                out.append("/");
                out.append(r.parts[i]);
                i += 1;
                assert(encode_utf8(out@) =~= front + joined(
                    kept.subrange(r.marker as int, i as int),
                ));
            }
            assert(kept.subrange(r.marker as int, count as int) =~= kept.skip(r.marker as int));
        },
        None => {
            proof {
                lemma_encode_concat(out@, path@);
            }
            out.append(path);
        },
    }
    let ghost front = encode_utf8(out@);
    match truncated {
        Some(kept) => {
            proof {
                lemma_ellipsis_text();
                lemma_encode_concat(out@, kept@);
                lemma_encode_concat(out@ + kept@, "\u{2026}"@);
            }
            out.append(kept);
            out.append("\u{2026}");
            assert(encode_utf8(out@) =~= front + (kept.spec_bytes() + ellipsis()));
        },
        None => {
            proof {
                lemma_encode_concat(out@, query@);
            }
            out.append(query);
        },
    }
    out
}

/// Cuts `input` off at the last character boundary that leaves room for one
/// character within `max_len` bytes, and appends an ellipsis.
pub fn truncate(input: &str, max_len: usize) -> (out: String)
    ensures
        encode_utf8(out@) == input.spec_bytes().take(cut_off(input.spec_bytes(), max_len as int))
            + ellipsis(),
{
    let cut: usize = find_char_start(input, max_len.saturating_sub(1));
    let kept = slice_str(input, 0, cut);
    let mut out = new_buffer(max_len);
    assert(encode_utf8(out@) =~= Seq::<u8>::empty());
    proof {
        lemma_ellipsis_text();
        lemma_encode_concat(out@, kept@);
        lemma_encode_concat(out@ + kept@, "\u{2026}"@);
        assert(input.spec_bytes().take(cut as int) =~= input.spec_bytes().subrange(0, cut as int));
    }
    out.append(kept);
    out.append("\u{2026}");
    out
}

/// Shortens a URL to about `max_len` bytes.
///
/// An input of fewer than `max_len` bytes is returned as it is, borrowed.
/// Else path segments are taken out from the middle outward until scheme,
/// host and path fit, and the query is cut after the last `&` that fits
/// behind them. Each gap is shown by an ellipsis. An input that has no path
/// segment and no query to give, and is longer than `max_len`, is cut off at
/// a character boundary and gets a trailing ellipsis.
///
/// The result is borrowed exactly when nothing was changed. It is always
/// valid text. It may exceed `max_len`: scheme and host are never touched, a
/// path and a query cannot give more than they have, and a text that is cut
/// off leaves room for one byte where the ellipsis takes three.
pub fn shorten<'a>(input: &'a str, max_len: usize) -> (out: Cow<'a, str>)
    ensures
        encode_utf8(out@) == shortened(input.spec_bytes(), max_len as int),
        out@ == decode_utf8(shortened(input.spec_bytes(), max_len as int)),
        match outcome(input.spec_bytes(), max_len as int) {
            Outcome::Unchanged => out == Cow::<'a, str>::Borrowed(input),
            _ => out is Owned,
        },
        input.spec_bytes().len() < max_len ==> out == Cow::<'a, str>::Borrowed(input),
{
    let ghost s = input.spec_bytes();
    proof {
        encode_utf8_decode_utf8(input@);
    }
    let len: usize = byte_len(input);
    if len < max_len {
        return Cow::Borrowed(input);
    }
    let parts = split_url(input);
    proof {
        lemma_split_shape(s);
    }
    let base: usize = byte_len(parts.scheme) + byte_len(parts.host);
    let path_budget: usize = max_len.saturating_sub(base);
    let reduced = shorten_path(parts.path, path_budget);
    let available: usize = match &reduced {
        Some(r) => path_budget.saturating_sub(r.kept_len).saturating_sub(MARKER_LEN),
        None => path_budget.saturating_sub(byte_len(parts.path)),
    };
    let truncated = truncate_query(parts.query, available);
    if reduced.is_none() && truncated.is_none() {
        if len > max_len {
            let out = truncate(input, max_len);
            proof {
                encode_utf8_decode_utf8(out@);
            }
            return Cow::Owned(out);
        }
        return Cow::Borrowed(input);
    }
    let out = assemble(
        parts.scheme,
        parts.host,
        parts.path,
        &reduced,
        parts.query,
        truncated,
        max_len,
    );
    proof {
        encode_utf8_decode_utf8(out@);
    }
    Cow::Owned(out)
}

} // verus!
