//! The query truncator: drops trailing parameters of a query that does not
//! fit, cutting just after an `&`.

use crate::split::is_query;
use crate::text::{is_boundary, lemma_ascii_boundaries, lemma_str_valid, slice_str, AMPERSAND};
use vstd::prelude::*;
use vstd::string::*;
use vstd::utf8::*;

verus! {

/// The position of the last `&` before offset `limit` of `q`, or -1 where
/// there is none.
pub open spec fn last_ampersand(q: Seq<u8>, limit: int) -> int
    decreases limit,
{
    if limit <= 0 {
        -1
    } else if limit <= q.len() && q[limit - 1] == AMPERSAND {
        limit - 1
    } else {
        last_ampersand(q, limit - 1)
    }
}

/// How much of the query `q` is kept when `available` bytes are left for it:
/// `None` where it fits whole; else everything up to and including the last
/// `&` before offset `available`, or the first byte alone where there is no
/// such `&`.
pub open spec fn kept_query_len(q: Seq<u8>, available: int) -> Option<int> {
    if q.len() <= available {
        None
    } else {
        let amp = last_ampersand(q, available);
        if amp >= 0 {
            Some(amp + 1)
        } else {
            Some(1)
        }
    }
}

/// What `last_ampersand` finds: an `&` before `limit` with none between it
/// and `limit`, or -1 and no `&` before `limit`.
pub proof fn lemma_last_ampersand(q: Seq<u8>, limit: int)
    requires
        limit <= q.len(),
    ensures
        -1 <= last_ampersand(q, limit),
        last_ampersand(q, limit) < limit || limit <= 0,
        last_ampersand(q, limit) >= 0 ==> q[last_ampersand(q, limit)] == AMPERSAND,
        forall|j: int| last_ampersand(q, limit) < j < limit && 0 <= j ==> q[j] != AMPERSAND,
    decreases limit,
{
    if limit > 0 && q[limit - 1] != AMPERSAND {
        lemma_last_ampersand(q, limit - 1);
    }
}

/// A position with the properties of `lemma_last_ampersand` is the one that
/// `last_ampersand` finds.
pub proof fn lemma_last_ampersand_unique(q: Seq<u8>, limit: int, at: int)
    requires
        limit <= q.len(),
        -1 <= at,
        at < limit || (at == -1 && limit <= 0),
        at >= 0 ==> q[at] == AMPERSAND,
        forall|j: int| at < j < limit && 0 <= j ==> q[j] != AMPERSAND,
    ensures
        last_ampersand(q, limit) == at,
    decreases limit,
{
    if limit > 0 && at < limit - 1 {
        lemma_last_ampersand_unique(q, limit - 1, at);
    }
}

/// The kept length of a query that does not fit lies within the query and,
/// on valid UTF-8, on a character boundary.
pub proof fn lemma_kept_query_len(q: Seq<u8>, available: int)
    requires
        is_query(q),
        0 <= available,
        kept_query_len(q, available) is Some,
    ensures
        1 <= kept_query_len(q, available)->0 <= q.len(),
        kept_query_len(q, available)->0 <= available || kept_query_len(q, available)->0 == 1,
        valid_utf8(q) ==> is_boundary(q, kept_query_len(q, available)->0),
{
    lemma_last_ampersand(q, available);
    if valid_utf8(q) {
        lemma_ascii_boundaries(q, kept_query_len(q, available)->0 - 1);
    }
}

/// Truncates a query that is longer than `available_len` bytes: the result
/// is the part to keep, which ends just after the last `&` before offset
/// `available_len`, or is the leading `?` alone. `None` where the query fits.
/// The caller appends the ellipsis marker.
pub fn truncate_query<'a>(query: &'a str, available_len: usize) -> (kept: Option<&'a str>)
    requires
        is_query(query.spec_bytes()),
    ensures
        match kept_query_len(query.spec_bytes(), available_len as int) {
            Some(n) => kept is Some && kept->0.spec_bytes() == query.spec_bytes().take(n),
            None => kept is None,
        },
{
    let bytes = query.as_bytes();
    let len: usize = bytes.len();
    if len <= available_len {
        return None;
    }
    let mut i: usize = available_len;
    while i > 0 && bytes[i - 1] != AMPERSAND
        invariant
            i <= available_len < len,
            len == bytes@.len(),
            last_ampersand(bytes@, i as int) == last_ampersand(bytes@, available_len as int),
        decreases i,
    {
        i -= 1;
    }
    let keep: usize = if i > 0 {
        i
    } else {
        1
    };
    proof {
        lemma_str_valid(query);
        lemma_kept_query_len(query.spec_bytes(), available_len as int);
    }
    let kept = slice_str(query, 0, keep);
    assert(kept.spec_bytes() =~= query.spec_bytes().take(keep as int));
    Some(kept)
}

} // verus!
