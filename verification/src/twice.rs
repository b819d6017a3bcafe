//! Shortening a shortened text once more, to the same budget, changes
//! nothing.

use crate::laws::{elision, lemma_assembled_splices, spliced, Elision};
use crate::path::{
    joined, joined_with_marker, lemma_joined_concat, lemma_joined_one, lemma_join_then_split,
    lemma_path_parts_join, lemma_reduce_path_keeps_order, marker_segment, path_parts, reduce_path,
    remove_until_fit, MARKER_LEN,
};
use crate::query::{
    kept_query_len, last_ampersand, lemma_kept_query_len, lemma_last_ampersand,
    lemma_last_ampersand_unique,
};
use crate::split::{
    host_end, host_of, is_path, is_query, lemma_split_shape, path_end, path_of, query_of,
    scheme_len, scheme_of,
};
use crate::text::{
    ellipsis, free_of, is_boundary, lemma_char_start, lemma_char_start_unique, lemma_index_from,
    lemma_index_from_unique, lemma_separator_from_unique, minus, separator_at, AMPERSAND, QUESTION,
    SLASH,
};
use crate::{
    assembled, cut_off, outcome, path_reduction, query_budget, query_cut, shortened, Outcome,
};
use vstd::prelude::*;
use vstd::utf8::*;

verus! {

/// True unless `s` is cut off within its scheme, behind a `/` of the
/// scheme. What is left of such a text has a path that the whole did not
/// have, and is shortened as the whole was not.
pub open spec fn cut_keeps_structure(s: Seq<u8>, max_len: int) -> bool {
    outcome(s, max_len) is Truncated && cut_off(s, max_len) < scheme_len(s) ==> free_of(
        s.take(cut_off(s, max_len)),
        SLASH,
    )
}

/// The marker written among the segments is a segment like the others.
pub proof fn lemma_with_marker_is_joined(kept: Seq<Seq<u8>>, marker: int)
    requires
        0 <= marker <= kept.len(),
    ensures
        joined_with_marker(kept, marker) == joined(
            kept.take(marker) + seq![ellipsis()] + kept.skip(marker),
        ),
        joined_with_marker(kept, marker).len() == joined(kept).len() + MARKER_LEN,
{
    let front = kept.take(marker);
    let back = kept.skip(marker);
    lemma_joined_concat(front + seq![ellipsis()], back);
    lemma_joined_concat(front, seq![ellipsis()]);
    lemma_joined_one(ellipsis());
    assert(kept =~= front + back);
    lemma_joined_concat(front, back);
}

/// A reduced path is reduced no further: either it fits and is left alone,
/// or nothing but the marker is left of it and stays.
pub proof fn lemma_reduced_path_twice(path: Seq<u8>, budget: int)
    requires
        is_path(path),
        reduce_path(path_parts(path), budget) is Some,
    ensures
        ({
            let r = reduce_path(path_parts(path), budget)->0;
            let reduced = joined_with_marker(r.kept, r.marker);
            &&& is_path(reduced)
            &&& reduced.len() == r.len
            &&& reduced.len() > 0
            &&& match reduce_path(path_parts(reduced), budget) {
                Some(again) => again == r,
                None => r.len <= budget,
            }
        }),
{
    let parts = path_parts(path);
    let r = reduce_path(parts, budget)->0;
    let reduced = joined_with_marker(r.kept, r.marker);
    lemma_path_parts_join(path);
    lemma_reduce_path_keeps_order(parts, budget);
    lemma_with_marker_is_joined(r.kept, r.marker);
    let list = r.kept.take(r.marker) + seq![ellipsis()] + r.kept.skip(r.marker);
    let gap = parts.len() - r.kept.len();
    assert forall|k: int| 0 <= k < list.len() implies free_of(#[trigger] list[k], SLASH) by {
        if k < r.marker {
            assert(list[k] == parts[k]);
        } else if k == r.marker {
            assert(list[k] == ellipsis());
        } else {
            assert(list[k] == parts[k - 1 + gap]);
        }
    }
    lemma_join_then_split(list);
    if r.len > budget {
        assert(r.kept.len() == 0);
        assert(r.kept =~= Seq::<Seq<u8>>::empty());
        assert(list =~= seq![ellipsis()]);
        assert(list.remove(0) =~= Seq::<Seq<u8>>::empty());
        assert(joined(Seq::<Seq<u8>>::empty()).len() == 0);
        let again = remove_until_fit(list.remove(0), 0, budget);
        assert(again.kept == r.kept);
        assert(again.marker == r.marker);
        assert(again.len == r.len);
        assert(reduce_path(list, budget) == Some(again));
    }
}

/// A truncated query with its ellipsis is truncated no further: either it
/// fits, or it is cut where it was cut before.
pub proof fn lemma_truncated_query_twice(q: Seq<u8>, available: int)
    requires
        is_query(q),
        0 <= available,
        kept_query_len(q, available) is Some,
    ensures
        ({
            let n = kept_query_len(q, available)->0;
            let truncated = q.take(n) + ellipsis();
            &&& is_query(truncated)
            &&& match kept_query_len(truncated, available) {
                Some(again) => again == n,
                None => truncated.len() <= available,
            }
        }),
{
    let n = kept_query_len(q, available)->0;
    let truncated = q.take(n) + ellipsis();
    lemma_kept_query_len(q, available);
    lemma_last_ampersand(q, available);
    assert(truncated[0] == q[0]);
    if truncated.len() > available {
        let amp = last_ampersand(q, available);
        assert forall|j: int| amp < j < available && 0 <= j implies truncated[j] != AMPERSAND by {
            if j < n {
                assert(truncated[j] == q[j]);
            } else {
                assert(truncated[j] == ellipsis()[j - n]);
            }
        }
        if amp >= 0 {
            assert(truncated[amp] == q[amp]);
        }
        lemma_last_ampersand_unique(truncated, available, amp);
    }
}

/// Splicing puts no `://` into a text that has none.
pub proof fn lemma_splice_no_separator(s: Seq<u8>, e: Elision)
    requires
        0 <= e.path_from <= e.path_to <= e.tail_from <= s.len(),
        e.path_marker <==> e.path_from < e.path_to,
        e.path_marker ==> s[e.path_from] == SLASH,
        forall|j: int| 0 <= j ==> !separator_at(s, j),
    ensures
        forall|j: int| 0 <= j ==> !separator_at(spliced(s, e), j),
{
    let t = spliced(s, e);
    let shift = if e.path_marker {
        4int
    } else {
        0int
    };
    let mid = e.path_from + shift;
    let end = mid + (e.tail_from - e.path_to);
    assert(t.len() == end + (if e.tail_marker {
        3int
    } else {
        0int
    }));
    assert forall|j: int| 0 <= j implies !separator_at(t, j) by {
        if separator_at(t, j) {
            if j + 3 <= e.path_from {
                assert(t[j] == s[j] && t[j + 1] == s[j + 1] && t[j + 2] == s[j + 2]);
                assert(separator_at(s, j));
            } else if j < e.path_from {
                if e.path_marker {
                    if j + 2 == e.path_from {
                        assert(t[j] == s[j] && t[j + 1] == s[j + 1]);
                        assert(separator_at(s, j));
                    } else {
                        assert(t[e.path_from + 1] == 0xe2);
                    }
                } else if j + 3 <= end {
                    assert(t[j] == s[j] && t[j + 1] == s[j + 1] && t[j + 2] == s[j + 2]);
                    assert(separator_at(s, j));
                } else {
                    assert(t[end] == 0xe2);
                }
            } else if j < mid {
                assert(t[j] == marker_segment()[j - e.path_from]);
            } else if j + 3 <= end {
                let i = j - mid + e.path_to;
                assert(t[j] == s[i] && t[j + 1] == s[i + 1] && t[j + 2] == s[i + 2]);
                assert(separator_at(s, i));
            } else if j < end {
                assert(t[end] == 0xe2);
            } else {
                assert(t[j] == ellipsis()[j - end]);
            }
        }
    }
}

/// How a text splits that is made of the scheme and host of `s`, a path and
/// a query: into just these.
pub proof fn lemma_split_composed(
    s: Seq<u8>,
    t: Seq<u8>,
    path_text: Seq<u8>,
    query_text: Seq<u8>,
)
    requires
        t == s.take(host_end(s)) + path_text + query_text,
        path_text.len() > 0,
        path_text[0] == SLASH,
        free_of(path_text, QUESTION),
        is_query(query_text),
        scheme_len(s) == 0 ==> forall|j: int| 0 <= j ==> !separator_at(t, j),
    ensures
        scheme_len(t) == scheme_len(s),
        host_end(t) == host_end(s),
        path_end(t) == host_end(s) + path_text.len(),
        scheme_of(t) + host_of(t) == s.take(host_end(s)),
        path_of(t) == path_text,
        query_of(t) == query_text,
{
    lemma_split_shape(s);
    let sl = scheme_len(s);
    let he = host_end(s);
    assert forall|j: int| 0 <= j < he implies t[j] == s[j] by {}
    if sl > 0 {
        let i = sl - 3;
        assert(t[i] == s[i] && t[i + 1] == s[i + 1] && t[i + 2] == s[i + 2]);
        assert(separator_at(t, i));
        assert forall|j: int| 0 <= j < i implies !separator_at(t, j) by {
            assert(!separator_at(s, j));
            assert(t[j] == s[j] && t[j + 1] == s[j + 1] && t[j + 2] == s[j + 2]);
        }
        lemma_separator_from_unique(t, 0, i);
    } else {
        lemma_separator_from_unique(t, 0, t.len() as int);
    }
    assert(scheme_len(t) == sl);
    lemma_index_from(s, SLASH, sl);
    assert(t[he] == path_text[0]);
    assert forall|j: int| sl <= j < he implies t[j] != SLASH by {
        assert(t[j] == s[j]);
    }
    lemma_index_from_unique(t, SLASH, sl, he);
    let pe = he + path_text.len();
    assert forall|j: int| he <= j < pe implies t[j] != QUESTION by {
        assert(t[j] == path_text[j - he]);
    }
    if query_text.len() > 0 {
        assert(t[pe] == query_text[0]);
    }
    lemma_index_from_unique(t, QUESTION, he, pe);
    assert(scheme_of(t) + host_of(t) =~= s.take(he));
    assert(path_of(t) =~= path_text);
    assert(query_of(t) =~= query_text);
}

/// A text that was cut off is made of scheme and host alone.
pub proof fn lemma_truncated_has_no_path(s: Seq<u8>, max_len: int)
    requires
        outcome(s, max_len) is Truncated,
    ensures
        host_end(s) == s.len(),
        forall|j: int| scheme_len(s) <= j < s.len() ==> s[j] != SLASH,
{
    lemma_split_shape(s);
    let path = path_of(s);
    lemma_path_parts_join(path);
    lemma_index_from(s, SLASH, scheme_len(s));
    if path.len() > 0 {
        assert(path_parts(path).len() > 0);
        assert(path.len() <= minus(max_len, host_end(s)));
        assert(query_of(s).len() <= query_budget(s, max_len));
        assert(s.len() == host_end(s) + path.len() + query_of(s).len());
        assert(s.len() <= max_len);
    }
}

/// A text that was cut off, and keeps its structure, is cut off at the
/// same place when shortened again.
proof fn lemma_truncated_twice(s: Seq<u8>, max_len: int)
    requires
        outcome(s, max_len) is Truncated,
        0 <= max_len,
        cut_keeps_structure(s, max_len),
    ensures
        shortened(shortened(s, max_len), max_len) == shortened(s, max_len),
{
    let k = cut_off(s, max_len);
    let t = s.take(k) + ellipsis();
    let limit = minus(max_len, 1);
    lemma_char_start(s, limit);
    lemma_split_shape(s);
    lemma_truncated_has_no_path(s, max_len);
    let sl = scheme_len(s);
    assert(k < s.len());
    assert(t.len() == k + 3);
    assert forall|j: int| 0 <= j < k implies t[j] == s[j] by {}
    assert(t[k] == 0xe2 && t[k + 1] == 0x80 && t[k + 2] == 0xa6);
    // The scheme of what is left.
    let tl = if k >= sl {
        sl
    } else {
        0
    };
    assert(scheme_len(t) == tl) by {
        if k >= sl && sl > 0 {
            let i = sl - 3;
            assert(t[i] == s[i] && t[i + 1] == s[i + 1] && t[i + 2] == s[i + 2]);
            assert(separator_at(t, i));
            assert forall|j: int| 0 <= j < i implies !separator_at(t, j) by {
                assert(!separator_at(s, j));
                assert(t[j] == s[j] && t[j + 1] == s[j + 1] && t[j + 2] == s[j + 2]);
            }
            lemma_separator_from_unique(t, 0, i);
        } else {
            assert forall|j: int| 0 <= j implies !separator_at(t, j) by {
                if separator_at(t, j) {
                    if j + 3 <= k {
                        if k >= sl {
                            assert(t[j] == s[j] && t[j + 1] == s[j + 1] && t[j + 2] == s[j + 2]);
                            assert(separator_at(s, j));
                        } else {
                            assert(s.take(k)[j + 1] == SLASH);
                        }
                    } else {
                        assert(t[j + 2] != SLASH);
                    }
                }
            }
            lemma_separator_from_unique(t, 0, t.len() as int);
        }
    }
    assert forall|j: int| tl <= j < t.len() implies t[j] != SLASH by {
        if j < k {
            if k >= sl {
                assert(t[j] == s[j]);
            } else {
                assert(s.take(k)[j] != SLASH);
            }
        }
    }
    lemma_index_from_unique(t, SLASH, tl, t.len() as int);
    assert(host_end(t) == t.len());
    assert(path_end(t) == t.len());
    assert(path_of(t).len() == 0);
    assert(query_of(t).len() == 0);
    assert(path_parts(path_of(t)) =~= Seq::<Seq<u8>>::empty());
    assert(path_reduction(t, max_len) is None);
    assert(query_cut(t, max_len) is None);
    if t.len() > max_len {
        assert(outcome(t, max_len) is Truncated);
        assert(is_boundary(t, k));
        assert forall|j: int| k < j <= limit implies !is_boundary(t, j) by {
            assert(j == k + 1);
        }
        lemma_char_start_unique(t, limit, k);
        assert(t.take(k) =~= s.take(k));
    } else {
        assert(outcome(t, max_len) is Unchanged);
    }
}

/// A text whose path was reduced or whose query was truncated stays as it
/// is when shortened again.
proof fn lemma_assembled_twice(s: Seq<u8>, max_len: int)
    requires
        outcome(s, max_len) is Shortened,
    ensures
        shortened(shortened(s, max_len), max_len) == shortened(s, max_len),
{
    let t = assembled(s, max_len);
    let e = elision(s, max_len);
    lemma_split_shape(s);
    lemma_assembled_splices(s, max_len);
    let he = host_end(s);
    let pe = path_end(s);
    let path = path_of(s);
    let query = query_of(s);
    let budget = minus(max_len, he);
    let available = query_budget(s, max_len);
    lemma_path_parts_join(path);
    assert(path.len() > 0) by {
        if path.len() == 0 {
            assert(path_parts(path) =~= Seq::<Seq<u8>>::empty());
        }
    }
    let path_text = match path_reduction(s, max_len) {
        Some(r) => joined_with_marker(r.kept, r.marker),
        None => path,
    };
    let query_text = match query_cut(s, max_len) {
        Some(n) => query.take(n) + ellipsis(),
        None => query,
    };
    assert(t == scheme_of(s) + host_of(s) + path_text + query_text);
    assert(scheme_of(s) + host_of(s) =~= s.take(he));
    // The path that is left is a path, and the query a query.
    let path_mark = if e.path_marker {
        marker_segment()
    } else {
        Seq::<u8>::empty()
    };
    assert(path_text == s.subrange(he, e.path_from) + path_mark + s.subrange(e.path_to, pe)) by {
        if path_reduction(s, max_len) is Some {
            crate::laws::lemma_reduced_path_splices(path, budget);
            let r = path_reduction(s, max_len)->0;
            let a = joined(r.kept.take(r.marker)).len() as int;
            let c = joined(r.kept.skip(r.marker)).len() as int;
            assert(path.take(a) =~= s.subrange(he, he + a));
            assert(path.skip(path.len() - c) =~= s.subrange(pe - c, pe));
        } else {
            assert(path =~= s.subrange(he, pe) + Seq::<u8>::empty() + s.subrange(pe, pe));
        }
    }
    assert(path_text.len() > 0 && path_text[0] == SLASH) by {
        if e.path_from > he {
            assert(path_text[0] == s[he]);
            assert(path[0] == s[he]);
        } else {
            assert(path_text[0] == marker_segment()[0]);
        }
    }
    assert(free_of(path_text, QUESTION)) by {
        assert forall|j: int| 0 <= j < path_text.len() implies path_text[j] != QUESTION by {
            let a = e.path_from - he;
            if j < a {
                assert(path_text[j] == path[j]);
            } else if j < a + path_mark.len() {
                assert(path_text[j] == marker_segment()[j - a]);
            } else {
                let i = j - a - path_mark.len() + (e.path_to - he);
                assert(path_text[j] == path[i]);
            }
        }
    }
    match query_cut(s, max_len) {
        Some(n) => {
            lemma_truncated_query_twice(query, available);
        },
        None => {},
    }
    assert(is_query(query_text));
    if scheme_len(s) == 0 {
        lemma_splice_no_separator(s, e);
    }
    lemma_split_composed(s, t, path_text, query_text);
    // The path is reduced no further.
    let again = path_reduction(t, max_len);
    let path_len = match again {
        Some(r) => r.len,
        None => path_text.len() as int,
    };
    let path_again = match again {
        Some(r) => joined_with_marker(r.kept, r.marker),
        None => path_text,
    };
    assert(path_len == path_text.len() && path_again == path_text && (again is None
        ==> path_text.len() <= budget)) by {
        lemma_path_parts_join(path_text);
        if path_reduction(s, max_len) is Some {
            lemma_reduced_path_twice(path, budget);
        }
    }
    assert(query_budget(t, max_len) == available) by {
        if path_reduction(s, max_len) is Some {
            lemma_reduced_path_twice(path, budget);
        }
    }
    // The query is truncated no further.
    let query_again = match query_cut(t, max_len) {
        Some(n) => query_text.take(n) + ellipsis(),
        None => query_text,
    };
    assert(query_again == query_text && (query_cut(t, max_len) is None ==> query_text.len()
        <= available)) by {
        match query_cut(s, max_len) {
            Some(n) => {
                lemma_kept_query_len(query, available);
                assert(query_text.take(n) =~= query.take(n));
            },
            None => {},
        }
    }
    if t.len() < max_len {
    } else if again is Some || query_cut(t, max_len) is Some {
        assert(assembled(t, max_len) == scheme_of(t) + host_of(t) + path_again + query_again);
    } else {
        assert(t.len() == he + path_text.len() + query_text.len());
        assert(t.len() <= max_len);
    }
}

/// Shortening a shortened text once more to the same budget changes
/// nothing. This holds of every text that keeps its structure when
/// it is cut off, and so of every text whose path is reduced or whose query
/// is truncated.
pub proof fn lemma_shorten_twice(s: Seq<u8>, max_len: int)
    requires
        0 <= max_len,
        cut_keeps_structure(s, max_len),
    ensures
        shortened(shortened(s, max_len), max_len) == shortened(s, max_len),
{
    match outcome(s, max_len) {
        Outcome::Unchanged => {},
        Outcome::Truncated => {
            lemma_truncated_twice(s, max_len);
        },
        Outcome::Shortened => {
            lemma_assembled_twice(s, max_len);
        },
    }
}

} // verus!
