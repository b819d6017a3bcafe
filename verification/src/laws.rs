//! What holds of every shortened text: it is the input with at most two
//! runs of bytes replaced by ellipsis markers, it is valid text, and it tells
//! by its markers that it was shortened.

use crate::path::{
    joined, joined_with_marker, lemma_joined_concat, lemma_path_parts_join,
    lemma_reduce_path_keeps_order, marker_segment, path_parts, reduce_path,
};
use crate::query::lemma_kept_query_len;
use crate::split::{
    host_end, host_of, is_path, lemma_split_boundaries, lemma_split_shape, path_end, path_of,
    query_of, scheme_of,
};
use crate::text::{
    ellipsis, is_boundary, lemma_ascii_boundaries, lemma_boundary_within, lemma_char_start,
    lemma_cut_valid, lemma_ellipsis_text, lemma_slash_text, minus, QUESTION, SLASH,
};
use crate::{
    assembled, cut_off, outcome, path_reduction, query_budget, query_cut, shortened, Outcome,
};
use vstd::prelude::*;
use vstd::utf8::*;

verus! {

/// What a call takes out of its input: the bytes from `path_from` up to
/// `path_to`, which are path segments, and the bytes from `tail_from` to the
/// end, and which of the two gaps gets a marker.
pub struct Elision {
    pub path_from: int,
    pub path_to: int,
    pub tail_from: int,
    pub path_marker: bool,
    pub tail_marker: bool,
}

/// The text `s` without the bytes that `e` takes out, with a marker segment
/// in place of the first gap and an ellipsis in place of the second, as `e`
/// asks.
pub open spec fn spliced(s: Seq<u8>, e: Elision) -> Seq<u8> {
    s.take(e.path_from) + (if e.path_marker {
        marker_segment()
    } else {
        Seq::empty()
    }) + s.subrange(e.path_to, e.tail_from) + (if e.tail_marker {
        ellipsis()
    } else {
        Seq::empty()
    })
}

/// What shortening `s` to `max_len` bytes takes out of it.
pub open spec fn elision(s: Seq<u8>, max_len: int) -> Elision {
    match outcome(s, max_len) {
        Outcome::Unchanged => Elision {
            path_from: s.len() as int,
            path_to: s.len() as int,
            tail_from: s.len() as int,
            path_marker: false,
            tail_marker: false,
        },
        Outcome::Truncated => Elision {
            path_from: cut_off(s, max_len),
            path_to: cut_off(s, max_len),
            tail_from: cut_off(s, max_len),
            path_marker: false,
            tail_marker: true,
        },
        Outcome::Shortened => Elision {
            path_from: match path_reduction(s, max_len) {
                Some(r) => host_end(s) + joined(r.kept.take(r.marker)).len(),
                None => path_end(s),
            },
            path_to: match path_reduction(s, max_len) {
                Some(r) => path_end(s) - joined(r.kept.skip(r.marker)).len(),
                None => path_end(s),
            },
            tail_from: match query_cut(s, max_len) {
                Some(n) => path_end(s) + n,
                None => s.len() as int,
            },
            path_marker: path_reduction(s, max_len) is Some,
            tail_marker: query_cut(s, max_len) is Some,
        },
    }
}

/// The number of markers that `e` puts in.
pub open spec fn marker_count(e: Elision) -> nat {
    (if e.path_marker {
        1nat
    } else {
        0nat
    }) + (if e.tail_marker {
        1nat
    } else {
        0nat
    })
}

/// The bytes that `e` takes out of a text of `len` bytes.
pub open spec fn elided_len(e: Elision, len: int) -> int {
    (e.path_to - e.path_from) + (len - e.tail_from)
}

/// The bytes that the markers of `e` add.
pub open spec fn inserted_len(e: Elision) -> int {
    (if e.path_marker {
        4int
    } else {
        0int
    }) + (if e.tail_marker {
        3int
    } else {
        0int
    })
}

/// True when an ellipsis starts at position `i` of `s`.
pub open spec fn ellipsis_at(s: Seq<u8>, i: int) -> bool {
    &&& 0 <= i
    &&& i + 3 <= s.len()
    &&& s[i] == 0xe2
    &&& s[i + 1] == 0x80
    &&& s[i + 2] == 0xa6
}

/// The number of positions before `upto` where an ellipsis starts in `s`.
pub open spec fn ellipses_before(s: Seq<u8>, upto: int) -> nat
    decreases upto,
{
    if upto <= 0 {
        0
    } else {
        ellipses_before(s, upto - 1) + if ellipsis_at(s, upto - 1) {
            1nat
        } else {
            0nat
        }
    }
}

/// The number of ellipsis markers in `s`.
pub open spec fn ellipsis_count(s: Seq<u8>) -> nat {
    ellipses_before(s, s.len() as int)
}

/// The ellipses in what `e` keeps of `s`.
pub open spec fn kept_ellipses(s: Seq<u8>, e: Elision) -> nat {
    ellipsis_count(s.take(e.path_from)) + ellipsis_count(s.subrange(e.path_to, e.tail_from))
}

/// Up to the end of `x`, the ellipses of `x + y` are those of `x`, where `y`
/// does not start with the second or third byte of one.
proof fn lemma_count_front(x: Seq<u8>, y: Seq<u8>, upto: int)
    requires
        0 <= upto <= x.len(),
        y.len() > 0 ==> y[0] != 0x80 && y[0] != 0xa6,
    ensures
        ellipses_before(x + y, upto) == ellipses_before(x, upto),
    decreases upto,
{
    if upto > 0 {
        lemma_count_front(x, y, upto - 1);
        let i = upto - 1;
        if i + 3 <= x.len() {
            assert((x + y)[i] == x[i] && (x + y)[i + 1] == x[i + 1] && (x + y)[i + 2] == x[i + 2]);
        } else if i + 3 <= (x + y).len() {
            if i + 1 == x.len() {
                assert((x + y)[i + 1] == y[0]);
            } else {
                assert((x + y)[i + 2] == y[0]);
            }
        }
    }
}

/// From the end of `x` on, the ellipses of `x + y` are those of `y`.
proof fn lemma_count_back(x: Seq<u8>, y: Seq<u8>, upto: int)
    requires
        0 <= upto <= y.len(),
    ensures
        ellipses_before(x + y, x.len() + upto) == ellipses_before(x + y, x.len() as int)
            + ellipses_before(y, upto),
    decreases upto,
{
    if upto > 0 {
        lemma_count_back(x, y, upto - 1);
        let i = upto - 1;
        if i + 3 <= y.len() {
            assert((x + y)[x.len() + i] == y[i] && (x + y)[x.len() + i + 1] == y[i + 1] && (x
                + y)[x.len() + i + 2] == y[i + 2]);
        }
    }
}

/// The ellipses of two texts in a row are those of the one and those of the
/// other, where the second does not start with the second or third byte of
/// an ellipsis.
pub proof fn lemma_count_concat(x: Seq<u8>, y: Seq<u8>)
    requires
        y.len() > 0 ==> y[0] != 0x80 && y[0] != 0xa6,
    ensures
        ellipsis_count(x + y) == ellipsis_count(x) + ellipsis_count(y),
{
    lemma_count_front(x, y, x.len() as int);
    lemma_count_back(x, y, y.len() as int);
}

/// Each marker holds one ellipsis.
pub proof fn lemma_marker_counts()
    ensures
        ellipsis_count(ellipsis()) == 1,
        ellipsis_count(marker_segment()) == 1,
        ellipsis_count(Seq::<u8>::empty()) == 0,
{
    reveal_with_fuel(ellipses_before, 5);
    let m = marker_segment();
    assert(m.len() == 4 && m[0] == SLASH && m[1] == 0xe2 && m[2] == 0x80 && m[3] == 0xa6);
}

/// The marker segment and the ellipsis are valid UTF-8.
pub proof fn lemma_markers_valid()
    ensures
        valid_utf8(ellipsis()),
        valid_utf8(marker_segment()),
{
    lemma_ellipsis_text();
    lemma_slash_text();
    encode_utf8_valid_utf8("\u{2026}"@);
    encode_utf8_valid_utf8("/"@);
    valid_utf8_concat(seq![SLASH], ellipsis());
}

/// What a reduction leaves of a path: the path up to the gap, the marker
/// segment, and the path from the end of the gap on. The gap starts at a `/`
/// and is not empty; what follows it is empty or starts at a `/`.
pub proof fn lemma_reduced_path_splices(path: Seq<u8>, budget: int)
    requires
        is_path(path),
        reduce_path(path_parts(path), budget) is Some,
    ensures
        ({
            let r = reduce_path(path_parts(path), budget)->0;
            let a = joined(r.kept.take(r.marker)).len() as int;
            let c = joined(r.kept.skip(r.marker)).len() as int;
            &&& a + c < path.len()
            &&& path[a] == SLASH
            &&& c > 0 ==> path[path.len() - c] == SLASH
            &&& joined_with_marker(r.kept, r.marker) == path.take(a) + marker_segment()
                + path.skip(path.len() - c)
        }),
{
    let parts = path_parts(path);
    let r = reduce_path(parts, budget)->0;
    lemma_path_parts_join(path);
    lemma_reduce_path_keeps_order(parts, budget);
    let gap = parts.len() - r.kept.len();
    let m = r.marker;
    let front = parts.take(m);
    let run = parts.subrange(m, m + gap);
    let back = parts.skip(m + gap);
    assert(r.kept.take(m) =~= front);
    assert(r.kept.skip(m) =~= back);
    assert(parts =~= front + run + back);
    lemma_joined_concat(front + run, back);
    lemma_joined_concat(front, run);
    assert(joined(run)[0] == SLASH);
    let a = joined(front).len() as int;
    let c = joined(back).len() as int;
    assert(path.len() == a + joined(run).len() + c);
    assert(path[a] == joined(run)[0]);
    assert(path.take(a) =~= joined(front));
    assert(path.skip(path.len() - c) =~= joined(back));
    if c > 0 {
        assert(back.len() > 0);
        assert(joined(back)[0] == SLASH);
        assert(path[path.len() - c] == joined(back)[0]);
    }
}

/// Where the path was reduced or the query truncated, the shortened text
/// is the input spliced as `elision` says.
pub proof fn lemma_assembled_splices(s: Seq<u8>, max_len: int)
    requires
        outcome(s, max_len) is Shortened,
    ensures
        ({
            let e = elision(s, max_len);
            &&& host_end(s) <= e.path_from <= e.path_to <= path_end(s) <= e.tail_from <= s.len()
            &&& e.path_marker <==> e.path_from < e.path_to
            &&& e.path_marker ==> s[e.path_from] == SLASH
            &&& e.path_marker && e.path_to < path_end(s) ==> s[e.path_to] == SLASH
            &&& !e.path_marker ==> e.path_to == path_end(s)
            &&& !e.tail_marker ==> e.tail_from == s.len()
            &&& assembled(s, max_len) == spliced(s, e)
        }),
{
    let e = elision(s, max_len);
    lemma_split_shape(s);
    let he = host_end(s);
    let pe = path_end(s);
    let path = path_of(s);
    let query = query_of(s);
    let head = s.take(he);
    assert(scheme_of(s) + host_of(s) =~= head);
    let path_text = match path_reduction(s, max_len) {
        Some(r) => joined_with_marker(r.kept, r.marker),
        None => path,
    };
    let query_text = match query_cut(s, max_len) {
        Some(n) => query.take(n) + ellipsis(),
        None => query,
    };
    assert(assembled(s, max_len) == head + path_text + query_text);
    let path_mark = if e.path_marker {
        marker_segment()
    } else {
        Seq::<u8>::empty()
    };
    let tail_mark = if e.tail_marker {
        ellipsis()
    } else {
        Seq::<u8>::empty()
    };
    assert(path_text == s.subrange(he, e.path_from) + path_mark + s.subrange(e.path_to, pe)
        && he <= e.path_from <= e.path_to <= pe && (e.path_marker <==> e.path_from < e.path_to)
        && (e.path_marker ==> s[e.path_from] == SLASH) && (e.path_marker && e.path_to < pe
        ==> s[e.path_to] == SLASH)) by {
        if path_reduction(s, max_len) is Some {
            lemma_reduced_path_splices(path, minus(max_len, he));
            let r = path_reduction(s, max_len)->0;
            let a = joined(r.kept.take(r.marker)).len() as int;
            let c = joined(r.kept.skip(r.marker)).len() as int;
            assert(path.take(a) =~= s.subrange(he, he + a));
            assert(path.skip(path.len() - c) =~= s.subrange(pe - c, pe));
            assert(s[he + a] == path[a]);
            if c > 0 {
                assert(s[pe - c] == path[path.len() - c]);
            }
        } else {
            assert(path =~= s.subrange(he, pe) + Seq::<u8>::empty() + s.subrange(pe, pe));
        }
    }
    assert(query_text == s.subrange(pe, e.tail_from) + tail_mark && pe <= e.tail_from <= s.len())
        by {
        match query_cut(s, max_len) {
            Some(n) => {
                lemma_kept_query_len(query, query_budget(s, max_len));
                assert(query.take(n) =~= s.subrange(pe, pe + n));
            },
            None => {
                assert(query =~= s.subrange(pe, s.len() as int) + Seq::<u8>::empty());
            },
        }
    }
    lemma_splice_pieces(
        s,
        he,
        e.path_from,
        e.path_to,
        pe,
        e.tail_from,
        path_mark,
        tail_mark,
    );
}

/// Pieces of a text that are cut at rising offsets, with two insertions
/// among them, make up the text with two gaps.
proof fn lemma_splice_pieces(
    s: Seq<u8>,
    he: int,
    from: int,
    to: int,
    pe: int,
    tail: int,
    path_mark: Seq<u8>,
    tail_mark: Seq<u8>,
)
    requires
        0 <= he <= from <= to <= pe <= tail <= s.len(),
    ensures
        s.take(he) + (s.subrange(he, from) + path_mark + s.subrange(to, pe)) + (s.subrange(pe, tail)
            + tail_mark) == s.take(from) + path_mark + s.subrange(to, tail) + tail_mark,
{
    assert(s.take(he) + (s.subrange(he, from) + path_mark + s.subrange(to, pe)) + (s.subrange(
        pe,
        tail,
    ) + tail_mark) =~= s.take(from) + path_mark + s.subrange(to, tail) + tail_mark);
}

/// The shortened text is the input with at most two runs of bytes taken
/// out: a run of whole path segments, in whose place the
/// marker segment stands, and the end of the text, in whose place an
/// ellipsis stands. All that is left of the input stands in the order it had
/// there.
pub proof fn lemma_shortened_splices(s: Seq<u8>, max_len: int)
    ensures
        ({
            let e = elision(s, max_len);
            &&& 0 <= e.path_from <= e.path_to <= e.tail_from <= s.len()
            &&& e.path_marker <==> e.path_from < e.path_to
            &&& e.path_marker ==> s[e.path_from] == SLASH
            &&& !e.tail_marker ==> e.tail_from == s.len()
            &&& shortened(s, max_len) == spliced(s, e)
        }),
{
    let e = elision(s, max_len);
    match outcome(s, max_len) {
        Outcome::Unchanged => {
            assert(spliced(s, e) =~= s);
        },
        Outcome::Truncated => {
            lemma_char_start(s, minus(max_len, 1));
            assert(spliced(s, e) =~= s.take(cut_off(s, max_len)) + ellipsis());
        },
        Outcome::Shortened => {
            lemma_split_shape(s);
            lemma_assembled_splices(s, max_len);
        },
    }
}

/// In valid text every cut falls on a character boundary.
pub proof fn lemma_cuts_on_boundaries(s: Seq<u8>, max_len: int)
    requires
        valid_utf8(s),
    ensures
        is_boundary(s, elision(s, max_len).path_from),
        is_boundary(s, elision(s, max_len).path_to),
        is_boundary(s, elision(s, max_len).tail_from),
{
    let e = elision(s, max_len);
    lemma_split_shape(s);
    lemma_split_boundaries(s);
    match outcome(s, max_len) {
        Outcome::Unchanged => {},
        Outcome::Truncated => {
            lemma_char_start(s, minus(max_len, 1));
        },
        Outcome::Shortened => {
            lemma_assembled_splices(s, max_len);
            let pe = path_end(s);
            if e.path_marker {
                lemma_ascii_boundaries(s, e.path_from);
                if e.path_to < pe {
                    lemma_ascii_boundaries(s, e.path_to);
                }
            }
            match query_cut(s, max_len) {
                Some(n) => {
                    let query = query_of(s);
                    lemma_kept_query_len(query, query_budget(s, max_len));
                    lemma_cut_valid(s, pe);
                    assert(query =~= s.skip(pe));
                    if n < query.len() {
                        assert(query[n] == s[pe + n]);
                    }
                },
                None => {},
            }
        },
    }
}

/// Shortening valid text gives valid text: no character is split, whatever
/// the budget.
pub proof fn lemma_shortened_valid(s: Seq<u8>, max_len: int)
    requires
        valid_utf8(s),
    ensures
        valid_utf8(shortened(s, max_len)),
{
    let e = elision(s, max_len);
    lemma_shortened_splices(s, max_len);
    lemma_cuts_on_boundaries(s, max_len);
    lemma_markers_valid();
    lemma_cut_valid(s, e.path_from);
    lemma_cut_valid(s, e.path_to);
    let rest = s.skip(e.path_to);
    lemma_boundary_within(s, e.path_to, s.len() as int, e.tail_from);
    assert(rest =~= s.subrange(e.path_to, s.len() as int));
    lemma_cut_valid(rest, e.tail_from - e.path_to);
    assert(rest.take(e.tail_from - e.path_to) =~= s.subrange(e.path_to, e.tail_from));
    let path_mark = if e.path_marker {
        marker_segment()
    } else {
        Seq::<u8>::empty()
    };
    let tail_mark = if e.tail_marker {
        ellipsis()
    } else {
        Seq::<u8>::empty()
    };
    assert(valid_utf8(path_mark));
    assert(valid_utf8(tail_mark));
    valid_utf8_concat(s.take(e.path_from), path_mark);
    valid_utf8_concat(s.take(e.path_from) + path_mark, s.subrange(e.path_to, e.tail_from));
    valid_utf8_concat(
        s.take(e.path_from) + path_mark + s.subrange(e.path_to, e.tail_from),
        tail_mark,
    );
}

/// The length of the shortened text: that of the input, less what was taken
/// out, plus four bytes for a marker segment and three for a trailing
/// ellipsis.
pub proof fn lemma_shortened_len(s: Seq<u8>, max_len: int)
    ensures
        shortened(s, max_len).len() == s.len() - elided_len(elision(s, max_len), s.len() as int)
            + inserted_len(elision(s, max_len)),
{
    lemma_shortened_splices(s, max_len);
}

/// A shortened text that differs from its input holds a marker: the marker
/// segment where path segments were taken out, a trailing
/// ellipsis where the query was truncated or the text cut off.
pub proof fn lemma_changed_has_marker(s: Seq<u8>, max_len: int)
    requires
        shortened(s, max_len) != s,
    ensures
        elision(s, max_len).path_marker || elision(s, max_len).tail_marker,
        !(outcome(s, max_len) is Unchanged),
{
}

/// The shortened text holds the ellipses of what it keeps of the input, and
/// one more for each gap.
pub proof fn lemma_marker_count(s: Seq<u8>, max_len: int)
    ensures
        ellipsis_count(shortened(s, max_len)) == kept_ellipses(s, elision(s, max_len))
            + marker_count(elision(s, max_len)),
{
    let e = elision(s, max_len);
    lemma_shortened_splices(s, max_len);
    lemma_marker_counts();
    let head = s.take(e.path_from);
    let rest = s.subrange(e.path_to, e.tail_from);
    let path_mark = if e.path_marker {
        marker_segment()
    } else {
        Seq::<u8>::empty()
    };
    let tail_mark = if e.tail_marker {
        ellipsis()
    } else {
        Seq::<u8>::empty()
    };
    assert(rest.len() > 0 ==> rest[0] == SLASH || rest[0] == QUESTION) by {
        if rest.len() > 0 {
            lemma_split_shape(s);
            lemma_assembled_splices(s, max_len);
            assert(rest[0] == s[e.path_to]);
            if e.path_to == path_end(s) {
                assert(query_of(s)[0] == s[e.path_to]);
            }
        }
    }
    assert(path_mark.len() > 0 ==> path_mark[0] == SLASH);
    assert(tail_mark.len() > 0 ==> tail_mark[0] == 0xe2);
    lemma_count_concat(head, path_mark);
    lemma_count_concat(head + path_mark, rest);
    lemma_count_concat(head + path_mark + rest, tail_mark);
}

/// A shortened text that differs from its input holds exactly one ellipsis,
/// unless what it keeps of the input holds one, or both the path was reduced
/// and the query truncated.
pub proof fn lemma_exactly_one_marker(s: Seq<u8>, max_len: int)
    requires
        shortened(s, max_len) != s,
        kept_ellipses(s, elision(s, max_len)) == 0,
        marker_count(elision(s, max_len)) < 2,
    ensures
        ellipsis_count(shortened(s, max_len)) == 1,
{
    lemma_marker_count(s, max_len);
}

/// The shortened text is no longer than the input wherever the bytes taken
/// out make up for the markers put in.
pub proof fn lemma_no_growth(s: Seq<u8>, max_len: int)
    requires
        elided_len(elision(s, max_len), s.len() as int) >= inserted_len(elision(s, max_len)),
    ensures
        shortened(s, max_len).len() <= s.len(),
{
    lemma_shortened_len(s, max_len);
}

} // verus!
