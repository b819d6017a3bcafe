//! The path reducer: removes path segments from the middle outward until the
//! path fits its budget.

use crate::split::is_path;
use crate::text::{
    byte_len, ellipsis, find_byte, free_of, index_from, is_boundary, lemma_ascii_boundaries,
    lemma_index_from, lemma_index_from_skip, lemma_index_from_unique, lemma_str_valid, slice_str,
    SLASH,
};
use vstd::prelude::*;
use vstd::string::*;
use vstd::utf8::*;

verus! {

/// The bytes that the marker takes in a reduced path: `/` and the ellipsis.
pub const MARKER_LEN: usize = 4;

/// The pieces of `s` between occurrences of `sep`; never empty, and a single
/// piece where `sep` does not occur.
pub open spec fn split_on(s: Seq<u8>, sep: u8) -> Seq<Seq<u8>>
    decreases s.len(),
{
    let at = index_from(s, sep, 0);
    if 0 <= at < s.len() {
        seq![s.take(at)] + split_on(s.skip(at + 1), sep)
    } else {
        seq![s]
    }
}

/// The segments of a path: the path without its leading `/`, split on `/`.
/// The empty path has no segments.
pub open spec fn path_parts(p: Seq<u8>) -> Seq<Seq<u8>> {
    if p.len() == 0 {
        Seq::empty()
    } else {
        split_on(p.skip(1), SLASH)
    }
}

/// The path made of `parts`: each segment with a `/` before it.
pub open spec fn joined(parts: Seq<Seq<u8>>) -> Seq<u8>
    decreases parts.len(),
{
    if parts.len() == 0 {
        Seq::empty()
    } else {
        seq![SLASH] + parts[0] + joined(parts.drop_first())
    }
}

/// The marker as it stands in a path: `/` and the ellipsis.
pub open spec fn marker_segment() -> Seq<u8> {
    seq![SLASH] + ellipsis()
}

/// The reduced path: the kept segments with the marker segment before the
/// segment at position `marker`.
pub open spec fn joined_with_marker(kept: Seq<Seq<u8>>, marker: int) -> Seq<u8> {
    joined(kept.take(marker)) + marker_segment() + joined(kept.skip(marker))
}

/// The position of the segment to remove next from `count` segments: just
/// before the midpoint.
pub open spec fn removal_index(count: int) -> int {
    if count / 2 >= 1 {
        count / 2 - 1
    } else {
        0
    }
}

/// A reduced path: the segments that are left, in their order, the position
/// among them where the marker stands for the removed ones, and the length
/// in bytes of the reduced path, marker included.
pub struct Reduction {
    pub kept: Seq<Seq<u8>>,
    pub marker: int,
    pub len: int,
}

/// Removes the segment before the midpoint, again and again, until no
/// segment is left or the segments with the marker fit `budget`. `marker` is
/// the position of the last removal before this call.
pub open spec fn remove_until_fit(parts: Seq<Seq<u8>>, marker: int, budget: int) -> Reduction
    decreases parts.len(),
{
    if parts.len() == 0 || joined(parts).len() + MARKER_LEN <= budget {
        Reduction { kept: parts, marker: marker, len: joined(parts).len() + MARKER_LEN }
    } else {
        let mid = removal_index(parts.len() as int);
        remove_until_fit(parts.remove(mid), mid, budget)
    }
}

/// The reduction of a path of segments `parts` to `budget` bytes: `None`
/// where there is no segment or the path fits as it is, else what is left
/// after removing segments until the rest and the marker fit.
pub open spec fn reduce_path(parts: Seq<Seq<u8>>, budget: int) -> Option<Reduction> {
    if parts.len() == 0 || joined(parts).len() <= budget {
        None
    } else {
        let mid = removal_index(parts.len() as int);
        Some(remove_until_fit(parts.remove(mid), mid, budget))
    }
}

/// The byte sequences of a list of string slices.
pub open spec fn segments(parts: Seq<&str>) -> Seq<Seq<u8>> {
    parts.map_values(|p: &str| p.spec_bytes())
}

/// Joining distributes over concatenation.
pub proof fn lemma_joined_concat(a: Seq<Seq<u8>>, b: Seq<Seq<u8>>)
    ensures
        joined(a + b) == joined(a) + joined(b),
    decreases a.len(),
{
    if a.len() == 0 {
        assert(a + b =~= b);
    } else {
        lemma_joined_concat(a.drop_first(), b);
        assert((a + b).drop_first() =~= a.drop_first() + b);
        assert(joined(a + b) =~= joined(a) + joined(b));
    }
}

/// A single segment joins to `/` and the segment.
pub proof fn lemma_joined_one(part: Seq<u8>)
    ensures
        joined(seq![part]) == seq![SLASH] + part,
{
    reveal_with_fuel(joined, 2);
    assert(seq![part].drop_first() =~= Seq::<Seq<u8>>::empty());
    assert(joined(seq![part]) =~= seq![SLASH] + part);
}

/// Removing a segment shortens the joined path by the segment and its `/`.
pub proof fn lemma_joined_remove(parts: Seq<Seq<u8>>, i: int)
    requires
        0 <= i < parts.len(),
    ensures
        joined(parts.remove(i)).len() + parts[i].len() + 1 == joined(parts).len(),
        joined(parts.remove(i)) == joined(parts.take(i)) + joined(parts.skip(i + 1)),
        joined(parts) == joined(parts.take(i)) + (seq![SLASH] + parts[i]) + joined(
            parts.skip(i + 1),
        ),
{
    let head = parts.take(i);
    let tail = parts.skip(i + 1);
    assert(parts.remove(i) =~= head + tail);
    assert(parts =~= head + seq![parts[i]] + tail);
    lemma_joined_concat(head, tail);
    lemma_joined_concat(head + seq![parts[i]], tail);
    lemma_joined_concat(head, seq![parts[i]]);
    lemma_joined_one(parts[i]);
}

/// The segments of a path are free of `/`, and joined they give the path
/// back.
pub proof fn lemma_split_on_joins(s: Seq<u8>)
    ensures
        split_on(s, SLASH).len() >= 1,
        joined(split_on(s, SLASH)) == seq![SLASH] + s,
        forall|k: int|
            0 <= k < split_on(s, SLASH).len() ==> free_of(#[trigger] split_on(s, SLASH)[k], SLASH),
    decreases s.len(),
{
    let at = index_from(s, SLASH, 0);
    lemma_index_from(s, SLASH, 0);
    if at < s.len() {
        let rest = s.skip(at + 1);
        lemma_split_on_joins(rest);
        let parts = split_on(s, SLASH);
        assert(parts.drop_first() =~= split_on(rest, SLASH));
        assert(parts[0] == s.take(at));
        assert(joined(parts) =~= seq![SLASH] + s);
        assert forall|k: int| 0 <= k < parts.len() implies free_of(#[trigger] parts[k], SLASH) by {
            if k > 0 {
                assert(parts[k] == split_on(rest, SLASH)[k - 1]);
            }
        }
    } else {
        lemma_joined_one(s);
    }
}

/// The segments of a path are free of `/`, and joined they give the path
/// back.
pub proof fn lemma_path_parts_join(p: Seq<u8>)
    requires
        is_path(p),
    ensures
        joined(path_parts(p)) == p,
        p.len() > 0 ==> path_parts(p).len() >= 1,
        forall|k: int| 0 <= k < path_parts(p).len() ==> free_of(#[trigger] path_parts(p)[k], SLASH),
{
    if p.len() > 0 {
        lemma_split_on_joins(p.skip(1));
        assert(seq![SLASH] + p.skip(1) =~= p);
    }
}

/// A list of segments free of `/` is the list of segments of its joined
/// path.
pub proof fn lemma_join_then_split(parts: Seq<Seq<u8>>)
    requires
        forall|k: int| 0 <= k < parts.len() ==> free_of(#[trigger] parts[k], SLASH),
    ensures
        path_parts(joined(parts)) == parts,
        is_path(joined(parts)),
    decreases parts.len(),
{
    if parts.len() > 0 {
        let rest = parts.drop_first();
        lemma_join_then_split(rest);
        let tail = parts[0] + joined(rest);
        assert(joined(parts).skip(1) =~= tail);
        assert forall|k: int| 0 <= k < rest.len() implies free_of(#[trigger] rest[k], SLASH) by {
            assert(rest[k] == parts[k + 1]);
        }
        assert(free_of(parts[0], SLASH));
        if rest.len() == 0 {
            assert(tail =~= parts[0]);
            lemma_index_from_unique(tail, SLASH, 0, tail.len() as int);
            assert(split_on(tail, SLASH) =~= parts);
        } else {
            let at = parts[0].len() as int;
            assert(joined(rest)[0] == SLASH);
            assert(tail[at] == SLASH);
            lemma_index_from_unique(tail, SLASH, 0, at);
            assert(tail.take(at) =~= parts[0]);
            assert(tail.skip(at + 1) =~= joined(rest).skip(1));
            assert(split_on(tail, SLASH) =~= seq![parts[0]] + rest);
            assert(seq![parts[0]] + rest =~= parts);
        }
    }
}

/// Whatever is removed from a list of segments is one run: what is left is
/// the list up to the marker and the list from the end of the run on. `from`
/// and `to` bound the run that is gone before this call.
pub proof fn lemma_remove_until_fit_gap(orig: Seq<Seq<u8>>, from: int, to: int, budget: int)
    requires
        0 <= from < to <= orig.len(),
        from == removal_index(orig.len() - (to - from) + 1),
    ensures
        ({
            let r = remove_until_fit(orig.take(from) + orig.skip(to), from, budget);
            let gap = orig.len() - r.kept.len();
            &&& to - from <= gap
            &&& 0 <= r.marker
            &&& r.marker + gap <= orig.len()
            &&& r.kept == orig.take(r.marker) + orig.skip(r.marker + gap)
            &&& r.len == joined(r.kept).len() + MARKER_LEN
            &&& (r.kept.len() == 0 || r.len <= budget)
            &&& r.marker == removal_index(r.kept.len() as int + 1)
        }),
    decreases orig.len() - (to - from),
{
    let cur = orig.take(from) + orig.skip(to);
    let n = cur.len() as int;
    assert(n == orig.len() - (to - from));
    if n == 0 || joined(cur).len() + MARKER_LEN <= budget {
    } else {
        let mid = removal_index(n);
        if mid == from {
            assert(cur.remove(mid) =~= orig.take(from) + orig.skip(to + 1));
            lemma_remove_until_fit_gap(orig, from, to + 1, budget);
        } else {
            assert(mid == from - 1);
            assert(cur.remove(mid) =~= orig.take(from - 1) + orig.skip(to));
            lemma_remove_until_fit_gap(orig, from - 1, to, budget);
        }
    }
}

/// The order of the segments that survive a reduction is their order in the
/// path: a reduction takes out one run of neighbours, and the marker stands
/// where the run was. A path is reduced exactly when it has a segment and
/// does not fit, and what is left fits unless nothing is left.
pub proof fn lemma_reduce_path_keeps_order(parts: Seq<Seq<u8>>, budget: int)
    ensures
        match reduce_path(parts, budget) {
            Some(r) => {
                let gap = parts.len() - r.kept.len();
                &&& parts.len() > 0 && joined(parts).len() > budget
                &&& 1 <= gap
                &&& 0 <= r.marker <= r.kept.len()
                &&& r.kept == parts.take(r.marker) + parts.skip(r.marker + gap)
                &&& r.len == joined(r.kept).len() + MARKER_LEN
                &&& (r.kept.len() == 0 || r.len <= budget)
                &&& r.marker == removal_index(r.kept.len() as int + 1)
            },
            None => parts.len() == 0 || joined(parts).len() <= budget,
        },
{
    if reduce_path(parts, budget) is Some {
        let mid = removal_index(parts.len() as int);
        assert(parts.remove(mid) =~= parts.take(mid) + parts.skip(mid + 1));
        lemma_remove_until_fit_gap(parts, mid, mid + 1, budget);
    }
}

/// A reduced path, as `shorten_path` hands it out.
pub struct ShortenedPath<'a> {
    /// The segments that are left, in the order they have in the path.
    pub parts: Vec<&'a str>,
    /// The position among `parts` where the marker stands for the removed
    /// segments.
    pub marker: usize,
    /// The length in bytes of the segments that are left, each with its `/`.
    /// The marker adds `MARKER_LEN` to it.
    pub kept_len: usize,
}

impl<'a> View for ShortenedPath<'a> {
    type V = Reduction;

    open spec fn view(&self) -> Reduction {
        Reduction {
            kept: segments(self.parts@),
            marker: self.marker as int,
            len: self.kept_len + MARKER_LEN,
        }
    }
}

/// The segments of `path`, each a view into it.
pub fn split_path<'a>(path: &'a str) -> (parts: Vec<&'a str>)
    requires
        is_path(path.spec_bytes()),
    ensures
        segments(parts@) == path_parts(path.spec_bytes()),
{
    let bytes = path.as_bytes();
    let len: usize = bytes.len();
    let mut parts: Vec<&'a str> = Vec::new();
    if len == 0 {
        assert(segments(parts@) =~= path_parts(path.spec_bytes()));
        return parts;
    }
    let ghost p = path.spec_bytes();
    let mut start: usize = 1;
    proof {
        lemma_str_valid(path);
        lemma_ascii_boundaries(p, 0);
        assert(segments(parts@) + split_on(p.skip(1), SLASH) =~= path_parts(p));
    }
    loop
        invariant_except_break
            1 <= start <= len,
            is_boundary(p, start as int),
            segments(parts@) + split_on(p.skip(start as int), SLASH) == path_parts(p),
        invariant
            p == path.spec_bytes(),
            bytes@ == p,
            len == p.len(),
            valid_utf8(p),
        ensures
            segments(parts@) == path_parts(p),
        decreases len - start,
    {
        let end: usize = find_byte(bytes, SLASH, start);
        proof {
            lemma_index_from_skip(p, SLASH, start as int);
            lemma_index_from(p, SLASH, start as int);
            if end < len {
                lemma_ascii_boundaries(p, end as int);
            }
        }
        let piece = slice_str(path, start, end);
        let ghost before = parts@;
        parts.push(piece);
        proof {
            let rest = p.skip(start as int);
            assert(segments(parts@) =~= segments(before) + seq![piece.spec_bytes()]);
            if end < len {
                assert(rest.take(end - start) =~= p.subrange(start as int, end as int));
                assert(rest.skip(end - start + 1) =~= p.skip(end + 1));
                assert(segments(parts@) + split_on(p.skip(end + 1), SLASH) =~= segments(before)
                    + split_on(rest, SLASH));
            } else {
                assert(rest =~= p.subrange(start as int, end as int));
                assert(segments(parts@) =~= segments(before) + split_on(rest, SLASH));
            }
        }
        if end == len {
            break ;
        }
        start = end + 1;
    }
    parts
}

/// Reduces `path` to at most `max_len` bytes by removing segments from the
/// middle outward. `None` where the path has no segment or fits as it is;
/// else the segments that are left after removing, one at a time, the
/// segment just before the midpoint of those that remain, until none is left
/// or they fit together with the marker.
pub fn shorten_path<'a>(path: &'a str, max_len: usize) -> (reduced: Option<ShortenedPath<'a>>)
    requires
        is_path(path.spec_bytes()),
    ensures
        match reduce_path(path_parts(path.spec_bytes()), max_len as int) {
            Some(r) => reduced is Some && reduced->0@ == r,
            None => reduced is None,
        },
        reduced is Some ==> reduced->0.marker <= reduced->0.parts@.len(),
{
    let mut parts: Vec<&'a str> = split_path(path);
    let mut total: usize = byte_len(path);
    proof {
        lemma_path_parts_join(path.spec_bytes());
    }
    if parts.len() == 0 || total <= max_len {
        return None;
    }
    let ghost goal = reduce_path(path_parts(path.spec_bytes()), max_len as int)->0;
    let half: usize = parts.len() / 2;
    let mut marker: usize = if half >= 1 {
        half - 1
    } else {
        0
    };
    proof {
        lemma_joined_remove(segments(parts@), marker as int);
    }
    let ghost before = parts@;
    let removed = parts.remove(marker);
    assert(segments(parts@) =~= segments(before).remove(marker as int));
    total = total - byte_len(removed) - 1;
    while parts.len() > 0 && (max_len < MARKER_LEN || total > max_len - MARKER_LEN)
        invariant
            marker <= parts@.len(),
            total == joined(segments(parts@)).len(),
            remove_until_fit(segments(parts@), marker as int, max_len as int) == goal,
        decreases parts.len(),
    {
        let half: usize = parts.len() / 2;
        marker = if half >= 1 {
            half - 1
        } else {
            0
        };
        proof {
            lemma_joined_remove(segments(parts@), marker as int);
        }
        let ghost before = parts@;
        let removed = parts.remove(marker);
        assert(segments(parts@) =~= segments(before).remove(marker as int));
        total = total - byte_len(removed) - 1;
    }
    Some(ShortenedPath { parts, marker, kept_len: total })
}

} // verus!
