//! Byte-level view of text: delimiter search, character boundaries and the
//! ellipsis marker.
//!
//! A string is modelled by its UTF-8 bytes, a `Seq<u8>`. Every offset and
//! length in this crate counts bytes.

use vstd::prelude::*;
use vstd::string::*;
use vstd::utf8::*;

verus! {

/// `/`, which separates the host from the path and path segments from each other.
pub const SLASH: u8 = 0x2f;

/// `?`, which starts the query.
pub const QUESTION: u8 = 0x3f;

/// `&`, which separates query parameters.
pub const AMPERSAND: u8 = 0x26;

/// `:`, the first byte of the scheme separator `://`.
pub const COLON: u8 = 0x3a;

/// The UTF-8 bytes of the ellipsis marker, U+2026.
pub open spec fn ellipsis() -> Seq<u8> {
    seq![0xe2u8, 0x80u8, 0xa6u8]
}

/// `a - b`, or zero where `b` exceeds `a`.
pub open spec fn minus(a: int, b: int) -> int {
    if a >= b {
        a - b
    } else {
        0
    }
}

/// The first position at or after `from` that holds `byte`; the length of `s`
/// where there is none.
pub open spec fn index_from(s: Seq<u8>, byte: u8, from: int) -> int
    decreases s.len() - from,
{
    if from >= s.len() {
        s.len() as int
    } else if 0 <= from && s[from] == byte {
        from
    } else {
        index_from(s, byte, from + 1)
    }
}

/// True when `byte` occurs nowhere in `s`.
pub open spec fn free_of(s: Seq<u8>, byte: u8) -> bool {
    forall|i: int| 0 <= i < s.len() ==> s[i] != byte
}

/// What `index_from` finds: nothing before it matches, and it matches unless
/// it is the end.
pub proof fn lemma_index_from(s: Seq<u8>, byte: u8, from: int)
    requires
        0 <= from <= s.len(),
    ensures
        from <= index_from(s, byte, from) <= s.len(),
        index_from(s, byte, from) < s.len() ==> s[index_from(s, byte, from)] == byte,
        forall|j: int| from <= j < index_from(s, byte, from) ==> s[j] != byte,
    decreases s.len() - from,
{
    if from < s.len() && s[from] != byte {
        lemma_index_from(s, byte, from + 1);
    }
}

/// A position with the properties of `lemma_index_from` is the one that
/// `index_from` finds.
pub proof fn lemma_index_from_unique(s: Seq<u8>, byte: u8, from: int, at: int)
    requires
        0 <= from <= at <= s.len(),
        forall|j: int| from <= j < at ==> s[j] != byte,
        at < s.len() ==> s[at] == byte,
    ensures
        index_from(s, byte, from) == at,
    decreases at - from,
{
    if from < at {
        lemma_index_from_unique(s, byte, from + 1, at);
    }
}

/// Searching a suffix finds the same byte as searching the whole from the
/// suffix's start.
pub proof fn lemma_index_from_skip(s: Seq<u8>, byte: u8, from: int)
    requires
        0 <= from <= s.len(),
    ensures
        index_from(s.skip(from), byte, 0) + from == index_from(s, byte, from),
{
    lemma_index_from(s, byte, from);
    let at = index_from(s, byte, from);
    lemma_index_from_unique(s.skip(from), byte, 0, at - from);
}

/// True when the scheme separator `://` starts at position `i`.
pub open spec fn separator_at(s: Seq<u8>, i: int) -> bool {
    &&& 0 <= i
    &&& i + 3 <= s.len()
    &&& s[i] == COLON
    &&& s[i + 1] == SLASH
    &&& s[i + 2] == SLASH
}

/// The first position at or after `from` where `://` starts; the length of
/// `s` where there is none.
pub open spec fn separator_from(s: Seq<u8>, from: int) -> int
    decreases s.len() - from,
{
    if from + 3 > s.len() {
        s.len() as int
    } else if separator_at(s, from) {
        from
    } else {
        separator_from(s, from + 1)
    }
}

/// What `separator_from` finds.
pub proof fn lemma_separator_from(s: Seq<u8>, from: int)
    requires
        0 <= from,
    ensures
        separator_from(s, from) == s.len() || (from <= separator_from(s, from) && separator_at(
            s,
            separator_from(s, from),
        )),
        forall|j: int| from <= j < separator_from(s, from) ==> !separator_at(s, j),
    decreases s.len() - from,
{
    if from + 3 <= s.len() && !separator_at(s, from) {
        lemma_separator_from(s, from + 1);
    }
}

/// A position with the properties of `lemma_separator_from` is the one that
/// `separator_from` finds.
pub proof fn lemma_separator_from_unique(s: Seq<u8>, from: int, at: int)
    requires
        0 <= from <= at,
        at == s.len() || separator_at(s, at),
        forall|j: int| from <= j < at ==> !separator_at(s, j),
    ensures
        separator_from(s, from) == at,
    decreases s.len() - from,
{
    if from + 3 > s.len() {
    } else if separator_at(s, from) {
    } else {
        lemma_separator_from_unique(s, from + 1, at);
    }
}

/// True when offset `i` of `s` does not fall inside a multi-byte character:
/// it is the start, the end, or the position of a byte that is no
/// continuation byte.
pub open spec fn is_boundary(s: Seq<u8>, i: int) -> bool {
    i == 0 || i == s.len() || (0 < i < s.len() && !is_continuation_byte(s[i]))
}

/// The largest character boundary of `s` at or before `index`.
pub open spec fn char_start(s: Seq<u8>, index: int) -> int
    decreases index,
{
    if index <= 0 {
        0
    } else if is_boundary(s, index) {
        index
    } else {
        char_start(s, index - 1)
    }
}

/// `char_start` is a boundary at or before `index`, and no boundary lies
/// between the two.
pub proof fn lemma_char_start(s: Seq<u8>, index: int)
    requires
        0 <= index,
    ensures
        0 <= char_start(s, index) <= index,
        is_boundary(s, char_start(s, index)),
        forall|j: int| char_start(s, index) < j <= index ==> !is_boundary(s, j),
    decreases index,
{
    if index > 0 && !is_boundary(s, index) {
        lemma_char_start(s, index - 1);
    }
}

/// A boundary at or before `index` with no boundary between the two is the
/// one that `char_start` finds.
pub proof fn lemma_char_start_unique(s: Seq<u8>, index: int, at: int)
    requires
        0 <= at <= index,
        is_boundary(s, at),
        forall|j: int| at < j <= index ==> !is_boundary(s, j),
    ensures
        char_start(s, index) == at,
    decreases index,
{
    if at < index {
        lemma_char_start_unique(s, index - 1, at);
    }
}

/// At or beyond the end of `s` the last boundary is the end.
pub proof fn lemma_char_start_beyond(s: Seq<u8>, index: int)
    requires
        s.len() <= index,
    ensures
        char_start(s, index) == s.len(),
    decreases index,
{
    if index > s.len() {
        lemma_char_start_beyond(s, index - 1);
    }
}

/// On valid UTF-8 the boundaries of `is_boundary` are those of
/// `vstd::utf8::is_char_boundary`.
pub proof fn lemma_boundary_agrees(s: Seq<u8>, i: int)
    requires
        valid_utf8(s),
    ensures
        is_char_boundary(s, i) == is_boundary(s, i),
{
    if i == 0 || i == s.len() {
        is_char_boundary_start_end_of_seq(s);
    } else if 0 < i < s.len() {
        is_char_boundary_iff_not_is_continuation_byte(s, i);
    }
}

/// Cutting valid UTF-8 at a boundary leaves valid UTF-8 on both sides.
pub proof fn lemma_cut_valid(s: Seq<u8>, i: int)
    requires
        valid_utf8(s),
        is_boundary(s, i),
    ensures
        valid_utf8(s.take(i)),
        valid_utf8(s.skip(i)),
{
    lemma_boundary_agrees(s, i);
    valid_utf8_split(s, i);
    assert(s.take(i) =~= s.subrange(0, i));
    assert(s.skip(i) =~= s.subrange(i, s.len() as int));
}

/// In valid UTF-8 an ASCII byte is a whole character: the offsets before and
/// after it are boundaries.
pub proof fn lemma_ascii_boundaries(s: Seq<u8>, i: int)
    requires
        valid_utf8(s),
        0 <= i < s.len(),
        s[i] < 0x80,
    ensures
        is_boundary(s, i),
        is_boundary(s, i + 1),
{
    lemma_cut_valid(s, i);
    let rest = s.skip(i);
    assert(rest[0] == s[i]);
    assert(valid_first_scalar(rest));
    assert(length_of_first_scalar(rest) == 1);
    let after = pop_first_scalar(rest);
    assert(valid_utf8(after));
    if i + 1 < s.len() {
        assert(after.len() > 0);
        assert(after[0] == s[i + 1]);
        assert(valid_first_scalar(after));
    }
}

/// A boundary of the whole is a boundary of any piece that is cut out at
/// boundaries.
pub proof fn lemma_boundary_within(s: Seq<u8>, from: int, to: int, i: int)
    requires
        0 <= from <= i <= to <= s.len(),
        is_boundary(s, i),
        is_boundary(s, from),
    ensures
        is_boundary(s.subrange(from, to), i - from),
{
    if from < i && i < to {
        assert(s.subrange(from, to)[i - from] == s[i]);
    }
}

/// The encoding of a concatenation is the concatenation of the encodings.
pub proof fn lemma_encode_concat(a: Seq<char>, b: Seq<char>)
    ensures
        encode_utf8(a + b) == encode_utf8(a) + encode_utf8(b),
    decreases a.len(),
{
    if a.len() == 0 {
        assert(a + b =~= b);
        assert(encode_utf8(a) =~= Seq::<u8>::empty());
    } else {
        lemma_encode_concat(a.drop_first(), b);
        assert((a + b).drop_first() =~= a.drop_first() + b);
        assert((a + b)[0] == a[0]);
        assert(encode_utf8(a + b) =~= encode_utf8(a) + encode_utf8(b));
    }
}

/// The text `/` is the single byte `SLASH`.
pub proof fn lemma_slash_text()
    ensures
        encode_utf8("/"@) == seq![SLASH],
{
    reveal_strlit("/");
    reveal_with_fuel(encode_utf8, 2);
    let c: u32 = 0x2f;
    assert((c & 0x7f) as u8 == 0x2fu8) by (bit_vector)
        requires
            c == 0x2fu32,
    ;
    assert("/"@.drop_first() =~= Seq::<char>::empty());
    assert(encode_utf8("/"@) =~= seq![SLASH]);
}

/// The text of the ellipsis marker has the bytes of `ellipsis`.
pub proof fn lemma_ellipsis_text()
    ensures
        encode_utf8("\u{2026}"@) == ellipsis(),
{
    reveal_strlit("\u{2026}");
    reveal_with_fuel(encode_utf8, 2);
    let c: u32 = 0x2026;
    assert(0xe0u8 | ((c >> 12) & 0x0f) as u8 == 0xe2u8) by (bit_vector)
        requires
            c == 0x2026u32,
    ;
    assert(0x80u8 | ((c >> 6) & 0x3f) as u8 == 0x80u8) by (bit_vector)
        requires
            c == 0x2026u32,
    ;
    assert(0x80u8 | (c & 0x3f) as u8 == 0xa6u8) by (bit_vector)
        requires
            c == 0x2026u32,
    ;
    assert("\u{2026}"@.drop_first() =~= Seq::<char>::empty());
    assert(encode_utf8("\u{2026}"@) =~= ellipsis());
}

/// The bytes of a string are valid UTF-8.
pub proof fn lemma_str_valid(s: &str)
    ensures
        valid_utf8(s.spec_bytes()),
{
    encode_utf8_valid_utf8(s@);
}

/// `String::with_capacity` of the standard library: it returns an empty
/// string, with room for at least `capacity` bytes. It panics where the
/// capacity exceeds `isize::MAX` bytes, so such a capacity is not admitted.
pub assume_specification[ String::with_capacity ](capacity: usize) -> (out: String)
    requires
        capacity <= usize::MAX / 2,
    ensures
        out@ == Seq::<char>::empty(),
;

/// An empty string with room for `capacity` bytes, as far as a string can
/// have so much room.
pub fn new_buffer(capacity: usize) -> (out: String)
    ensures
        out@ == Seq::<char>::empty(),
{
    if capacity <= usize::MAX / 2 {
        String::with_capacity(capacity)
    } else {
        String::new()
    }
}

/// The length of `s` in bytes.
pub fn byte_len(s: &str) -> (len: usize)
    ensures
        len == s.spec_bytes().len(),
{
    s.as_bytes().len()
}

/// The position of the first `byte` at or after `from`, or the length of
/// `bytes` where there is none.
pub fn find_byte(bytes: &[u8], byte: u8, from: usize) -> (at: usize)
    requires
        from <= bytes@.len(),
    ensures
        at == index_from(bytes@, byte, from as int),
        from <= at <= bytes@.len(),
{
    let mut i: usize = from;
    while i < bytes.len() && bytes[i] != byte
        invariant
            from <= i <= bytes@.len(),
            index_from(bytes@, byte, i as int) == index_from(bytes@, byte, from as int),
        decreases bytes@.len() - i,
    {
        i += 1;
    }
    i
}

/// The position where the first `://` starts, or the length of `bytes` where
/// there is none.
pub fn find_separator(bytes: &[u8]) -> (at: usize)
    ensures
        at == separator_from(bytes@, 0),
        at <= bytes@.len(),
        at < bytes@.len() ==> separator_at(bytes@, at as int),
{
    let len: usize = bytes.len();
    let mut i: usize = 0;
    while i < len && len - i >= 3 && !(bytes[i] == COLON && bytes[i + 1] == SLASH && bytes[i + 2]
        == SLASH)
        invariant
            len == bytes@.len(),
            i <= len,
            separator_from(bytes@, i as int) == separator_from(bytes@, 0),
        decreases len - i,
    {
        i += 1;
    }
    if i < len && len - i >= 3 {
        i
    } else {
        len
    }
}

/// The largest character boundary of `s` at or before `index`. An `index`
/// beyond the end gives the end.
pub fn find_char_start(s: &str, index: usize) -> (start: usize)
    ensures
        start == char_start(s.spec_bytes(), index as int),
        start <= index,
        start <= s.spec_bytes().len(),
        is_boundary(s.spec_bytes(), start as int),
        forall|j: int| start < j <= index ==> !is_boundary(s.spec_bytes(), j),
{
    let len: usize = byte_len(s);
    let mut i: usize = if index > len {
        len
    } else {
        index
    };
    proof {
        lemma_str_valid(s);
        lemma_char_start(s.spec_bytes(), index as int);
        if index > len {
            lemma_char_start_beyond(s.spec_bytes(), index as int);
            lemma_char_start_beyond(s.spec_bytes(), len as int);
        }
    }
    while i > 0 && !s.is_char_boundary(i)
        invariant
            i <= index,
            i <= len,
            len == s.spec_bytes().len(),
            valid_utf8(s.spec_bytes()),
            char_start(s.spec_bytes(), i as int) == char_start(s.spec_bytes(), index as int),
        decreases i,
    {
        proof {
            lemma_boundary_agrees(s.spec_bytes(), i as int);
        }
        i -= 1;
    }
    proof {
        lemma_boundary_agrees(s.spec_bytes(), i as int);
    }
    i
}

/// The piece of `s` from byte `from` up to byte `to`.
pub fn slice_str<'a>(s: &'a str, from: usize, to: usize) -> (piece: &'a str)
    requires
        from <= to <= s.spec_bytes().len(),
        is_boundary(s.spec_bytes(), from as int),
        is_boundary(s.spec_bytes(), to as int),
    ensures
        piece.spec_bytes() == s.spec_bytes().subrange(from as int, to as int),
{
    proof {
        lemma_str_valid(s);
        lemma_boundary_agrees(s.spec_bytes(), to as int);
    }
    let (head, _) = s.split_at(to);
    proof {
        lemma_str_valid(head);
        lemma_boundary_within(s.spec_bytes(), 0, to as int, from as int);
        lemma_boundary_agrees(head.spec_bytes(), from as int);
    }
    let (_, piece) = head.split_at(from);
    assert(piece.spec_bytes() =~= s.spec_bytes().subrange(from as int, to as int));
    piece
}

} // verus!
