//! The text of a document, held in a rope and addressed by byte offsets.
//!
//! The rope itself is opaque to the verifier. Everything this module states
//! about it is stated over [`rope_bytes`], the UTF-8 bytes that the rope
//! holds, and the small functions marked `external_body` are the only places
//! where that statement is taken on trust.

use vstd::prelude::*;
use vstd::string::StringSliceAdditionalSpecFns;
use vstd::utf8::*;

verus! {

/// The rope of the `xi-rope` crate. Its fields are hidden from the verifier.
#[verifier::external_body]
pub struct RopeText {
    rope: xi_rope::Rope,
}

/// The bytes that a rope holds, in order.
pub uninterp spec fn rope_bytes(r: RopeText) -> Seq<u8>;

/// `bytes` with the range `[start, end)` replaced by `new`.
pub open spec fn splice(bytes: Seq<u8>, start: int, end: int, new: Seq<u8>) -> Seq<u8> {
    bytes.subrange(0, start) + new + bytes.subrange(end, bytes.len() as int)
}

/// The number of line feeds in `bytes`.
pub open spec fn newline_count(bytes: Seq<u8>) -> nat
    decreases bytes.len(),
{
    if bytes.len() == 0 {
        0
    } else {
        newline_count(bytes.drop_last()) + if bytes.last() == 0x0a {
            1nat
        } else {
            0nat
        }
    }
}

/// The least offset `k >= from` that has at least `line` line feeds before
/// it, or the length of `bytes` where there is none.
pub open spec fn line_search(bytes: Seq<u8>, line: nat, from: int) -> int
    decreases bytes.len() - from,
{
    if from >= bytes.len() {
        bytes.len() as int
    } else if newline_count(bytes.take(from)) >= line {
        from
    } else {
        line_search(bytes, line, from + 1)
    }
}

/// The offset at which line `line` starts: zero for line zero, else the
/// offset just behind the `line`-th line feed. One line past the last starts
/// at the end of the text.
pub open spec fn line_offset(bytes: Seq<u8>, line: nat) -> int {
    line_search(bytes, line, 0)
}

/// The UTF-16 code units that the character led by byte `b` takes; zero for a
/// continuation byte.
pub open spec fn utf16_units(b: u8) -> nat {
    if is_continuation_byte(b) {
        0
    } else if b >= 0xf0 {
        2
    } else {
        1
    }
}

/// The length of `bytes` in UTF-16 code units.
pub open spec fn utf16_len(bytes: Seq<u8>) -> nat
    decreases bytes.len(),
{
    if bytes.len() == 0 {
        0
    } else {
        utf16_len(bytes.drop_last()) + utf16_units(bytes.last())
    }
}

/// The least character boundary `k >= from` that has at least `units` UTF-16
/// code units before it, or the length of `bytes` where there is none.
pub open spec fn utf16_search(bytes: Seq<u8>, units: nat, from: int) -> int
    decreases bytes.len() - from,
{
    if from >= bytes.len() {
        bytes.len() as int
    } else if is_char_boundary(bytes, from) && utf16_len(bytes.take(from)) >= units {
        from
    } else {
        utf16_search(bytes, units, from + 1)
    }
}

/// The byte offset that lies `units` UTF-16 code units into `bytes`.
pub open spec fn utf16_offset(bytes: Seq<u8>, units: nat) -> int {
    utf16_search(bytes, units, 0)
}

/// A piece of text as the rope stores it, and an offset into the piece.
pub struct Piece<'a> {
    pub text: &'a str,
    pub at: usize,
}

impl<'a> Piece<'a> {
    /// The piece is a stretch of `bytes`, and its offset `at` is where
    /// `offset` falls in it: inside the piece, or at its end where that is
    /// the end of `bytes`.
    pub open spec fn lies_at(self, bytes: Seq<u8>, offset: int) -> bool {
        let piece = self.text.spec_bytes();
        &&& self.at <= piece.len()
        &&& self.at <= offset
        &&& offset - self.at + piece.len() <= bytes.len()
        &&& piece == bytes.subrange(offset - self.at, offset - self.at + piece.len())
        &&& (self.at == piece.len() ==> offset == bytes.len())
    }
}

/// `Rope::from`: the rope holds the bytes of `text`.
#[verifier::external_body]
fn rope_from_str(text: &str) -> (r: RopeText)
    ensures
        rope_bytes(r) == text.spec_bytes(),
{
    RopeText { rope: xi_rope::Rope::from(text) }
}

/// `Clone::clone` of a rope: the copy holds the same bytes.
#[verifier::external_body]
fn rope_clone(r: &RopeText) -> (c: RopeText)
    ensures
        rope_bytes(c) == rope_bytes(*r),
{
    RopeText { rope: r.rope.clone() }
}

/// `Node::len`: the number of bytes.
#[verifier::external_body]
fn rope_len(r: &RopeText) -> (n: usize)
    ensures
        n == rope_bytes(*r).len(),
{
    r.rope.len()
}

/// `Node::measure` with `LinesMetric`: the number of line feeds.
#[verifier::external_body]
fn rope_newlines(r: &RopeText) -> (n: usize)
    ensures
        n == newline_count(rope_bytes(*r)),
{
    r.rope.measure::<xi_rope::LinesMetric>()
}

/// `Node::measure` with `Utf16CodeUnitsMetric`: the length in UTF-16 code
/// units.
#[verifier::external_body]
fn rope_utf16_len(r: &RopeText) -> (n: usize)
    ensures
        n == utf16_len(rope_bytes(*r)),
{
    r.rope.measure::<xi_rope::rope::Utf16CodeUnitsMetric>()
}

/// `Rope::offset_of_line`, which panics on a line more than one past the
/// last: the offset at which the line starts.
#[verifier::external_body]
fn rope_offset_of_line(r: &RopeText, line: usize) -> (offset: usize)
    requires
        line <= newline_count(rope_bytes(*r)) + 1,
    ensures
        offset == line_offset(rope_bytes(*r), line as nat),
{
    r.rope.offset_of_line(line)
}

/// `Rope::line_of_offset`, which panics on an offset behind the end or inside
/// a character: the number of line feeds before the offset.
#[verifier::external_body]
fn rope_line_of_offset(r: &RopeText, offset: usize) -> (line: usize)
    requires
        valid_utf8(rope_bytes(*r)),
        offset <= rope_bytes(*r).len(),
        is_char_boundary(rope_bytes(*r), offset as int),
    ensures
        line == newline_count(rope_bytes(*r).take(offset as int)),
{
    r.rope.line_of_offset(offset)
}

/// `Node::count_base_units` with `Utf16CodeUnitsMetric`, which is defined up
/// to the rope's length in code units: the byte offset that lies `units`
/// code units into the rope.
#[verifier::external_body]
fn rope_utf16_to_offset(r: &RopeText, units: usize) -> (offset: usize)
    requires
        units <= utf16_len(rope_bytes(*r)),
    ensures
        offset == utf16_offset(rope_bytes(*r), units as nat),
{
    r.rope.count_base_units::<xi_rope::rope::Utf16CodeUnitsMetric>(units)
}

/// `Rope::slice` from an offset to the end, which panics on an offset behind
/// the end or inside a character: a rope of the bytes from `start` on.
#[verifier::external_body]
fn rope_slice_from(r: &RopeText, start: usize) -> (tail: RopeText)
    requires
        valid_utf8(rope_bytes(*r)),
        start <= rope_bytes(*r).len(),
        is_char_boundary(rope_bytes(*r), start as int),
    ensures
        rope_bytes(tail) == rope_bytes(*r).skip(start as int),
{
    RopeText { rope: r.rope.slice(start..) }
}

/// `Rope::slice_to_cow`, which panics on a range that is inverted, runs
/// behind the end or cuts a character: the text of the bytes in
/// `[start, end)`.
#[verifier::external_body]
fn rope_slice_to_string(r: &RopeText, start: usize, end: usize) -> (text: String)
    requires
        valid_utf8(rope_bytes(*r)),
        start <= end <= rope_bytes(*r).len(),
        is_char_boundary(rope_bytes(*r), start as int),
        is_char_boundary(rope_bytes(*r), end as int),
    ensures
        encode_utf8(text@) == rope_bytes(*r).subrange(start as int, end as int),
{
    r.rope.slice_to_cow(start..end).into_owned()
}

/// `Rope::is_codepoint_boundary`, for an offset up to the length: whether a
/// character starts or the text ends at the offset.
#[verifier::external_body]
fn rope_is_boundary(r: &RopeText, offset: usize) -> (b: bool)
    requires
        valid_utf8(rope_bytes(*r)),
        offset <= rope_bytes(*r).len(),
    ensures
        b == is_char_boundary(rope_bytes(*r), offset as int),
{
    r.rope.is_codepoint_boundary(offset)
}

/// `Node::edit`, which panics on a range that is inverted, runs behind the
/// end or cuts a character: the bytes in `[start, end)` give way to those of
/// `text`.
#[verifier::external_body]
fn rope_edit(r: &mut RopeText, start: usize, end: usize, text: &str)
    requires
        valid_utf8(rope_bytes(*old(r))),
        start <= end <= rope_bytes(*old(r)).len(),
        is_char_boundary(rope_bytes(*old(r)), start as int),
        is_char_boundary(rope_bytes(*old(r)), end as int),
    ensures
        rope_bytes(*final(r)) == splice(
            rope_bytes(*old(r)),
            start as int,
            end as int,
            text.spec_bytes(),
        ),
{
    r.rope.edit(xi_rope::Interval { start, end }, text)
}

/// `Cursor::new` and `Cursor::get_leaf`, for an offset up to the length: the
/// stored piece of text that holds the offset, and the offset within it. How
/// the rope divides its text into pieces is its own affair, so only what
/// holds of every division is stated.
#[verifier::external_body]
fn rope_leaf_at<'a>(r: &'a RopeText, offset: usize) -> (found: Option<Piece<'a>>)
    requires
        offset <= rope_bytes(*r).len(),
    ensures
        found is Some,
        found.unwrap().lies_at(rope_bytes(*r), offset as int),
{
    xi_rope::Cursor::new(&r.rope, offset).get_leaf().map(|(leaf, at)| Piece { text: leaf.as_str(), at })
}

/// The search for a line's start stays between where it begins and the end.
pub proof fn lemma_line_search_bounds(bytes: Seq<u8>, line: nat, from: int)
    requires
        0 <= from <= bytes.len(),
    ensures
        from <= line_search(bytes, line, from) <= bytes.len(),
    decreases bytes.len() - from,
{
    if from < bytes.len() && newline_count(bytes.take(from)) < line {
        lemma_line_search_bounds(bytes, line, from + 1);
    }
}

/// The search for a line's start stops at or before any offset that has
/// enough line feeds before it.
pub proof fn lemma_line_search_least(bytes: Seq<u8>, line: nat, from: int, k: int)
    requires
        0 <= from <= k <= bytes.len(),
        newline_count(bytes.take(k)) >= line,
    ensures
        line_search(bytes, line, from) <= k,
    decreases k - from,
{
    if from < k && newline_count(bytes.take(from)) < line {
        lemma_line_search_least(bytes, line, from + 1, k);
    }
}

/// A longer prefix holds at least as many line feeds.
pub proof fn lemma_newline_count_monotonic(bytes: Seq<u8>, i: int, j: int)
    requires
        0 <= i <= j <= bytes.len(),
    ensures
        newline_count(bytes.take(i)) <= newline_count(bytes.take(j)),
    decreases j - i,
{
    if i < j {
        assert(bytes.take(j).drop_last() =~= bytes.take(j - 1));
        lemma_newline_count_monotonic(bytes, i, j - 1);
    }
}

/// Where the search for a line's start stops short of the end, at an offset
/// other than the one it began at, a line feed stands just before.
proof fn lemma_line_search_after_newline(bytes: Seq<u8>, line: nat, from: int)
    requires
        0 <= from <= bytes.len(),
        from > 0 ==> newline_count(bytes.take(from - 1)) < line,
    ensures
        ({
            let k = line_search(bytes, line, from);
            0 < k && newline_count(bytes.take(k)) >= line ==> bytes[k - 1] == 0x0a
        }),
    decreases bytes.len() - from,
{
    if from >= bytes.len() || newline_count(bytes.take(from)) >= line {
        let k = line_search(bytes, line, from);
        if 0 < k && newline_count(bytes.take(k)) >= line {
            assert(bytes.take(k).drop_last() =~= bytes.take(k - 1));
        }
    } else {
        lemma_line_search_after_newline(bytes, line, from + 1);
    }
}

/// In well-formed UTF-8 an ASCII byte is a character of its own: a boundary
/// lies before it and behind it.
proof fn lemma_boundary_around_ascii(bytes: Seq<u8>, i: int)
    requires
        valid_utf8(bytes),
        0 <= i < bytes.len(),
        bytes[i] < 0x80,
    ensures
        is_char_boundary(bytes, i),
        is_char_boundary(bytes, i + 1),
    decreases bytes.len(),
{
    reveal_with_fuel(is_char_boundary, 3);
    reveal_with_fuel(valid_utf8, 2);
    if i < length_of_first_scalar(bytes) {
        assert(i == 0);
        assert(length_of_first_scalar(bytes) == 1);
        is_char_boundary_start_end_of_seq(pop_first_scalar(bytes));
    } else {
        let rest = pop_first_scalar(bytes);
        lemma_boundary_around_ascii(rest, i - length_of_first_scalar(bytes));
    }
}

/// In well-formed UTF-8 every line starts on a character boundary.
pub proof fn lemma_line_offset_is_boundary(bytes: Seq<u8>, line: nat)
    requires
        valid_utf8(bytes),
    ensures
        0 <= line_offset(bytes, line) <= bytes.len(),
        is_char_boundary(bytes, line_offset(bytes, line)),
{
    let k = line_offset(bytes, line);
    lemma_line_search_bounds(bytes, line, 0);
    lemma_line_search_after_newline(bytes, line, 0);
    is_char_boundary_start_end_of_seq(bytes);
    if 0 < k < bytes.len() {
        lemma_line_search_stops(bytes, line, 0);
        lemma_boundary_around_ascii(bytes, k - 1);
    }
}

/// Where the search for a line's start stops short of the end, enough line
/// feeds stand before the offset it found.
proof fn lemma_line_search_stops(bytes: Seq<u8>, line: nat, from: int)
    requires
        0 <= from <= bytes.len(),
    ensures
        line_search(bytes, line, from) < bytes.len() ==> newline_count(
            bytes.take(line_search(bytes, line, from)),
        ) >= line,
    decreases bytes.len() - from,
{
    if from < bytes.len() && newline_count(bytes.take(from)) < line {
        lemma_line_search_stops(bytes, line, from + 1);
    }
}

/// The search for an offset in UTF-16 code units stays between where it
/// begins and the end, and stops on a character boundary.
proof fn lemma_utf16_search_bounds(bytes: Seq<u8>, units: nat, from: int)
    requires
        valid_utf8(bytes),
        0 <= from <= bytes.len(),
    ensures
        from <= utf16_search(bytes, units, from) <= bytes.len(),
        is_char_boundary(bytes, utf16_search(bytes, units, from)),
    decreases bytes.len() - from,
{
    is_char_boundary_start_end_of_seq(bytes);
    if from < bytes.len() && !(is_char_boundary(bytes, from) && utf16_len(bytes.take(from))
        >= units) {
        lemma_utf16_search_bounds(bytes, units, from + 1);
    }
}

/// A boundary of a tail of well-formed UTF-8, taken from a boundary on, is a
/// boundary of the whole.
proof fn lemma_boundary_in_tail(bytes: Seq<u8>, from: int, within: int)
    requires
        valid_utf8(bytes),
        0 <= from <= bytes.len(),
        is_char_boundary(bytes, from),
        0 <= within <= bytes.len() - from,
        is_char_boundary(bytes.skip(from), within),
    ensures
        is_char_boundary(bytes, from + within),
{
    let tail = bytes.skip(from);
    assert(tail =~= bytes.subrange(from, bytes.len() as int));
    valid_utf8_split(bytes, from);
    is_char_boundary_start_end_of_seq(bytes);
    if from + within < bytes.len() {
        is_char_boundary_iff_not_is_continuation_byte(tail, within);
        is_char_boundary_iff_not_is_continuation_byte(bytes, from + within);
    }
}

/// Replacing a range of whole characters of well-formed UTF-8 by well-formed
/// UTF-8 leaves well-formed UTF-8.
pub proof fn lemma_splice_valid(bytes: Seq<u8>, start: int, end: int, new: Seq<u8>)
    requires
        valid_utf8(bytes),
        valid_utf8(new),
        0 <= start <= end <= bytes.len(),
        is_char_boundary(bytes, start),
        is_char_boundary(bytes, end),
    ensures
        valid_utf8(splice(bytes, start, end, new)),
{
    valid_utf8_split(bytes, start);
    valid_utf8_split(bytes, end);
    valid_utf8_concat(bytes.subrange(0, start), new);
    valid_utf8_concat(bytes.subrange(0, start) + new, bytes.subrange(end, bytes.len() as int));
}

/// The UTF-16 code units of two texts in a row add up.
pub proof fn lemma_utf16_len_concat(a: Seq<u8>, b: Seq<u8>)
    ensures
        utf16_len(a + b) == utf16_len(a) + utf16_len(b),
    decreases b.len(),
{
    if b.len() == 0 {
        assert(a + b =~= a);
    } else {
        lemma_utf16_len_concat(a, b.drop_last());
        assert((a + b).drop_last() =~= a + b.drop_last());
    }
}

/// Past a character boundary of well-formed UTF-8 the count of UTF-16 code
/// units grows: every character takes at least one.
pub proof fn lemma_utf16_len_grows(bytes: Seq<u8>, at: int, later: int)
    requires
        valid_utf8(bytes),
        0 <= at < later <= bytes.len(),
        is_char_boundary(bytes, at),
    ensures
        utf16_len(bytes.take(at)) < utf16_len(bytes.take(later)),
{
    is_char_boundary_iff_not_is_continuation_byte(bytes, at);
    assert(bytes.take(at + 1).drop_last() =~= bytes.take(at));
    assert(bytes.take(later) =~= bytes.take(at + 1) + bytes.subrange(at + 1, later));
    lemma_utf16_len_concat(bytes.take(at + 1), bytes.subrange(at + 1, later));
}

/// The search for as many UTF-16 code units as stand before a character
/// boundary stops at that boundary.
pub proof fn lemma_utf16_search_finds(bytes: Seq<u8>, boundary: int, from: int)
    requires
        valid_utf8(bytes),
        0 <= from <= boundary <= bytes.len(),
        is_char_boundary(bytes, boundary),
    ensures
        utf16_search(bytes, utf16_len(bytes.take(boundary)), from) == boundary,
    decreases boundary - from,
{
    if from < boundary {
        if is_char_boundary(bytes, from) {
            lemma_utf16_len_grows(bytes, from, boundary);
        }
        lemma_utf16_search_finds(bytes, boundary, from + 1);
    }
}

/// A boundary of well-formed UTF-8 behind another boundary is a boundary of
/// the tail that begins at the first.
pub proof fn lemma_boundary_of_tail(bytes: Seq<u8>, from: int, at: int)
    requires
        valid_utf8(bytes),
        0 <= from <= at <= bytes.len(),
        is_char_boundary(bytes, from),
        is_char_boundary(bytes, at),
    ensures
        valid_utf8(bytes.skip(from)),
        is_char_boundary(bytes.skip(from), at - from),
{
    let tail = bytes.skip(from);
    assert(tail =~= bytes.subrange(from, bytes.len() as int));
    valid_utf8_split(bytes, from);
    is_char_boundary_start_end_of_seq(tail);
    if at < bytes.len() {
        is_char_boundary_iff_not_is_continuation_byte(tail, at - from);
        is_char_boundary_iff_not_is_continuation_byte(bytes, at);
    }
}

/// The text of a document.
pub struct TextBuffer {
    rope: RopeText,
}

impl View for TextBuffer {
    type V = Seq<u8>;

    /// The UTF-8 bytes of the text.
    closed spec fn view(&self) -> Seq<u8> {
        rope_bytes(self.rope)
    }
}

impl TextBuffer {
    /// A buffer always holds well-formed UTF-8.
    #[verifier::type_invariant]
    pub closed spec fn well_formed(&self) -> bool {
        valid_utf8(rope_bytes(self.rope))
    }

    /// A buffer that holds `text`.
    pub fn from_text(text: &str) -> (buffer: TextBuffer)
        ensures
            buffer@ == text.spec_bytes(),
    {
        broadcast use encode_utf8_valid_utf8;

        TextBuffer { rope: rope_from_str(text) }
    }

    /// The length of the text in bytes. A buffer always holds well-formed
    /// UTF-8, which callers learn here.
    pub fn len(&self) -> (n: usize)
        ensures
            n == self@.len(),
            valid_utf8(self@),
    {
        proof {
            use_type_invariant(self);
        }
        rope_len(&self.rope)
    }

    /// A copy of the buffer.
    pub fn duplicate(&self) -> (copy: TextBuffer)
        ensures
            copy@ == self@,
    {
        proof {
            use_type_invariant(self);
        }
        TextBuffer { rope: rope_clone(&self.rope) }
    }

    /// Whether `offset` lies in the text, its end included, and on a
    /// character boundary.
    pub fn is_boundary(&self, offset: usize) -> (b: bool)
        ensures
            b == (offset <= self@.len() && is_char_boundary(self@, offset as int)),
    {
        proof {
            use_type_invariant(self);
        }
        offset <= rope_len(&self.rope) && rope_is_boundary(&self.rope, offset)
    }

    /// Whether `[start, end)` is a range of whole characters of the text.
    pub open spec fn holds_range(&self, start: int, end: int) -> bool {
        &&& 0 <= start <= end <= self@.len()
        &&& is_char_boundary(self@, start)
        &&& is_char_boundary(self@, end)
    }

    /// The text in `[start, end)`, where that is a range of whole characters.
    pub fn slice(&self, start: usize, end: usize) -> (text: Option<String>)
        ensures
            text is Some <==> self.holds_range(start as int, end as int),
            text is Some ==> encode_utf8(text.unwrap()@) == self@.subrange(
                start as int,
                end as int,
            ),
    {
        proof {
            use_type_invariant(self);
        }
        if start <= end && self.is_boundary(start) && self.is_boundary(end) {
            Some(rope_slice_to_string(&self.rope, start, end))
        } else {
            None
        }
    }

    /// The whole text.
    pub fn text(&self) -> (text: String)
        ensures
            encode_utf8(text@) == self@,
    {
        proof {
            use_type_invariant(self);
            is_char_boundary_start_end_of_seq(self@);
        }
        let n = rope_len(&self.rope);
        let text = rope_slice_to_string(&self.rope, 0, n);
        assert(self@.subrange(0, n as int) =~= self@);
        text
    }

    /// The number of line feeds in the text.
    pub fn newlines(&self) -> (n: usize)
        ensures
            n == newline_count(self@),
    {
        rope_newlines(&self.rope)
    }

    /// The offset at which line `line` starts. With `n` line feeds in the
    /// text there are the lines `0` to `n`, and line `n + 1` stands for the
    /// end of the text; a line behind that has no offset.
    pub fn offset_of_line(&self, line: usize) -> (offset: Option<usize>)
        ensures
            offset is Some <==> line <= newline_count(self@) + 1,
            offset is Some ==> offset.unwrap() == line_offset(self@, line as nat),
            offset is Some ==> self.holds_range(offset.unwrap() as int, self@.len() as int),
    {
        proof {
            use_type_invariant(self);
            lemma_line_offset_is_boundary(self@, line as nat);
            is_char_boundary_start_end_of_seq(self@);
        }
        let n = rope_newlines(&self.rope);
        if line <= n || line - 1 == n {
            Some(rope_offset_of_line(&self.rope, line))
        } else {
            None
        }
    }

    /// The line that `offset` lies in: the number of line feeds before it.
    /// An offset behind the end or inside a character lies in no line.
    pub fn line_of_offset(&self, offset: usize) -> (line: Option<usize>)
        ensures
            line is Some <==> offset <= self@.len() && is_char_boundary(self@, offset as int),
            line is Some ==> line.unwrap() == newline_count(self@.take(offset as int)),
    {
        proof {
            use_type_invariant(self);
        }
        if self.is_boundary(offset) {
            Some(rope_line_of_offset(&self.rope, offset))
        } else {
            None
        }
    }

    /// The offset that lies `units` UTF-16 code units behind the character
    /// boundary `from`. There is none where `from` is no boundary of the text
    /// or fewer than `units` code units follow it.
    pub fn offset_after_utf16(&self, from: usize, units: usize) -> (offset: Option<usize>)
        ensures
            offset is Some <==> {
                &&& from <= self@.len()
                &&& is_char_boundary(self@, from as int)
                &&& units <= utf16_len(self@.skip(from as int))
            },
            offset is Some ==> offset.unwrap() == from + utf16_offset(
                self@.skip(from as int),
                units as nat,
            ),
            offset is Some ==> self.holds_range(from as int, offset.unwrap() as int),
    {
        proof {
            use_type_invariant(self);
        }
        if !self.is_boundary(from) {
            return None;
        }
        let tail = rope_slice_from(&self.rope, from);
        if units > rope_utf16_len(&tail) {
            return None;
        }
        let within = rope_utf16_to_offset(&tail, units);
        let total = rope_len(&self.rope);
        proof {
            let rest = self@.skip(from as int);
            assert(rest =~= self@.subrange(from as int, self@.len() as int));
            valid_utf8_split(self@, from as int);
            lemma_utf16_search_bounds(rest, units as nat, 0);
            lemma_boundary_in_tail(self@, from as int, within as int);
        }
        Some(from + within)
    }

    /// The length in UTF-16 code units of the text in `[start, end)`, where
    /// that is a range of whole characters.
    pub fn utf16_between(&self, start: usize, end: usize) -> (units: Option<usize>)
        ensures
            units is Some <==> self.holds_range(start as int, end as int),
            units is Some ==> units.unwrap() == utf16_len(
                self@.subrange(start as int, end as int),
            ),
            valid_utf8(self@),
    {
        proof {
            use_type_invariant(self);
        }
        if !(start <= end && self.is_boundary(start) && self.is_boundary(end)) {
            return None;
        }
        let from_start = rope_utf16_len(&rope_slice_from(&self.rope, start));
        let from_end = rope_utf16_len(&rope_slice_from(&self.rope, end));
        proof {
            let between = self@.subrange(start as int, end as int);
            assert(self@.skip(start as int) =~= between + self@.skip(end as int));
            lemma_utf16_len_concat(between, self@.skip(end as int));
        }
        Some(from_start - from_end)
    }

    /// The buffer with the bytes in `[start, end)` replaced by `text`, where
    /// that is a range of whole characters.
    pub fn replaced(&self, start: usize, end: usize, text: &str) -> (out: Option<TextBuffer>)
        ensures
            out is Some <==> self.holds_range(start as int, end as int),
            out is Some ==> out.unwrap()@ == splice(
                self@,
                start as int,
                end as int,
                text.spec_bytes(),
            ),
            out is Some ==> out.unwrap()@.len() <= usize::MAX,
            valid_utf8(self@),
    {
        proof {
            use_type_invariant(self);
        }
        if start <= end && self.is_boundary(start) && self.is_boundary(end) {
            let mut rope = rope_clone(&self.rope);
            rope_edit(&mut rope, start, end, text);
            let total = rope_len(&rope);
            proof {
                encode_utf8_valid_utf8(text@);
                lemma_splice_valid(self@, start as int, end as int, text.spec_bytes());
            }
            Some(TextBuffer { rope })
        } else {
            None
        }
    }

    /// A stretch of the text that starts at `offset`, as the rope has it
    /// stored: not empty unless the offset is the end of the text. Behind the
    /// end and inside a character there is nothing to read.
    pub fn chunk_at<'a>(&'a self, offset: usize) -> (chunk: &'a str)
        ensures
            chunk.spec_bytes().len() > 0 <==> offset < self@.len() && is_char_boundary(
                self@,
                offset as int,
            ),
            offset + chunk.spec_bytes().len() <= self@.len() || chunk.spec_bytes().len() == 0,
            chunk.spec_bytes().len() > 0 ==> chunk.spec_bytes() == self@.subrange(
                offset as int,
                offset + chunk.spec_bytes().len(),
            ),
    {
        proof {
            use_type_invariant(self);
        }
        if !self.is_boundary(offset) {
            proof {
                reveal_strlit("");
            }
            return "";
        }
        let found = rope_leaf_at(&self.rope, offset);
        match found {
            Some(piece) => {
                proof {
                    let leaf = piece.text.spec_bytes();
                    encode_utf8_valid_utf8(piece.text@);
                    is_char_boundary_start_end_of_seq(leaf);
                    if piece.at < leaf.len() {
                        is_char_boundary_iff_not_is_continuation_byte(leaf, piece.at as int);
                        is_char_boundary_iff_not_is_continuation_byte(self@, offset as int);
                    }
                }
                let (_, rest) = piece.text.split_at(piece.at);
                rest
            },
            None => {
                proof {
                    reveal_strlit("");
                }
                ""
            },
        }
    }
}

} // verus!
