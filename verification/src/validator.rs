//! Turning suggestions made against a clean text into edits of the document.

use crate::buffer::splice;
use crate::cache::{asked, key_index, said, Entry, SuggestionCache};
use crate::engine::{engine_suggest, rule_at, rule_disable, rule_list, rules_len, RuleInfo, RuleView};
use crate::node_util::{clean_total, TextChunk, TextRange, TextRangeView};
use vstd::prelude::*;
use vstd::string::StringSliceAdditionalSpecFns;
use vstd::utf8::*;

verus! {

/// A suggestion of the grammar engine: the bytes `[start, end)` of a clean
/// text, and the texts that could stand in their place.
#[derive(Clone)]
pub struct Suggestion {
    pub source: String,
    pub message: String,
    pub start: usize,
    pub end: usize,
    pub replacements: Vec<String>,
}

/// A `Suggestion` as a plain value.
pub struct SuggestionView {
    pub source: Seq<char>,
    pub message: Seq<char>,
    pub start: usize,
    pub end: usize,
    pub replacements: Seq<Seq<char>>,
}

impl View for Suggestion {
    type V = SuggestionView;

    open spec fn view(&self) -> SuggestionView {
        SuggestionView {
            source: self.source@,
            message: self.message@,
            start: self.start,
            end: self.end,
            replacements: Seq::new(self.replacements.len() as nat, |i: int| self.replacements[i]@),
        }
    }
}

/// The suggestions of a list as plain values.
pub open spec fn suggestion_views(list: Seq<Suggestion>) -> Seq<SuggestionView> {
    Seq::new(list.len(), |i: int| list[i]@)
}

/// An edit of the document: the bytes `[start, end)` give way to
/// `replacement`.
pub struct Replacement {
    pub replacement: String,
    pub start: usize,
    pub end: usize,
}

/// A suggestion mapped to the document: the bytes `[start, end)` that it is
/// about, and the edits that carry it out.
pub struct TextSuggestion {
    pub source: String,
    pub message: String,
    pub replacements: Vec<Replacement>,
    pub start: usize,
    pub end: usize,
}

/// Where the part begins that a chunk shares with a span of the clean text:
/// at the start of the chunk, `low`, or at the start of the span, whichever
/// comes later.
pub open spec fn span_from(low: int, start: int) -> int {
    if low >= start {
        low
    } else {
        start
    }
}

/// Where the part ends that a chunk shares with a span of the clean text:
/// at the end of the chunk, which begins at `low`, or at the end of the span,
/// whichever comes first.
pub open spec fn span_to(chunk: TextChunk, low: int, end: int) -> int {
    if low + chunk.clean_length <= end {
        low + chunk.clean_length
    } else {
        end
    }
}

/// A chunk whose range in the document is as long as its clean text, so that
/// each byte of the one stands for a byte of the other. A chunk of plain text
/// is of this kind, and its range can be divided as its clean text is. A
/// chunk that stands for a placeholder or for a collapsed line break is not,
/// as a rule, and its range cannot be divided; but a chunk tells nothing of
/// its kind beyond its lengths, so a placeholder for exactly as many bytes as
/// it is long counts as byte for byte too.
pub open spec fn is_byte_for_byte(chunk: TextChunk) -> bool {
    chunk.start <= chunk.end && chunk.end - chunk.start == chunk.clean_length
}

/// Whether the chunk, which begins at `low` in the clean text, shares at
/// least one position with the span `[start, end)`.
pub open spec fn meets_span(chunk: TextChunk, low: int, start: int, end: int) -> bool {
    span_from(low, start) < span_to(chunk, low, end)
}

/// The chunk cut down to what it shares with the span `[start, end)`. The
/// range of a chunk that is byte for byte shrinks with its clean text; the
/// range of any other chunk stays whole.
pub open spec fn trimmed(chunk: TextChunk, low: int, start: int, end: int) -> TextChunk {
    let from = span_from(low, start);
    let to = span_to(chunk, low, end);
    if is_byte_for_byte(chunk) {
        TextChunk {
            clean_length: (to - from) as usize,
            start: (chunk.start + (from - low)) as usize,
            end: (chunk.start + (to - low)) as usize,
        }
    } else {
        TextChunk { clean_length: (to - from) as usize, start: chunk.start, end: chunk.end }
    }
}

/// The chunks among the first `count` of `chunks` that meet the span
/// `[start, end)` of the clean text, each cut down to what it shares with
/// the span.
pub open spec fn sliced_upto(chunks: Seq<TextChunk>, start: int, end: int, count: int) -> Seq<
    TextChunk,
>
    decreases count,
{
    if 0 < count <= chunks.len() {
        let before = sliced_upto(chunks, start, end, count - 1);
        let low = clean_total(chunks.take(count - 1)) as int;
        if meets_span(chunks[count - 1], low, start, end) {
            before.push(trimmed(chunks[count - 1], low, start, end))
        } else {
            before
        }
    } else {
        Seq::empty()
    }
}

/// The chunks of a clean text that meet the span `[start, end)`, each cut
/// down to what it shares with the span.
pub open spec fn sliced(chunks: Seq<TextChunk>, start: int, end: int) -> Seq<TextChunk> {
    sliced_upto(chunks, start, end, chunks.len() as int)
}

/// Chunks that begin at or behind the end of the span do not meet it.
proof fn lemma_sliced_settled(
    chunks: Seq<TextChunk>,
    start: int,
    end: int,
    done: int,
    count: int,
)
    requires
        0 <= done <= count <= chunks.len(),
        clean_total(chunks.take(done)) >= end,
    ensures
        sliced_upto(chunks, start, end, count) == sliced_upto(chunks, start, end, done),
    decreases count - done,
{
    if done < count {
        lemma_sliced_settled(chunks, start, end, done, count - 1);
        lemma_clean_total_grows(chunks, done, count - 1);
    }
}

/// A longer run of chunks has at least the clean length of a shorter one.
proof fn lemma_clean_total_grows(chunks: Seq<TextChunk>, fewer: int, count: int)
    requires
        0 <= fewer <= count <= chunks.len(),
    ensures
        clean_total(chunks.take(fewer)) <= clean_total(chunks.take(count)),
    decreases count - fewer,
{
    if fewer < count {
        lemma_clean_total_grows(chunks, fewer, count - 1);
        assert(chunks.take(count).drop_last() =~= chunks.take(count - 1));
    }
}

/// The chunks of `text` that the span of `suggestion` meets, in order, each
/// cut down to what it shares with the span.
pub fn slice_textchunks_for_suggestion(text: &TextRange, suggestion: &Suggestion) -> (chunks: Vec<
    TextChunk,
>)
    ensures
        chunks@ == sliced(text.chunks@, suggestion.start as int, suggestion.end as int),
{
    let start = suggestion.start;
    let end = suggestion.end;
    let ghost all = text.chunks@;
    let mut chunks: Vec<TextChunk> = Vec::new();
    let mut low: usize = 0;
    let mut i: usize = 0;
    while i < text.chunks.len()
        invariant_except_break
            low == clean_total(all.take(i as int)),
            chunks@ == sliced_upto(all, start as int, end as int, i as int),
        invariant
            all == text.chunks@,
            i <= all.len(),
        ensures
            chunks@ == sliced(all, start as int, end as int),
        decreases all.len() - i,
    {
        if low >= end {
            proof {
                lemma_sliced_settled(all, start as int, end as int, i as int, all.len() as int);
            }
            break ;
        }
        let chunk = &text.chunks[i];
        let from = if low >= start {
            low
        } else {
            start
        };
        let high = low.checked_add(chunk.clean_length);
        let to = match high {
            Some(high) => if high <= end {
                high
            } else {
                end
            },
            None => end,
        };
        if from < to {
            let plain = chunk.start <= chunk.end && chunk.end - chunk.start == chunk.clean_length;
            if plain {
                chunks.push(
                    TextChunk {
                        clean_length: to - from,
                        start: chunk.start + (from - low),
                        end: chunk.start + (to - low),
                    },
                );
            } else {
                chunks.push(
                    TextChunk { clean_length: to - from, start: chunk.start, end: chunk.end },
                );
            }
        }
        proof {
            assert(all.take(i + 1).drop_last() =~= all.take(i as int));
        }
        match high {
            Some(high) => {
                low = high;
                i = i + 1;
            },
            None => {
                proof {
                    lemma_sliced_settled(
                        all,
                        start as int,
                        end as int,
                        i + 1,
                        all.len() as int,
                    );
                }
                break ;
            },
        }
    }
    chunks
}

/// One step of a character diff between an old text and a new one.
#[derive(Clone, Copy, Debug)]
pub enum DiffOp {
    /// A character that both texts have.
    Keep(char),
    /// A character that only the old text has.
    Remove(char),
    /// A character that only the new text has.
    Add(char),
}

/// The old text of a diff: the characters kept and removed, in order.
pub open spec fn old_text(ops: Seq<DiffOp>) -> Seq<char>
    decreases ops.len(),
{
    if ops.len() == 0 {
        Seq::empty()
    } else {
        match ops.last() {
            DiffOp::Keep(c) => old_text(ops.drop_last()).push(c),
            DiffOp::Remove(c) => old_text(ops.drop_last()).push(c),
            DiffOp::Add(_) => old_text(ops.drop_last()),
        }
    }
}

/// The new text of a diff: the characters kept and added, in order.
pub open spec fn new_text(ops: Seq<DiffOp>) -> Seq<char>
    decreases ops.len(),
{
    if ops.len() == 0 {
        Seq::empty()
    } else {
        match ops.last() {
            DiffOp::Keep(c) => new_text(ops.drop_last()).push(c),
            DiffOp::Remove(_) => new_text(ops.drop_last()),
            DiffOp::Add(c) => new_text(ops.drop_last()).push(c),
        }
    }
}

/// Whether a diff changes anything: it removes or adds a character.
pub open spec fn changes(ops: Seq<DiffOp>) -> bool
    decreases ops.len(),
{
    ops.len() > 0 && (!(ops.last() is Keep) || changes(ops.drop_last()))
}

/// The diff that `diff::chars` computes between two texts.
pub uninterp spec fn char_diff(left: Seq<char>, right: Seq<char>) -> Seq<DiffOp>;

/// `diff::chars`: a diff whose old text is `left` and whose new text is
/// `right`, and which changes nothing where the two are the same. Which of
/// the possible diffs it is otherwise, is left to the crate.
#[verifier::external_body]
fn diff_chars(left: &str, right: &str) -> (ops: Vec<DiffOp>)
    ensures
        ops@ == char_diff(left@, right@),
        old_text(ops@) == left@,
        new_text(ops@) == right@,
        left@ == right@ ==> !changes(ops@),
{
    diff::chars(left, right).into_iter().map(
        |step| match step {
            diff::Result::Left(c) => DiffOp::Remove(c),
            diff::Result::Both(c, _) => DiffOp::Keep(c),
            diff::Result::Right(c) => DiffOp::Add(c),
        },
    ).collect()
}

/// `Iterator::collect` into a `String`: the characters in order.
#[verifier::external_body]
fn string_from_chars(chars: &Vec<char>) -> (text: String)
    ensures
        text@ == chars@,
{
    chars.iter().collect()
}

/// How many operations of `ops` are left once a chunk of `count` clean
/// characters has taken its share from the tail. The chunk takes operations
/// from the tail on, as long as the next one adds a character or the chunk
/// has not yet accounted for `count` characters kept or removed.
pub open spec fn tail_cut(ops: Seq<DiffOp>, count: nat) -> nat
    decreases ops.len(),
{
    if ops.len() == 0 {
        0
    } else if ops.last() is Add {
        tail_cut(ops.drop_last(), count)
    } else if count == 0 {
        ops.len()
    } else {
        tail_cut(ops.drop_last(), (count - 1) as nat)
    }
}

/// The new text of a single operation.
proof fn lemma_new_text_single(op: DiffOp)
    ensures
        new_text(seq![op]) == match op {
            DiffOp::Keep(c) => seq![c],
            DiffOp::Remove(_) => Seq::<char>::empty(),
            DiffOp::Add(c) => seq![c],
        },
{
    reveal_with_fuel(new_text, 2);
    assert(seq![op].drop_last() =~= Seq::<DiffOp>::empty());
    match op {
        DiffOp::Keep(c) => assert(Seq::<char>::empty().push(c) =~= seq![c]),
        DiffOp::Remove(_) => {},
        DiffOp::Add(c) => assert(Seq::<char>::empty().push(c) =~= seq![c]),
    }
}

/// The new text of two diffs in a row is the new text of the first followed
/// by that of the second.
proof fn lemma_new_text_concat(a: Seq<DiffOp>, b: Seq<DiffOp>)
    ensures
        new_text(a + b) == new_text(a) + new_text(b),
    decreases b.len(),
{
    if b.len() == 0 {
        assert(a + b =~= a);
        assert(new_text(a) + new_text(b) =~= new_text(a));
    } else {
        lemma_new_text_concat(a, b.drop_last());
        assert((a + b).drop_last() =~= a + b.drop_last());
        assert(new_text(a + b) =~= new_text(a) + new_text(b));
    }
}

/// Two diffs in a row change something where one of them does.
proof fn lemma_changes_concat(a: Seq<DiffOp>, b: Seq<DiffOp>)
    ensures
        changes(a + b) == (changes(a) || changes(b)),
    decreases b.len(),
{
    if b.len() == 0 {
        assert(a + b =~= a);
    } else {
        lemma_changes_concat(a, b.drop_last());
        assert((a + b).drop_last() =~= a + b.drop_last());
    }
}

/// Whether a single operation changes something.
proof fn lemma_changes_single(op: DiffOp)
    ensures
        changes(seq![op]) == !(op is Keep),
{
    reveal_with_fuel(changes, 2);
    assert(seq![op].drop_last() =~= Seq::<DiffOp>::empty());
}

/// What the characters of a chunk become by the chunk's share of a diff: the
/// characters kept and added, in order, where the share changes anything,
/// and the empty text where it changes nothing.
pub open spec fn replacement_text(share: Seq<DiffOp>) -> Seq<char> {
    if changes(share) {
        new_text(share)
    } else {
        Seq::empty()
    }
}

/// Takes from the tail of `diff` the share of a chunk of `take_last` clean
/// characters, and returns the replacement text of the chunk: what its
/// characters become where the share changes anything, and the empty text
/// where it changes nothing.
pub fn take_diff_last(diff: &mut Vec<DiffOp>, take_last: usize) -> (text: String)
    ensures
        final(diff)@ == old(diff)@.take(tail_cut(old(diff)@, take_last as nat) as int),
        text@ == replacement_text(
            old(diff)@.skip(tail_cut(old(diff)@, take_last as nat) as int),
        ),
{
    let ghost all = diff@;
    let ghost cut = tail_cut(all, take_last as nat);
    let mut reversed: Vec<char> = Vec::new();
    let mut taken: usize = 0;
    let mut changed = false;
    proof {
        assert(all.take(all.len() as int) =~= all);
        assert(all.skip(all.len() as int) =~= Seq::<DiffOp>::empty());
    }
    while diff.len() > 0
        invariant_except_break
            tail_cut(diff@, (take_last - taken) as nat) == cut,
        invariant
            taken <= take_last,
            diff@ == all.take(diff.len() as int),
            diff.len() <= all.len(),
            reversed@.reverse() == new_text(all.skip(diff.len() as int)),
            changed == changes(all.skip(diff.len() as int)),
        ensures
            diff.len() == cut,
        decreases diff.len(),
    {
        let n = diff.len();
        let op = diff[n - 1];
        proof {
            assert(diff@.drop_last() =~= all.take(n - 1));
            assert(all.skip(n - 1) =~= seq![op] + all.skip(n as int));
            lemma_new_text_concat(seq![op], all.skip(n as int));
            lemma_new_text_single(op);
            lemma_changes_concat(seq![op], all.skip(n as int));
            lemma_changes_single(op);
        }
        match op {
            DiffOp::Add(c) => {
                diff.pop();
                reversed.push(c);
                changed = true;
                proof {
                    assert(new_text(seq![op]) =~= seq![c]);
                    assert(reversed@.reverse() =~= seq![c] + reversed@.drop_last().reverse());
                }
            },
            DiffOp::Keep(c) => {
                if taken == take_last {
                    break ;
                }
                diff.pop();
                reversed.push(c);
                taken = taken + 1;
                proof {
                    assert(new_text(seq![op]) =~= seq![c]);
                    assert(reversed@.reverse() =~= seq![c] + reversed@.drop_last().reverse());
                }
            },
            DiffOp::Remove(_) => {
                if taken == take_last {
                    break ;
                }
                diff.pop();
                taken = taken + 1;
                changed = true;
                proof {
                    assert(new_text(seq![op]) =~= Seq::<char>::empty());
                    assert(Seq::<char>::empty() + new_text(all.skip(n as int)) =~= new_text(
                        all.skip(n as int),
                    ));
                }
            },
        }
    }
    let mut chars: Vec<char> = Vec::new();
    let mut i: usize = reversed.len();
    while i > 0
        invariant
            i <= reversed.len(),
            chars@ == reversed@.reverse().take(reversed.len() - i),
        decreases i,
    {
        i = i - 1;
        chars.push(reversed[i]);
        assert(chars@ =~= reversed@.reverse().take(reversed.len() - i));
    }
    assert(chars@ =~= reversed@.reverse());
    if changed {
        string_from_chars(&chars)
    } else {
        String::new()
    }
}

/// A `Replacement` as a plain value.
pub struct ReplacementView {
    pub replacement: Seq<char>,
    pub start: usize,
    pub end: usize,
}

impl View for Replacement {
    type V = ReplacementView;

    open spec fn view(&self) -> ReplacementView {
        ReplacementView { replacement: self.replacement@, start: self.start, end: self.end }
    }
}

/// The replacements of a list as plain values.
pub open spec fn replacement_views(list: Seq<Replacement>) -> Seq<ReplacementView> {
    Seq::new(list.len(), |i: int| list[i]@)
}

/// The edits that carry out a diff over the chunks that its old text came
/// from. The chunks take their shares of the diff from the last chunk to the
/// first. A chunk whose replacement text is empty gives no edit: its share
/// changes nothing, or leaves nothing of it. Any other chunk gives one edit,
/// of the chunk's range to its replacement text. The edits stand in the order
/// of the chunks.
pub open spec fn replacements_of(chunks: Seq<TextChunk>, ops: Seq<DiffOp>) -> Seq<ReplacementView>
    decreases chunks.len(),
{
    if chunks.len() == 0 {
        Seq::empty()
    } else {
        let chunk = chunks.last();
        let cut = tail_cut(ops, chunk.clean_length as nat) as int;
        let text = replacement_text(ops.skip(cut));
        let before = replacements_of(chunks.drop_last(), ops.take(cut));
        if text.len() == 0 {
            before
        } else {
            before.push(ReplacementView { replacement: text, start: chunk.start, end: chunk.end })
        }
    }
}

/// The edits that carry out the diff `diff` over the chunks `chunks` that its
/// old text came from.
pub fn reconcile(chunks: &Vec<TextChunk>, diff: Vec<DiffOp>) -> (replacements: Vec<Replacement>)
    ensures
        replacement_views(replacements@) == replacements_of(chunks@, diff@),
{
    let ghost all = diff@;
    let mut diff = diff;
    let mut replacements: Vec<Replacement> = Vec::new();
    let mut i: usize = chunks.len();
    proof {
        assert(chunks@.take(i as int) =~= chunks@);
        assert(replacements_of(chunks@, all) + replacement_views(replacements@)
            =~= replacements_of(chunks@, all));
    }
    while i > 0
        invariant
            i <= chunks.len(),
            replacements_of(chunks@, all) == replacements_of(chunks@.take(i as int), diff@)
                + replacement_views(replacements@),
        decreases i,
    {
        i = i - 1;
        let chunk = &chunks[i];
        let ghost later = replacement_views(replacements@);
        let text = take_diff_last(&mut diff, chunk.clean_length);
        proof {
            assert(chunks@.take(i + 1).drop_last() =~= chunks@.take(i as int));
            assert(chunks@.take(i + 1).last() == chunks@[i as int]);
        }
        if !text.as_str().is_empty() {
            let ghost view = ReplacementView {
                replacement: text@,
                start: chunk.start,
                end: chunk.end,
            };
            replacements.insert(
                0,
                Replacement { replacement: text, start: chunk.start, end: chunk.end },
            );
            proof {
                assert(replacement_views(replacements@) =~= seq![view] + later);
                assert(replacements_of(chunks@.take(i as int), diff@).push(view) + later
                    =~= replacements_of(chunks@.take(i as int), diff@) + (seq![view] + later));
            }
        }
    }
    proof {
        assert(chunks@.take(0) =~= Seq::<TextChunk>::empty());
        assert(Seq::<ReplacementView>::empty() + replacement_views(replacements@)
            =~= replacement_views(replacements@));
    }
    replacements
}

/// Whether `[start, end)` is a range of whole characters of the bytes of
/// `clean`.
pub open spec fn span_in_text(clean: Seq<char>, start: int, end: int) -> bool {
    &&& 0 <= start <= end <= encode_utf8(clean).len()
    &&& is_char_boundary(encode_utf8(clean), start)
    &&& is_char_boundary(encode_utf8(clean), end)
}

/// The text that the bytes `[start, end)` of `clean` spell.
pub open spec fn span_text(clean: Seq<char>, start: int, end: int) -> Seq<char> {
    decode_utf8(encode_utf8(clean).subrange(start, end))
}

/// Whether a suggestion can be mapped to the document: its span meets a
/// chunk, is a range of whole characters of the clean text, and comes with a
/// replacement.
pub open spec fn can_map(text: TextRangeView, suggestion: SuggestionView) -> bool {
    &&& sliced(text.chunks, suggestion.start as int, suggestion.end as int).len() > 0
    &&& span_in_text(text.clean_text, suggestion.start as int, suggestion.end as int)
    &&& suggestion.replacements.len() > 0
}

/// A boundary of well-formed UTF-8 is a boundary of each prefix that reaches
/// up to another boundary behind it.
proof fn lemma_boundary_in_prefix(bytes: Seq<u8>, at: int, end: int)
    requires
        valid_utf8(bytes),
        0 <= at <= end <= bytes.len(),
        is_char_boundary(bytes, at),
        is_char_boundary(bytes, end),
    ensures
        valid_utf8(bytes.subrange(0, end)),
        is_char_boundary(bytes.subrange(0, end), at),
{
    let head = bytes.subrange(0, end);
    valid_utf8_split(bytes, end);
    is_char_boundary_start_end_of_seq(head);
    if at < end {
        is_char_boundary_iff_not_is_continuation_byte(bytes, at);
        is_char_boundary_iff_not_is_continuation_byte(head, at);
    }
}

/// Chunks that end at or before the start of the span do not meet it.
proof fn lemma_sliced_none_before(chunks: Seq<TextChunk>, start: int, end: int, count: int)
    requires
        0 <= count <= chunks.len(),
        clean_total(chunks.take(count)) <= start,
    ensures
        sliced_upto(chunks, start, end, count) == Seq::<TextChunk>::empty(),
    decreases count,
{
    if count > 0 {
        assert(chunks.take(count).drop_last() =~= chunks.take(count - 1));
        lemma_sliced_none_before(chunks, start, end, count - 1);
    }
}

/// A chunk that accounts for at least as many characters as the diff keeps
/// or removes takes the whole diff.
proof fn lemma_tail_cut_all(ops: Seq<DiffOp>, count: nat)
    requires
        old_text(ops).len() <= count,
    ensures
        tail_cut(ops, count) == 0,
    decreases ops.len(),
{
    if ops.len() > 0 {
        if ops.last() is Add {
            lemma_tail_cut_all(ops.drop_last(), count);
        } else {
            lemma_tail_cut_all(ops.drop_last(), (count - 1) as nat);
        }
    }
}

/// A text has at most as many characters as bytes.
pub proof fn lemma_chars_within_bytes(chars: Seq<char>)
    ensures
        chars.len() <= encode_utf8(chars).len(),
    decreases chars.len(),
{
    if chars.len() > 0 {
        lemma_chars_within_bytes(chars.drop_first());
    }
}

/// The chunks that a span meets account for the span. For a span that lies
/// in the clean text, the clean lengths of the chunks cut down to it add up
/// to its length: the first begins exactly where the span begins and the
/// last ends exactly where it ends.
pub proof fn lemma_sliced_accounts_for_span(chunks: Seq<TextChunk>, start: int, end: int)
    requires
        0 <= start <= end <= clean_total(chunks),
        clean_total(chunks) <= usize::MAX,
    ensures
        clean_total(sliced(chunks, start, end)) == end - start,
{
    lemma_sliced_upto_total(chunks, start, end, chunks.len() as int);
    assert(chunks.take(chunks.len() as int) =~= chunks);
}

/// The clean length that the first `count` chunks share with a span.
pub open spec fn shared_length(chunks: Seq<TextChunk>, start: int, end: int, count: int) -> int {
    let reach = if clean_total(chunks.take(count)) <= end {
        clean_total(chunks.take(count)) as int
    } else {
        end
    };
    if reach <= start {
        0
    } else {
        reach - start
    }
}

/// The chunks among the first `count` that a span meets account for what
/// those chunks share with the span.
proof fn lemma_sliced_upto_total(chunks: Seq<TextChunk>, start: int, end: int, count: int)
    requires
        0 <= start <= end,
        0 <= count <= chunks.len(),
        end <= usize::MAX,
    ensures
        clean_total(sliced_upto(chunks, start, end, count)) == shared_length(
            chunks,
            start,
            end,
            count,
        ),
    decreases count,
{
    if count == 0 {
        assert(chunks.take(0) =~= Seq::<TextChunk>::empty());
    } else {
        lemma_sliced_upto_total(chunks, start, end, count - 1);
        assert(chunks.take(count).drop_last() =~= chunks.take(count - 1));
        let low = clean_total(chunks.take(count - 1)) as int;
        let chunk = chunks[count - 1];
        let before = sliced_upto(chunks, start, end, count - 1);
        if meets_span(chunk, low, start, end) {
            let cut_down = trimmed(chunk, low, start, end);
            assert(before.push(cut_down).drop_last() =~= before);
            assert(cut_down.clean_length == span_to(chunk, low, end) - span_from(low, start));
        }
    }
}

/// Mapping is sound inside plain text. Let the span `[start, end)` lie inside
/// one chunk of plain text, which begins at `low` in the clean text, and let
/// `ops` be any diff that changes the text of the span, which has at most
/// `end - start` characters, to a replacement that is not empty. Then the
/// span meets that chunk alone; the one edit covers exactly the bytes of the
/// span, as many as the span is long; and it puts the replacement there.
pub proof fn lemma_span_inside_one_chunk(
    chunks: Seq<TextChunk>,
    index: int,
    start: int,
    end: int,
    ops: Seq<DiffOp>,
)
    requires
        0 <= index < chunks.len(),
        is_byte_for_byte(chunks[index]),
        clean_total(chunks.take(index)) <= start < end <= clean_total(chunks.take(index))
            + chunks[index].clean_length,
        old_text(ops).len() <= end - start,
        new_text(ops).len() > 0,
        changes(ops),
    ensures
        ({
            let low = clean_total(chunks.take(index));
            let from = (chunks[index].start + (start - low)) as usize;
            let to = (chunks[index].start + (end - low)) as usize;
            &&& to - from == end - start
            &&& chunks[index].start <= from <= to <= chunks[index].end
            &&& sliced(chunks, start, end) == seq![
                TextChunk { clean_length: (end - start) as usize, start: from, end: to },
            ]
            &&& replacements_of(sliced(chunks, start, end), ops) == seq![
                ReplacementView { replacement: new_text(ops), start: from, end: to },
            ]
        }),
{
    let low = clean_total(chunks.take(index)) as int;
    let chunk = chunks[index];
    let cut_down = trimmed(chunk, low, start, end);
    lemma_sliced_none_before(chunks, start, end, index);
    assert(chunks.take(index + 1).drop_last() =~= chunks.take(index));
    assert(meets_span(chunk, low, start, end));
    assert(sliced_upto(chunks, start, end, index + 1) =~= seq![cut_down]);
    lemma_sliced_settled(chunks, start, end, index + 1, chunks.len() as int);
    let one = sliced(chunks, start, end);
    assert(one =~= seq![cut_down]);
    lemma_tail_cut_all(ops, cut_down.clean_length as nat);
    assert(ops.skip(0) =~= ops);
    assert(one.drop_last() =~= Seq::<TextChunk>::empty());
    assert(replacements_of(one.drop_last(), ops.take(0)) =~= Seq::<ReplacementView>::empty());
    assert(replacements_of(one, ops) =~= seq![
        ReplacementView { replacement: new_text(ops), start: cut_down.start, end: cut_down.end },
    ]);
}

/// No drift. Where the bytes of a plain chunk in the document are its bytes
/// in the clean text, replacing a span of the clean text inside the chunk,
/// and replacing the bytes that the span maps to in the document, change the
/// chunk in the same way and leave the document around it as it was.
pub proof fn lemma_edit_follows_clean_text(
    document: Seq<u8>,
    clean: Seq<u8>,
    chunk: TextChunk,
    low: int,
    start: int,
    end: int,
    new: Seq<u8>,
)
    requires
        is_byte_for_byte(chunk),
        chunk.end <= document.len(),
        0 <= low,
        low + chunk.clean_length <= clean.len(),
        document.subrange(chunk.start as int, chunk.end as int) == clean.subrange(
            low,
            low + chunk.clean_length,
        ),
        low <= start <= end <= low + chunk.clean_length,
    ensures
        ({
            let from = chunk.start + (start - low);
            let to = chunk.start + (end - low);
            let edited = splice(document, from, to, new);
            let expected = splice(clean, start, end, new);
            let grown = chunk.clean_length + new.len() - (end - start);
            &&& edited.len() == document.len() + new.len() - (end - start)
            &&& edited.subrange(0, chunk.start as int) == document.subrange(0, chunk.start as int)
            &&& edited.subrange(chunk.start as int, chunk.start + grown) == expected.subrange(
                low,
                low + grown,
            )
            &&& edited.subrange(chunk.start + grown, edited.len() as int) == document.subrange(
                chunk.end as int,
                document.len() as int,
            )
        }),
{
    let from = chunk.start + (start - low);
    let to = chunk.start + (end - low);
    let edited = splice(document, from, to, new);
    let expected = splice(clean, start, end, new);
    let grown = chunk.clean_length + new.len() - (end - start);
    let in_document = document.subrange(chunk.start as int, chunk.end as int);
    let in_clean = clean.subrange(low, low + chunk.clean_length);
    let ours = edited.subrange(chunk.start as int, chunk.start + grown);
    let theirs = expected.subrange(low, low + grown);
    assert forall|i: int| 0 <= i < grown implies #[trigger] ours[i] == theirs[i] by {
        if i < start - low {
            assert(ours[i] == in_document[i]);
            assert(theirs[i] == in_clean[i]);
        } else if i < start - low + new.len() {
        } else {
            let j = i - new.len() + (end - start);
            assert(ours[i] == in_document[j]);
            assert(theirs[i] == in_clean[j]);
        }
    }
    assert(ours =~= theirs);
    assert(edited.subrange(0, chunk.start as int) =~= document.subrange(0, chunk.start as int));
    assert(edited.subrange(chunk.start + grown, edited.len() as int) =~= document.subrange(
        chunk.end as int,
        document.len() as int,
    ));
}

/// Edits are minimal: a diff that changes nothing gives no edit, whatever
/// the chunks. The diff of a text with itself is such a diff, so a suggestion
/// whose replacement repeats the text of its span gives no edit.
pub proof fn lemma_unchanged_text_gives_no_edit(chunks: Seq<TextChunk>, ops: Seq<DiffOp>)
    requires
        !changes(ops),
    ensures
        replacements_of(chunks, ops) == Seq::<ReplacementView>::empty(),
    decreases chunks.len(),
{
    if chunks.len() > 0 {
        let cut = tail_cut(ops, chunks.last().clean_length as nat) as int;
        lemma_tail_cut_bound(ops, chunks.last().clean_length as nat);
        assert(ops =~= ops.take(cut) + ops.skip(cut));
        lemma_changes_concat(ops.take(cut), ops.skip(cut));
        lemma_unchanged_text_gives_no_edit(chunks.drop_last(), ops.take(cut));
    }
}

/// The cut lies inside the diff.
proof fn lemma_tail_cut_bound(ops: Seq<DiffOp>, count: nat)
    ensures
        tail_cut(ops, count) <= ops.len(),
    decreases ops.len(),
{
    if ops.len() > 0 {
        if ops.last() is Add {
            lemma_tail_cut_bound(ops.drop_last(), count);
        } else if count > 0 {
            lemma_tail_cut_bound(ops.drop_last(), (count - 1) as nat);
        }
    }
}

/// A `TextSuggestion` as a plain value.
pub struct TextSuggestionView {
    pub source: Seq<char>,
    pub message: Seq<char>,
    pub replacements: Seq<ReplacementView>,
    pub start: usize,
    pub end: usize,
}

impl View for TextSuggestion {
    type V = TextSuggestionView;

    open spec fn view(&self) -> TextSuggestionView {
        TextSuggestionView {
            source: self.source@,
            message: self.message@,
            replacements: replacement_views(self.replacements@),
            start: self.start,
            end: self.end,
        }
    }
}

/// What a suggestion that can be mapped becomes. It is about the bytes from
/// the start of the first chunk that its span meets to the end of the last.
/// Its edits carry out, over those chunks, the diff between the text of the
/// span and the first replacement that the suggestion offers.
pub open spec fn mapping(text: TextRangeView, suggestion: SuggestionView) -> TextSuggestionView {
    let chunks = sliced(text.chunks, suggestion.start as int, suggestion.end as int);
    let ops = char_diff(
        span_text(text.clean_text, suggestion.start as int, suggestion.end as int),
        suggestion.replacements[0],
    );
    TextSuggestionView {
        source: suggestion.source,
        message: suggestion.message,
        replacements: replacements_of(chunks, ops),
        start: chunks.first().start,
        end: chunks.last().end,
    }
}

/// What a list of suggestions becomes: each that can be mapped, in order.
pub open spec fn mappings(text: TextRangeView, suggestions: Seq<SuggestionView>) -> Seq<
    TextSuggestionView,
>
    decreases suggestions.len(),
{
    if suggestions.len() == 0 {
        Seq::empty()
    } else if can_map(text, suggestions.last()) {
        mappings(text, suggestions.drop_last()).push(mapping(text, suggestions.last()))
    } else {
        mappings(text, suggestions.drop_last())
    }
}

/// The suggestions of a list as plain values.
pub open spec fn text_suggestion_views(list: Seq<TextSuggestion>) -> Seq<TextSuggestionView> {
    Seq::new(list.len(), |i: int| list[i]@)
}

/// A diff that changes nothing has the same old and new text.
proof fn lemma_unchanged_texts_agree(ops: Seq<DiffOp>)
    requires
        !changes(ops),
    ensures
        old_text(ops) == new_text(ops),
    decreases ops.len(),
{
    if ops.len() > 0 {
        lemma_unchanged_texts_agree(ops.drop_last());
    }
}

/// Whether the span `[start, end)` of a clean text lies inside the chunk at
/// `index` of `chunks`, and that chunk is byte for byte, as a chunk of plain
/// text is.
pub open spec fn lies_in_one_chunk(chunks: Seq<TextChunk>, index: int, start: int, end: int) -> bool {
    &&& 0 <= index < chunks.len()
    &&& is_byte_for_byte(chunks[index])
    &&& clean_total(chunks.take(index)) <= start < end <= clean_total(chunks.take(index))
        + chunks[index].clean_length
}

/// The one edit of a suggestion whose span `[start, end)` lies inside the
/// chunk at `index`: the bytes of the span, as many as the span is
/// long, give way to `replacement`.
pub open spec fn edit_in_one_chunk(
    chunks: Seq<TextChunk>,
    index: int,
    start: int,
    end: int,
    replacement: Seq<char>,
) -> ReplacementView {
    let low = clean_total(chunks.take(index));
    ReplacementView {
        replacement,
        start: (chunks[index].start + (start - low)) as usize,
        end: (chunks[index].start + (end - low)) as usize,
    }
}

/// Maps a suggestion of the engine to the document. The first replacement
/// that the suggestion offers is compared with the text of its span,
/// character by character, and the chunks that the span meets share the
/// result among them. A suggestion that cannot be mapped is dropped. One
/// whose replacement repeats the text of its span has no edits. One whose
/// span lies inside a chunk of plain text, and whose replacement is another
/// text than that of the span and not empty, has one edit: the bytes of the
/// span give way to the replacement. The diff that is shared out has the text
/// of the span as its old text and the replacement as its new text.
pub fn compute_edit(text: &TextRange, suggestion: &Suggestion) -> (mapped: Option<TextSuggestion>)
    ensures
        mapped is Some <==> can_map(text@, suggestion@),
        mapped is Some ==> mapped.unwrap()@ == mapping(text@, suggestion@),
        mapped is Some && suggestion.replacements[0]@ == span_text(
            text.clean_text@,
            suggestion.start as int,
            suggestion.end as int,
        ) ==> mapped.unwrap().replacements.len() == 0,
        mapped is Some ==> {
            let left = span_text(text.clean_text@, suggestion.start as int, suggestion.end as int);
            let right = suggestion.replacements[0]@;
            &&& old_text(char_diff(left, right)) == left
            &&& new_text(char_diff(left, right)) == right
            &&& left.len() <= suggestion.end - suggestion.start
            &&& (left == right ==> !changes(char_diff(left, right)))
            &&& (left != right ==> changes(char_diff(left, right)))
        },
        mapped is Some ==> forall|index: int|
            #[trigger] lies_in_one_chunk(
                text.chunks@,
                index,
                suggestion.start as int,
                suggestion.end as int,
            ) && suggestion.replacements[0]@.len() > 0 && suggestion.replacements[0]@ != span_text(
                text.clean_text@,
                suggestion.start as int,
                suggestion.end as int,
            ) ==> {
                let edit = edit_in_one_chunk(
                    text.chunks@,
                    index,
                    suggestion.start as int,
                    suggestion.end as int,
                    suggestion.replacements[0]@,
                );
                &&& replacement_views(mapped.unwrap().replacements@) == seq![edit]
                &&& mapped.unwrap().start == edit.start
                &&& mapped.unwrap().end == edit.end
                &&& edit.end - edit.start == suggestion.end - suggestion.start
            },
{
    let chunks = slice_textchunks_for_suggestion(text, suggestion);
    if chunks.len() == 0 || suggestion.replacements.len() == 0 {
        return None;
    }
    let start = suggestion.start;
    let end = suggestion.end;
    let clean = text.clean_text.as_str();
    if !(start <= end && clean.is_char_boundary(start) && clean.is_char_boundary(end)) {
        return None;
    }
    proof {
        encode_utf8_valid_utf8(clean@);
        lemma_boundary_in_prefix(clean.spec_bytes(), start as int, end as int);
    }
    let (head, _) = clean.split_at(end);
    let (_, left) = head.split_at(start);
    proof {
        encode_utf8_decode_utf8(left@);
        assert(left.spec_bytes() =~= clean.spec_bytes().subrange(start as int, end as int));
    }
    let right = suggestion.replacements[0].as_str();
    let diff = diff_chars(left, right);
    proof {
        lemma_chars_within_bytes(left@);
        if left@ == right@ {
            lemma_unchanged_text_gives_no_edit(chunks@, diff@);
        }
        if !changes(diff@) {
            lemma_unchanged_texts_agree(diff@);
        }
        assert forall|index: int|
            #[trigger] lies_in_one_chunk(text.chunks@, index, start as int, end as int)
                && right@.len() > 0 && right@ != left@ implies replacements_of(chunks@, diff@)
            == seq![edit_in_one_chunk(text.chunks@, index, start as int, end as int, right@)]
            && chunks@ == seq![
            TextChunk {
                clean_length: (end - start) as usize,
                start: edit_in_one_chunk(
                    text.chunks@,
                    index,
                    start as int,
                    end as int,
                    right@,
                ).start,
                end: edit_in_one_chunk(text.chunks@, index, start as int, end as int, right@).end,
            },
        ] && edit_in_one_chunk(text.chunks@, index, start as int, end as int, right@).end
            - edit_in_one_chunk(text.chunks@, index, start as int, end as int, right@).start
            == end - start by {
            lemma_span_inside_one_chunk(text.chunks@, index, start as int, end as int, diff@);
        }
    }
    let replacements = reconcile(&chunks, diff);
    proof {
        assert(replacement_views(replacements@).len() == replacements.len());
    }
    let first = chunks[0].start;
    let last = chunks[chunks.len() - 1].end;
    Some(
        TextSuggestion {
            source: suggestion.source.clone(),
            message: suggestion.message.clone(),
            replacements,
            start: first,
            end: last,
        },
    )
}

/// Maps each suggestion of `suggestions` to the document, in order, and
/// drops those that cannot be mapped.
pub fn map_suggestions(text: &TextRange, suggestions: &Vec<Suggestion>) -> (mapped: Vec<
    TextSuggestion,
>)
    ensures
        text_suggestion_views(mapped@) == mappings(text@, suggestion_views(suggestions@)),
{
    let mut mapped: Vec<TextSuggestion> = Vec::new();
    let mut i: usize = 0;
    while i < suggestions.len()
        invariant
            i <= suggestions.len(),
            text_suggestion_views(mapped@) == mappings(
                text@,
                suggestion_views(suggestions@).take(i as int),
            ),
        decreases suggestions.len() - i,
    {
        proof {
            let views = suggestion_views(suggestions@);
            assert(views.take(i + 1).drop_last() =~= views.take(i as int));
            assert(views.take(i + 1).last() == suggestions@[i as int]@);
        }
        let ghost before = text_suggestion_views(mapped@);
        match compute_edit(text, &suggestions[i]) {
            Some(edit) => {
                mapped.push(edit);
                assert(text_suggestion_views(mapped@) =~= before.push(edit@));
            },
            None => {},
        }
        i = i + 1;
    }
    proof {
        let views = suggestion_views(suggestions@);
        assert(views.take(suggestions.len() as int) =~= views);
    }
    mapped
}

/// The lower-case form of a text, as `str::to_lowercase` gives it.
pub uninterp spec fn lowercase(text: Seq<char>) -> Seq<char>;

/// `str::to_lowercase`.
#[verifier::external_body]
fn to_lowercase(text: &str) -> (lower: String)
    ensures
        lower@ == lowercase(text@),
{
    text.to_lowercase()
}

/// Whether a rule is wanted, by its identifier and the name of its category,
/// both in lower case. Two rules on the spelling of "to-do" are not, nor are
/// the rules of two categories of style.
pub open spec fn is_wanted(id: Seq<char>, category: Seq<char>) -> bool {
    &&& id != "to_do_hyphen.3"@
    &&& id != "to_do_hyphen.2"@
    &&& category != "wikipedia"@
    &&& category != "typography"@
}

/// Whether a rule is wanted, by its identifier and the name of its category,
/// both already in lower case.
pub fn lowercase_rule_is_wanted(id: &str, category: &str) -> (wanted: bool)
    ensures
        wanted == is_wanted(id@, category@),
{
    let id = id.to_owned();
    let category = category.to_owned();
    !(id == "to_do_hyphen.3".to_owned()) && !(id == "to_do_hyphen.2".to_owned()) && !(category
        == "wikipedia".to_owned()) && !(category == "typography".to_owned())
}

/// Whether a rule is wanted, by its identifier and the name of its category
/// in any case.
pub fn rule_is_wanted(id: &str, category: &str) -> (wanted: bool)
    ensures
        wanted == is_wanted(lowercase(id@), lowercase(category@)),
{
    let id = to_lowercase(id);
    let category = to_lowercase(category);
    lowercase_rule_is_wanted(id.as_str(), category.as_str())
}

/// Whether the rule `rule` is wanted.
pub open spec fn wants(rule: RuleView) -> bool {
    is_wanted(lowercase(rule.id), lowercase(rule.category_name))
}

/// The rules of `rules` that are wanted, in order.
pub open spec fn wanted_rules(rules: Seq<RuleView>) -> Seq<RuleView>
    decreases rules.len(),
{
    if rules.len() == 0 {
        Seq::empty()
    } else if wants(rules.last()) {
        wanted_rules(rules.drop_last()).push(rules.last())
    } else {
        wanted_rules(rules.drop_last())
    }
}

/// The rules `rules` with those among the first `count` that are not wanted
/// disabled.
pub open spec fn unwanted_disabled(rules: Seq<RuleView>, count: int) -> Seq<RuleView> {
    Seq::new(
        rules.len(),
        |i: int|
            if i < count && !wants(rules[i]) {
                RuleView { enabled: false, ..rules[i] }
            } else {
                rules[i]
            },
    )
}

/// The rules of a list as plain values.
pub open spec fn rule_views(list: Seq<RuleInfo>) -> Seq<RuleView> {
    Seq::new(list.len(), |i: int| list[i]@)
}

/// Where the first rule named `name` stands in `rules`, or `-1` where there
/// is none.
pub open spec fn rule_index(rules: Seq<RuleView>, name: Seq<char>) -> int
    decreases rules.len(),
{
    if rules.len() == 0 {
        -1
    } else {
        let before = rule_index(rules.drop_last(), name);
        if before >= 0 {
            before
        } else if rules.last().name == name {
            rules.len() - 1
        } else {
            -1
        }
    }
}

/// Disables the rules of `rules` that are not wanted, and returns the others
/// as plain values, in order.
pub fn disable_unwanted(rules: &mut nlprule::Rules) -> (wanted: Vec<RuleInfo>)
    ensures
        rule_views(wanted@) == wanted_rules(rule_list(*old(rules))),
        rule_list(*final(rules)) == unwanted_disabled(
            rule_list(*old(rules)),
            rule_list(*old(rules)).len() as int,
        ),
{
    let ghost all = rule_list(*rules);
    let mut wanted: Vec<RuleInfo> = Vec::new();
    let count = rules_len(rules);
    let mut i: usize = 0;
    proof {
        assert(all.take(0) =~= Seq::<RuleView>::empty());
        assert(rule_list(*rules) =~= unwanted_disabled(all, 0));
    }
    while i < count
        invariant
            i <= count,
            count == all.len(),
            rule_list(*rules) == unwanted_disabled(all, i as int),
            rule_views(wanted@) == wanted_rules(all.take(i as int)),
        decreases count - i,
    {
        let info = rule_at(rules, i);
        let ghost before = rule_views(wanted@);
        proof {
            assert(all.take(i + 1).drop_last() =~= all.take(i as int));
            assert(info@.id == all[i as int].id);
            assert(info@.category_name == all[i as int].category_name);
        }
        if rule_is_wanted(info.id.as_str(), info.category_name.as_str()) {
            wanted.push(info);
            proof {
                assert(rule_views(wanted@) =~= before.push(all[i as int]));
                assert(rule_list(*rules) =~= unwanted_disabled(all, i + 1));
            }
        } else {
            rule_disable(rules, i);
            proof {
                assert(rule_list(*rules) =~= unwanted_disabled(all, i + 1));
            }
        }
        i = i + 1;
    }
    proof {
        assert(all.take(count as int) =~= all);
    }
    wanted
}

/// The first rule named `id` among `rules`.
pub fn find_rule<'a>(rules: &'a Vec<RuleInfo>, id: &str) -> (rule: Option<&'a RuleInfo>)
    ensures
        rule is Some <==> rule_index(rule_views(rules@), id@) >= 0,
        rule is Some ==> rule.unwrap()@ == rule_views(rules@)[rule_index(rule_views(rules@), id@)],
{
    let name = id.to_owned();
    let ghost all = rule_views(rules@);
    let mut i: usize = 0;
    proof {
        assert(all.take(0) =~= Seq::<RuleView>::empty());
    }
    while i < rules.len()
        invariant
            i <= rules.len(),
            all == rule_views(rules@),
            name@ == id@,
            rule_index(all.take(i as int), id@) < 0,
        decreases rules.len() - i,
    {
        proof {
            assert(all.take(i + 1).drop_last() =~= all.take(i as int));
        }
        if rules[i].name == name {
            proof {
                lemma_rule_index_settled(all, id@, i + 1, all.len() as int);
                assert(all.take(all.len() as int) =~= all);
            }
            return Some(&rules[i]);
        }
        i = i + 1;
    }
    proof {
        assert(all.take(all.len() as int) =~= all);
    }
    None
}

/// The count of questions put to the engine after one more text was asked
/// about: one more where the cache held nothing for the text, `miss`, and the
/// same where it held something. The count stops at the largest number that
/// it can hold.
pub open spec fn counted(calls: nat, miss: bool) -> nat {
    if miss && calls < u64::MAX {
        calls + 1
    } else {
        calls
    }
}

/// The engine is asked once for a text. Where the cache is made for at least
/// one entry and a text is asked about twice in a row, as it is for two
/// documents with the same clean text, the second time puts no question to
/// the engine.
pub proof fn lemma_same_text_is_asked_once(
    entries: Seq<Entry>,
    limit: nat,
    calls: nat,
    text: Seq<char>,
    first: Seq<SuggestionView>,
)
    requires
        limit > 0,
    ensures
        counted(
            counted(calls, key_index(entries, text) < 0),
            key_index(asked(entries, limit, text, first), text) < 0,
        ) == counted(calls, key_index(entries, text) < 0),
{
    crate::cache::lemma_same_text_is_answered_alike(entries, limit, text, first, first);
}

/// The grammar engine with its rules, a cache of what it said, and a count
/// of the questions put to it.
pub struct Validator {
    cache: SuggestionCache,
    tokenizer: nlprule::Tokenizer,
    rules: nlprule::Rules,
    wanted: Vec<RuleInfo>,
    calls: u64,
}

impl Validator {
    /// The cache of a validator holds no more entries than it was made to
    /// hold.
    pub closed spec fn well_formed(&self) -> bool {
        self.cache.entries().len() <= self.cache.limit()
    }

    /// What the cache holds, from the entry used last on.
    pub closed spec fn cached(&self) -> Seq<Entry> {
        self.cache.entries()
    }

    /// The number of entries that the cache was made to hold.
    pub closed spec fn cache_limit(&self) -> nat {
        self.cache.limit()
    }

    /// How often the engine was asked.
    pub closed spec fn spec_engine_calls(&self) -> nat {
        self.calls as nat
    }

    /// How often the engine was asked. A text that the cache holds an entry
    /// for is answered without the engine.
    pub fn engine_calls(&self) -> (calls: u64)
        ensures
            calls == self.spec_engine_calls(),
    {
        self.calls
    }

    /// The rules that suggestions can come from.
    pub closed spec fn known_rules(&self) -> Seq<RuleView> {
        rule_views(self.wanted@)
    }

    /// The rules of the engine, wanted or not.
    pub closed spec fn engine_rules(&self) -> Seq<RuleView> {
        rule_list(self.rules)
    }

    /// A validator over a tokenizer and a set of rules, with an empty cache.
    /// The rules that are not wanted are disabled, and the others are the
    /// rules that the validator knows.
    pub fn new(tokenizer: nlprule::Tokenizer, rules: nlprule::Rules) -> (validator: Validator)
        ensures
            validator.well_formed(),
            validator.cached() == Seq::<Entry>::empty(),
            validator.cache_limit() == crate::cache::DEFAULT_CAPACITY,
            validator.spec_engine_calls() == 0,
            validator.known_rules() == wanted_rules(rule_list(rules)),
            validator.engine_rules() == unwanted_disabled(
                rule_list(rules),
                rule_list(rules).len() as int,
            ),
    {
        Validator::with_cache(tokenizer, rules, SuggestionCache::new())
    }

    /// A validator over a tokenizer and a set of rules, with a cache that may
    /// already hold what was said of some texts.
    pub fn with_cache(
        tokenizer: nlprule::Tokenizer,
        rules: nlprule::Rules,
        cache: SuggestionCache,
    ) -> (validator: Validator)
        ensures
            validator.well_formed(),
            validator.cached() == cache.entries(),
            validator.cache_limit() == cache.limit(),
            validator.spec_engine_calls() == 0,
            validator.known_rules() == wanted_rules(rule_list(rules)),
            validator.engine_rules() == unwanted_disabled(
                rule_list(rules),
                rule_list(rules).len() as int,
            ),
    {
        let mut rules = rules;
        let wanted = disable_unwanted(&mut rules);
        let _held: usize = cache.len();
        Validator { cache, tokenizer, rules, wanted, calls: 0 }
    }

    /// The first rule named `id` among the rules that the validator knows.
    pub fn get_rule(&self, id: &str) -> (rule: Option<&RuleInfo>)
        ensures
            rule is Some <==> rule_index(self.known_rules(), id@) >= 0,
            rule is Some ==> rule.unwrap()@ == self.known_rules()[rule_index(
                self.known_rules(),
                id@,
            )],
    {
        find_rule(&self.wanted, id)
    }

    /// What is said of the clean text `text`, mapped to the document. The
    /// engine is asked only where the cache holds nothing for the text, and
    /// what it says is then stored, as far as the cache stores anything. What
    /// the engine says is up to the engine: there is an answer of the engine
    /// such that the result is the mapping of what is said of the text by way
    /// of the cache, and the cache afterwards is as the question leaves it.
    /// The cache never holds more than it was made to hold. The engine is
    /// counted as asked once more where the cache held nothing for the text,
    /// and not else.
    pub fn suggest(&mut self, text: &TextRange) -> (mapped: Vec<TextSuggestion>)
        ensures
            final(self).well_formed(),
            final(self).spec_engine_calls() == counted(
                old(self).spec_engine_calls(),
                key_index(old(self).cached(), text.clean_text@) < 0,
            ),
            final(self).known_rules() == old(self).known_rules(),
            final(self).engine_rules() == old(self).engine_rules(),
            final(self).cache_limit() == old(self).cache_limit(),
            final(self).cached().len() <= final(self).cache_limit(),
            exists|answer: Seq<SuggestionView>|
                {
                    &&& final(self).cached() == #[trigger] asked(
                        old(self).cached(),
                        old(self).cache_limit(),
                        text.clean_text@,
                        answer,
                    )
                    &&& text_suggestion_views(mapped@) == mappings(
                        text@,
                        said(old(self).cached(), text.clean_text@, answer),
                    )
                },
    {
        let ghost entries = self.cache.entries();
        let ghost limit = self.cache.limit();
        let found = self.cache.get(&text.clean_text);
        let ghost answer: Seq<SuggestionView>;
        let suggestions = match found {
            Some(suggestions) => {
                proof {
                    answer = Seq::empty();
                }
                suggestions
            },
            None => {
                let fresh = engine_suggest(&self.rules, &self.tokenizer, text.clean_text.as_str());
                if self.calls < u64::MAX {
                    self.calls = self.calls + 1;
                }
                self.cache.put(&text.clean_text, &fresh);
                proof {
                    answer = suggestion_views(fresh@);
                }
                fresh
            },
        };
        let _held: usize = self.cache.len();
        let mapped = map_suggestions(text, &suggestions);
        proof {
            assert(suggestion_views(suggestions@) == said(entries, text.clean_text@, answer));
            assert(self.cached() == asked(
                old(self).cached(),
                old(self).cache_limit(),
                text.clean_text@,
                answer,
            ));
            assert(text_suggestion_views(mapped@) == mappings(
                text@,
                said(old(self).cached(), text.clean_text@, answer),
            ));
        }
        mapped
    }
}

/// Once the first rule of a name is found among the first `done` rules, it
/// is the first of that name among any more of them.
proof fn lemma_rule_index_settled(rules: Seq<RuleView>, name: Seq<char>, done: int, count: int)
    requires
        0 <= done <= count <= rules.len(),
        rule_index(rules.take(done), name) >= 0,
    ensures
        rule_index(rules.take(count), name) == rule_index(rules.take(done), name),
    decreases count - done,
{
    if done < count {
        lemma_rule_index_settled(rules, name, done, count - 1);
        assert(rules.take(count).drop_last() =~= rules.take(count - 1));
    }
}

} // verus!
