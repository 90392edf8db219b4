//! A document: its text, its syntax tree and its version, kept in step while
//! the text is edited.

use crate::buffer::{
    lemma_boundary_of_tail, lemma_line_offset_is_boundary, lemma_line_search_bounds,
    lemma_line_search_least, lemma_newline_count_monotonic, lemma_utf16_len_concat,
    lemma_utf16_search_finds, line_offset, newline_count, splice, utf16_len, utf16_offset,
    TextBuffer,
};
use crate::cache::{asked, key_index, said, Entry};
use crate::engine::{RuleInfo, RuleView};
use crate::node_util::{
    ascending, extract, extracted, text_range_views, tree_is_ordered, SyntaxNode, TextRange,
    TextRangeView,
};
use crate::syntax_tree::{
    markdown_nodes, parse_buffer, tree_clone, tree_edit, tree_nodes,
    tree_syntax, Point, TreeEdit,
};
use crate::validator::{
    counted, mappings, replacement_views, rule_index, text_suggestion_views, Replacement, ReplacementView,
    SuggestionView, TextSuggestion, TextSuggestionView, Validator,
};
use vstd::string::StringExecFns;
use vstd::prelude::*;
use vstd::string::StringSliceAdditionalSpecFns;
use vstd::utf8::*;

verus! {

/// A place in a text as an editor names it: a line, and a column counted in
/// UTF-16 code units.
#[derive(Clone, Copy, Debug)]
pub struct Position {
    pub line: u32,
    pub character: u32,
}

/// The text between two places.
#[derive(Clone, Copy, Debug)]
pub struct Range {
    pub start: Position,
    pub end: Position,
}

/// A change that an editor reports: `text` takes the place of `range`, or of
/// the whole text where there is no range.
pub struct TextEdit {
    pub range: Option<Range>,
    pub text: String,
}

/// Why an edit was not applied.
#[derive(Clone, Copy, Debug)]
pub enum EditError {
    /// A place of the edit lies outside the text, or its range is inverted.
    PositionOutOfRange,
    /// No tree was given for the text.
    ParserUnavailable,
}

/// The byte offset of a place in a text, if the place lies in the text. The
/// line has to be one of the text, or the line just behind the last, and the
/// column is counted from the start of the line over what follows it.
pub open spec fn position_offset(bytes: Seq<u8>, position: Position) -> Option<int> {
    if position.line > newline_count(bytes) + 1 {
        None
    } else {
        let from = line_offset(bytes, position.line as nat);
        if position.character > utf16_len(bytes.skip(from)) {
            None
        } else {
            Some(from + utf16_offset(bytes.skip(from), position.character as nat))
        }
    }
}

/// The row and column of a byte offset: the number of line feeds before it,
/// and its distance in bytes from where its line starts.
pub open spec fn point_of(bytes: Seq<u8>, offset: int) -> Point {
    let row = newline_count(bytes.take(offset));
    Point { row: row as usize, column: (offset - line_offset(bytes, row)) as usize }
}

/// The byte offset of `position` in the text of `buffer`.
pub fn position_to_offset(buffer: &TextBuffer, position: Position) -> (offset: Result<
    usize,
    EditError,
>)
    ensures
        offset is Ok <==> position_offset(buffer@, position) is Some,
        offset is Ok ==> position_offset(buffer@, position) == Some(offset->Ok_0 as int),
        offset is Ok ==> buffer.holds_range(offset->Ok_0 as int, offset->Ok_0 as int),
        offset is Err ==> offset->Err_0 is PositionOutOfRange,
{
    match buffer.offset_of_line(position.line as usize) {
        None => Err(EditError::PositionOutOfRange),
        Some(from) => match buffer.offset_after_utf16(from, position.character as usize) {
            None => Err(EditError::PositionOutOfRange),
            Some(offset) => Ok(offset),
        },
    }
}

/// The row and column of the byte offset `offset` in the text of `buffer`,
/// where the offset lies in the text and on a character boundary.
pub fn offset_to_point(buffer: &TextBuffer, offset: usize) -> (point: Option<Point>)
    ensures
        point is Some <==> buffer.holds_range(offset as int, offset as int),
        point is Some ==> point.unwrap() == point_of(buffer@, offset as int),
        point is Some ==> point.unwrap().row == newline_count(buffer@.take(offset as int)),
        point is Some ==> point.unwrap().column == offset - line_offset(
            buffer@,
            newline_count(buffer@.take(offset as int)),
        ),
{
    match buffer.line_of_offset(offset) {
        None => None,
        Some(row) => {
            proof {
                lemma_newline_count_monotonic(buffer@, offset as int, buffer@.len() as int);
                assert(buffer@.take(buffer@.len() as int) =~= buffer@);
                lemma_line_search_least(buffer@, row as nat, 0, offset as int);
                lemma_line_search_bounds(buffer@, row as nat, 0);
            }
            match buffer.offset_of_line(row) {
                None => None,
                Some(start) => Some(Point { row, column: offset - start }),
            }
        },
    }
}

/// The column of a byte offset as an editor counts it: the UTF-16 code units
/// between the start of the offset's line and the offset.
pub open spec fn column_of(bytes: Seq<u8>, offset: int) -> nat {
    utf16_len(bytes.subrange(line_offset(bytes, newline_count(bytes.take(offset))), offset))
}

/// Whether a byte offset has a place that an editor can be told: the offset
/// lies in the text and on a character boundary, and its line and its column
/// each fit in 32 bits.
pub open spec fn has_place(bytes: Seq<u8>, offset: int) -> bool {
    &&& 0 <= offset <= bytes.len()
    &&& is_char_boundary(bytes, offset)
    &&& newline_count(bytes.take(offset)) <= u32::MAX
    &&& column_of(bytes, offset) <= u32::MAX
}

/// The place of a byte offset as an editor names it: its line, and its
/// column in UTF-16 code units.
pub open spec fn position_of(bytes: Seq<u8>, offset: int) -> Position {
    Position {
        line: newline_count(bytes.take(offset)) as u32,
        character: column_of(bytes, offset) as u32,
    }
}

/// A place names its offset. Where a byte offset of a well-formed text has a
/// place, the offset of that place is the offset again.
pub proof fn lemma_place_names_its_offset(bytes: Seq<u8>, offset: int)
    requires
        valid_utf8(bytes),
        has_place(bytes, offset),
    ensures
        position_offset(bytes, position_of(bytes, offset)) == Some(offset),
{
    let row = newline_count(bytes.take(offset));
    let from = line_offset(bytes, row);
    lemma_newline_count_monotonic(bytes, offset, bytes.len() as int);
    assert(bytes.take(bytes.len() as int) =~= bytes);
    lemma_line_search_least(bytes, row, 0, offset);
    lemma_line_search_bounds(bytes, row, 0);
    lemma_line_offset_is_boundary(bytes, row);
    lemma_boundary_of_tail(bytes, from, offset);
    let tail = bytes.skip(from);
    assert(tail.take(offset - from) =~= bytes.subrange(from, offset));
    assert(tail =~= tail.take(offset - from) + tail.skip(offset - from));
    lemma_utf16_len_concat(tail.take(offset - from), tail.skip(offset - from));
    lemma_utf16_search_finds(tail, offset - from, 0);
}

/// The place of the byte offset `offset` in the text of `buffer`, as an
/// editor names it. There is none where the offset lies outside the text or
/// inside a character, nor where its line or its column does not fit in 32
/// bits.
pub fn offset_to_position(buffer: &TextBuffer, offset: usize) -> (position: Option<Position>)
    ensures
        position is Some <==> has_place(buffer@, offset as int),
        position is Some ==> position.unwrap() == position_of(buffer@, offset as int),
{
    let point = match offset_to_point(buffer, offset) {
        None => {
            return None;
        },
        Some(point) => point,
    };
    proof {
        lemma_line_search_least(buffer@, point.row as nat, 0, offset as int);
        lemma_line_search_bounds(buffer@, point.row as nat, 0);
    }
    let line_start = offset - point.column;
    let units = match buffer.utf16_between(line_start, offset) {
        None => {
            proof {
                lemma_line_offset_is_boundary(buffer@, point.row as nat);
            }
            return None;
        },
        Some(units) => units,
    };
    if point.row > u32::MAX as usize || units > u32::MAX as usize {
        return None;
    }
    Some(Position { line: point.row as u32, character: units as u32 })
}

/// A stretch of the text of `buffer` from `offset` on, for a parser that
/// reads the text piece by piece: empty at the end of the text and nowhere
/// else in it.
pub fn get_chunk<'a>(buffer: &'a TextBuffer, offset: usize) -> (chunk: &'a str)
    ensures
        chunk.spec_bytes().len() > 0 <==> offset < buffer@.len() && is_char_boundary(
            buffer@,
            offset as int,
        ),
        chunk.spec_bytes().len() > 0 ==> offset + chunk.spec_bytes().len() <= buffer@.len()
            && chunk.spec_bytes() == buffer@.subrange(
            offset as int,
            offset + chunk.spec_bytes().len(),
        ),
{
    buffer.chunk_at(offset)
}

/// What an edit makes of a text, if its places lie in the text: the text
/// with the range replaced, or the new text where the edit has no range.
pub open spec fn edited(bytes: Seq<u8>, range: Option<Range>, text: Seq<u8>) -> Option<Seq<u8>> {
    match range {
        None => Some(text),
        Some(range) => match (
            position_offset(bytes, range.start),
            position_offset(bytes, range.end),
        ) {
            (Some(start), Some(end)) => if start <= end {
                Some(splice(bytes, start, end, text))
            } else {
                None
            },
            _ => None,
        },
    }
}

/// What a tree has to be told of an edit of the range `range` of a text.
pub open spec fn tree_edit_of(bytes: Seq<u8>, range: Range, text: Seq<u8>) -> TreeEdit {
    let start = position_offset(bytes, range.start).unwrap();
    let end = position_offset(bytes, range.end).unwrap();
    TreeEdit {
        start_byte: start as usize,
        old_end_byte: end as usize,
        new_end_byte: (start + text.len()) as usize,
        start_position: point_of(bytes, start),
        old_end_position: point_of(bytes, end),
        new_end_position: point_of(splice(bytes, start, end, text), start + text.len()),
    }
}

/// What a list of edits makes of a text, one after the other, if the places
/// of each lie in the text that the edits before it have made.
pub open spec fn edited_all(bytes: Seq<u8>, edits: Seq<TextEdit>) -> Option<Seq<u8>>
    decreases edits.len(),
{
    if edits.len() == 0 {
        Some(bytes)
    } else {
        match edited_all(bytes, edits.drop_last()) {
            Some(before) => edited(before, edits.last().range, encode_utf8(edits.last().text@)),
            None => None,
        }
    }
}

/// A text after an edit, and what a tree has to be told of the edit; nothing
/// where the whole text was replaced.
pub struct Edited {
    pub buffer: TextBuffer,
    pub tree_edit: Option<TreeEdit>,
}

/// Where two well-formed texts are joined, a character boundary lies.
proof fn lemma_boundary_at_join(head: Seq<u8>, tail: Seq<u8>)
    requires
        valid_utf8(head),
        valid_utf8(tail),
    ensures
        is_char_boundary(head + tail, head.len() as int),
{
    valid_utf8_concat(head, tail);
    is_char_boundary_start_end_of_seq(head + tail);
    if tail.len() > 0 {
        is_char_boundary_start_end_of_seq(tail);
        is_char_boundary_iff_not_is_continuation_byte(tail, 0);
        is_char_boundary_iff_not_is_continuation_byte(head + tail, head.len() as int);
    }
}

/// Applies the edit of `range` to the text of `buffer`, which stays as it
/// was, and says what a tree has to be told.
pub fn edit_range(buffer: &TextBuffer, range: Range, text: &str) -> (out: Result<
    Edited,
    EditError,
>)
    ensures
        out is Ok <==> edited(buffer@, Some(range), text.spec_bytes()) is Some,
        out is Ok ==> Some(out->Ok_0.buffer@) == edited(buffer@, Some(range), text.spec_bytes()),
        out is Ok ==> out->Ok_0.tree_edit == Some(
            tree_edit_of(buffer@, range, text.spec_bytes()),
        ),
        out is Err ==> out->Err_0 is PositionOutOfRange,
{
    let start = match position_to_offset(buffer, range.start) {
        Ok(start) => start,
        Err(error) => {
            return Err(error);
        },
    };
    let end = match position_to_offset(buffer, range.end) {
        Ok(end) => end,
        Err(error) => {
            return Err(error);
        },
    };
    if start > end {
        return Err(EditError::PositionOutOfRange);
    }
    let replaced = buffer.replaced(start, end, text);
    let new_buffer = replaced.unwrap();
    let new_end = start + text.len();
    proof {
        let head = buffer@.subrange(0, start as int) + text.spec_bytes();
        let tail = buffer@.subrange(end as int, buffer@.len() as int);
        valid_utf8_split(buffer@, start as int);
        valid_utf8_split(buffer@, end as int);
        encode_utf8_valid_utf8(text@);
        valid_utf8_concat(buffer@.subrange(0, start as int), text.spec_bytes());
        lemma_boundary_at_join(head, tail);
    }
    let start_position = offset_to_point(buffer, start).unwrap();
    let old_end_position = offset_to_point(buffer, end).unwrap();
    let new_end_position = offset_to_point(&new_buffer, new_end).unwrap();
    Ok(
        Edited {
            buffer: new_buffer,
            tree_edit: Some(
                TreeEdit {
                    start_byte: start,
                    old_end_byte: end,
                    new_end_byte: new_end,
                    start_position,
                    old_end_position,
                    new_end_position,
                },
            ),
        },
    )
}

/// Replaces the whole text by `text`.
pub fn edit_fulltext(text: &str) -> (out: Edited)
    ensures
        out.buffer@ == text.spec_bytes(),
        out.tree_edit is None,
{
    Edited { buffer: TextBuffer::from_text(text), tree_edit: None }
}

/// Applies one edit to the text of `buffer`, which stays as it was.
pub fn apply_edit(buffer: &TextBuffer, edit: &TextEdit) -> (out: Result<Edited, EditError>)
    ensures
        out is Ok <==> edited(buffer@, edit.range, encode_utf8(edit.text@)) is Some,
        out is Ok ==> Some(out->Ok_0.buffer@) == edited(
            buffer@,
            edit.range,
            encode_utf8(edit.text@),
        ),
        out is Ok ==> out->Ok_0.tree_edit == match edit.range {
            Some(range) => Some(tree_edit_of(buffer@, range, encode_utf8(edit.text@))),
            None => None,
        },
        out is Err ==> out->Err_0 is PositionOutOfRange,
{
    match edit.range {
        Some(range) => edit_range(buffer, range, edit.text.as_str()),
        None => Ok(edit_fulltext(edit.text.as_str())),
    }
}

/// Applies a list of edits to the text of `buffer`, one after the other, and
/// returns the text after each. Where a place of one of them lies outside
/// the text it is applied to, none is applied.
pub fn apply_edits(buffer: &TextBuffer, edits: &Vec<TextEdit>) -> (out: Result<
    Vec<Edited>,
    EditError,
>)
    ensures
        out is Ok <==> edited_all(buffer@, edits@) is Some,
        out is Ok ==> out->Ok_0.len() == edits.len(),
        out is Ok ==> forall|i: int|
            0 <= i < edits.len() ==> Some((#[trigger] out->Ok_0[i]).buffer@) == edited_all(
                buffer@,
                edits@.take(i + 1),
            ),
        out is Ok ==> forall|i: int|
            0 <= i < edits.len() ==> (#[trigger] out->Ok_0[i]).tree_edit == match edits[i].range {
                Some(range) => Some(
                    tree_edit_of(
                        edited_all(buffer@, edits@.take(i)).unwrap(),
                        range,
                        encode_utf8(edits[i].text@),
                    ),
                ),
                None => None,
            },
        out is Err ==> out->Err_0 is PositionOutOfRange,
{
    let mut steps: Vec<Edited> = Vec::new();
    let mut i: usize = 0;
    proof {
        assert(edits@.take(0) =~= Seq::<TextEdit>::empty());
    }
    while i < edits.len()
        invariant
            i <= edits.len(),
            steps.len() == i,
            edited_all(buffer@, edits@.take(i as int)) is Some,
            i > 0 ==> Some(steps[i - 1].buffer@) == edited_all(buffer@, edits@.take(i as int)),
            forall|j: int|
                0 <= j < i ==> Some((#[trigger] steps[j]).buffer@) == edited_all(
                    buffer@,
                    edits@.take(j + 1),
                ),
            forall|j: int|
                0 <= j < i ==> (#[trigger] steps[j]).tree_edit == match edits[j].range {
                    Some(range) => Some(
                        tree_edit_of(
                            edited_all(buffer@, edits@.take(j)).unwrap(),
                            range,
                            encode_utf8(edits[j].text@),
                        ),
                    ),
                    None => None,
                },
        decreases edits.len() - i,
    {
        proof {
            assert(edits@.take(i + 1).drop_last() =~= edits@.take(i as int));
        }
        let step = if i == 0 {
            apply_edit(buffer, &edits[i])
        } else {
            apply_edit(&steps[i - 1].buffer, &edits[i])
        };
        match step {
            Ok(edited) => {
                steps.push(edited);
            },
            Err(error) => {
                proof {
                    lemma_edited_all_fails(buffer@, edits@, i + 1);
                }
                return Err(error);
            },
        }
        i = i + 1;
    }
    proof {
        assert(edits@.take(edits.len() as int) =~= edits@);
    }
    Ok(steps)
}

/// A batch of edits is the edits one after the other: applying a list of
/// edits and then another gives what applying the two lists joined gives.
pub proof fn lemma_edits_compose(bytes: Seq<u8>, first: Seq<TextEdit>, second: Seq<TextEdit>)
    ensures
        edited_all(bytes, first + second) == match edited_all(bytes, first) {
            Some(between) => edited_all(between, second),
            None => None,
        },
    decreases second.len(),
{
    if second.len() == 0 {
        assert(first + second =~= first);
    } else {
        lemma_edits_compose(bytes, first, second.drop_last());
        assert((first + second).drop_last() =~= first + second.drop_last());
    }
}

/// Once a list of edits fails, it fails however it goes on.
proof fn lemma_edited_all_fails(bytes: Seq<u8>, edits: Seq<TextEdit>, count: int)
    requires
        0 <= count <= edits.len(),
        edited_all(bytes, edits.take(count)) is None,
    ensures
        edited_all(bytes, edits) is None,
    decreases edits.len() - count,
{
    if count < edits.len() {
        assert(edits.take(count + 1).drop_last() =~= edits.take(count));
        lemma_edited_all_fails(bytes, edits, count + 1);
    } else {
        assert(edits.take(count) =~= edits);
    }
}

/// How grave a diagnostic is.
#[derive(Clone, Copy, Debug)]
pub enum Severity {
    Error,
    Warning,
}

/// What an editor is told of a suggestion.
pub struct Diagnostic {
    pub range: Range,
    pub severity: Severity,
    pub code: Option<String>,
    pub source: Option<String>,
    pub message: String,
    pub data: TextSuggestion,
}

/// A `Diagnostic` as a plain value.
pub struct DiagnosticView {
    pub range: Range,
    pub severity: Severity,
    pub code: Option<Seq<char>>,
    pub source: Option<Seq<char>>,
    pub message: Seq<char>,
    pub data: TextSuggestionView,
}

/// An optional text as a plain value.
pub open spec fn text_view(text: Option<String>) -> Option<Seq<char>> {
    match text {
        Some(text) => Some(text@),
        None => None,
    }
}

impl View for Diagnostic {
    type V = DiagnosticView;

    open spec fn view(&self) -> DiagnosticView {
        DiagnosticView {
            range: self.range,
            severity: self.severity,
            code: text_view(self.code),
            source: text_view(self.source),
            message: self.message@,
            data: self.data@,
        }
    }
}

/// How grave a finding in a category of rules is: an error where the
/// category is one of grammar or of inconsistency, else a warning.
pub open spec fn severity_of(category: Seq<char>) -> Severity {
    if category == "grammar"@ || category == "inconsistency"@ {
        Severity::Error
    } else {
        Severity::Warning
    }
}

/// How grave a finding in the category of rules `category` is.
pub fn category_severity(category: &str) -> (severity: Severity)
    ensures
        severity == severity_of(category@),
{
    let category = category.to_owned();
    if category == "grammar".to_owned() || category == "inconsistency".to_owned() {
        Severity::Error
    } else {
        Severity::Warning
    }
}

/// The places of the byte range `[start, end)`.
pub open spec fn range_of(bytes: Seq<u8>, start: int, end: int) -> Range {
    Range { start: position_of(bytes, start), end: position_of(bytes, end) }
}

/// The diagnostic of a suggestion that comes from the rule `rule`, if that
/// rule is known. It covers the bytes that the suggestion is about and
/// carries the suggestion. With a rule, the diagnostic has the rule's name as
/// its code, the type of the rule's category as its source, and is as grave
/// as that type says; else it is a warning without code and source.
pub open spec fn diagnostic_with(
    bytes: Seq<u8>,
    rule: Option<RuleView>,
    suggestion: TextSuggestionView,
) -> DiagnosticView {
    DiagnosticView {
        range: range_of(bytes, suggestion.start as int, suggestion.end as int),
        severity: match rule {
            Some(rule) => match rule.category_type {
                Some(category) => severity_of(category),
                None => Severity::Warning,
            },
            None => Severity::Warning,
        },
        code: match rule {
            Some(rule) => Some(rule.name),
            None => None,
        },
        source: match rule {
            Some(rule) => rule.category_type,
            None => None,
        },
        message: suggestion.message,
        data: suggestion,
    }
}

/// The diagnostic of a suggestion, where `rules` are the rules that are
/// known: its rule is the first that has the name which the suggestion gives
/// as its source.
pub open spec fn diagnostic_of(
    bytes: Seq<u8>,
    rules: Seq<RuleView>,
    suggestion: TextSuggestionView,
) -> DiagnosticView {
    let index = rule_index(rules, suggestion.source);
    diagnostic_with(
        bytes,
        if index >= 0 {
            Some(rules[index])
        } else {
            None
        },
        suggestion,
    )
}

/// Whether both ends of the byte range `[start, end)` have places that an
/// editor can be told.
pub open spec fn ends_have_places(bytes: Seq<u8>, start: int, end: int) -> bool {
    has_place(bytes, start) && has_place(bytes, end)
}

/// The places of the byte range `[start, end)` in the text of `buffer`, where
/// both ends lie in the text.
pub fn offsets_to_range(buffer: &TextBuffer, start: usize, end: usize) -> (range: Option<Range>)
    ensures
        range is Some <==> ends_have_places(buffer@, start as int, end as int),
        range is Some ==> range.unwrap() == range_of(buffer@, start as int, end as int),
{
    match offset_to_position(buffer, start) {
        None => None,
        Some(start) => match offset_to_position(buffer, end) {
            None => None,
            Some(end) => Some(Range { start, end }),
        },
    }
}

/// An optional rule as a plain value.
pub open spec fn rule_view(rule: Option<&RuleInfo>) -> Option<RuleView> {
    match rule {
        Some(rule) => Some(rule@),
        None => None,
    }
}

/// The diagnostic of `suggestion`, which comes from the rule `rule`, in the
/// text of `buffer`, where both ends of the suggestion lie in the text.
pub fn diagnostic_for(buffer: &TextBuffer, rule: Option<&RuleInfo>, suggestion: TextSuggestion) -> (diagnostic:
    Option<Diagnostic>)
    ensures
        diagnostic is Some <==> ends_have_places(
            buffer@,
            suggestion.start as int,
            suggestion.end as int,
        ),
        diagnostic is Some ==> diagnostic.unwrap()@ == diagnostic_with(
            buffer@,
            rule_view(rule),
            suggestion@,
        ),
{
    let range = match offsets_to_range(buffer, suggestion.start, suggestion.end) {
        Some(range) => range,
        None => {
            return None;
        },
    };
    let mut severity = Severity::Warning;
    let mut code: Option<String> = None;
    let mut source: Option<String> = None;
    match rule {
        Some(rule) => {
            code = Some(rule.name.clone());
            match &rule.category_type {
                Some(category) => {
                    source = Some(category.clone());
                    severity = category_severity(category.as_str());
                },
                None => {},
            }
        },
        None => {},
    }
    Some(
        Diagnostic {
            range,
            severity,
            code,
            source,
            message: suggestion.message.clone(),
            data: suggestion,
        },
    )
}

/// The diagnostic of `suggestion` in the text of `buffer`, where both ends of
/// the suggestion lie in the text. Its rule is looked up in `validator`.
pub fn suggestion_to_diagnostic(
    buffer: &TextBuffer,
    validator: &Validator,
    suggestion: TextSuggestion,
) -> (diagnostic: Option<Diagnostic>)
    ensures
        diagnostic is Some <==> ends_have_places(
            buffer@,
            suggestion.start as int,
            suggestion.end as int,
        ),
        diagnostic is Some ==> diagnostic.unwrap()@ == diagnostic_of(
            buffer@,
            validator.known_rules(),
            suggestion@,
        ),
{
    let rule = validator.get_rule(suggestion.source.as_str());
    diagnostic_for(buffer, rule, suggestion)
}

/// The diagnostics of a list as plain values.
pub open spec fn diagnostic_views(list: Seq<Diagnostic>) -> Seq<DiagnosticView> {
    Seq::new(list.len(), |i: int| list[i]@)
}

/// The diagnostics of the suggestions `suggestions`, in order. A suggestion
/// that has an end outside the text has none.
pub open spec fn diagnostics_from(
    bytes: Seq<u8>,
    rules: Seq<RuleView>,
    suggestions: Seq<TextSuggestionView>,
) -> Seq<DiagnosticView>
    decreases suggestions.len(),
{
    if suggestions.len() == 0 {
        Seq::empty()
    } else {
        let before = diagnostics_from(bytes, rules, suggestions.drop_last());
        let last = suggestions.last();
        if ends_have_places(bytes, last.start as int, last.end as int) {
            before.push(diagnostic_of(bytes, rules, last))
        } else {
            before
        }
    }
}

/// The entries of a cache after the clean texts of `ranges` were asked about
/// by way of it, one after the other, where `answers[i]` is what the engine
/// says of the clean text of `ranges[i]`.
pub open spec fn cache_after(
    entries: Seq<Entry>,
    limit: nat,
    ranges: Seq<TextRangeView>,
    answers: Seq<Seq<SuggestionView>>,
) -> Seq<Entry>
    decreases ranges.len(),
{
    if ranges.len() == 0 {
        entries
    } else {
        asked(
            cache_after(entries, limit, ranges.drop_last(), answers.drop_last()),
            limit,
            ranges.last().clean_text,
            answers.last(),
        )
    }
}

/// The count of questions put to the engine after the clean texts of
/// `ranges` were asked about by way of a cache, one after the other, where
/// `answers[i]` is what the engine says of the clean text of `ranges[i]`: the
/// engine is asked for each text that the cache, as the ranges before it have
/// left it, holds nothing for.
pub open spec fn calls_after(
    calls: nat,
    entries: Seq<Entry>,
    limit: nat,
    ranges: Seq<TextRangeView>,
    answers: Seq<Seq<SuggestionView>>,
) -> nat
    decreases ranges.len(),
{
    if ranges.len() == 0 {
        calls
    } else {
        let before = cache_after(entries, limit, ranges.drop_last(), answers.drop_last());
        counted(
            calls_after(calls, entries, limit, ranges.drop_last(), answers.drop_last()),
            key_index(before, ranges.last().clean_text) < 0,
        )
    }
}

/// The diagnostics of the text ranges `ranges`, in order, where `answers[i]`
/// is what the engine says of the clean text of `ranges[i]`. For each range
/// they are the diagnostics of what is said of its clean text by way of the
/// cache, as the ranges before it have left the cache, mapped to the
/// document.
pub open spec fn diagnostics_in(
    bytes: Seq<u8>,
    rules: Seq<RuleView>,
    entries: Seq<Entry>,
    limit: nat,
    ranges: Seq<TextRangeView>,
    answers: Seq<Seq<SuggestionView>>,
) -> Seq<DiagnosticView>
    decreases ranges.len(),
{
    if ranges.len() == 0 {
        Seq::empty()
    } else {
        let before = cache_after(entries, limit, ranges.drop_last(), answers.drop_last());
        diagnostics_in(bytes, rules, entries, limit, ranges.drop_last(), answers.drop_last())
            + diagnostics_from(
            bytes,
            rules,
            mappings(ranges.last(), said(before, ranges.last().clean_text, answers.last())),
        )
    }
}

/// Each of the diagnostics of a list of suggestions is the diagnostic of the
/// suggestion it carries, and both ends of that suggestion lie in the text.
pub proof fn lemma_diagnostics_carry_their_suggestions(
    bytes: Seq<u8>,
    rules: Seq<RuleView>,
    suggestions: Seq<TextSuggestionView>,
)
    ensures
        forall|i: int|
            0 <= i < diagnostics_from(bytes, rules, suggestions).len() ==> {
                let found = #[trigger] diagnostics_from(bytes, rules, suggestions)[i];
                &&& found == diagnostic_of(bytes, rules, found.data)
                &&& ends_have_places(bytes, found.data.start as int, found.data.end as int)
            },
    decreases suggestions.len(),
{
    if suggestions.len() > 0 {
        lemma_diagnostics_carry_their_suggestions(bytes, rules, suggestions.drop_last());
    }
}

/// The diagnostics of the suggestions `suggestions` in the text of `buffer`,
/// in order. The rule of each is looked up in `validator`; a suggestion that
/// has an end outside the text has no diagnostic.
pub fn suggestions_to_diagnostics(
    buffer: &TextBuffer,
    validator: &Validator,
    suggestions: Vec<TextSuggestion>,
) -> (found: Vec<Diagnostic>)
    ensures
        diagnostic_views(found@) == diagnostics_from(
            buffer@,
            validator.known_rules(),
            text_suggestion_views(suggestions@),
        ),
        forall|i: int|
            0 <= i < found.len() ==> (#[trigger] found[i])@ == diagnostic_of(
                buffer@,
                validator.known_rules(),
                found[i]@.data,
            ) && ends_have_places(buffer@, found[i].data.start as int, found[i].data.end as int),
{
    let ghost all = text_suggestion_views(suggestions@);
    let ghost rules = validator.known_rules();
    let mut suggestions = suggestions;
    let mut found: Vec<Diagnostic> = Vec::new();
    proof {
        assert(all.take(suggestions.len() as int) =~= all);
        assert(diagnostics_from(buffer@, rules, all) + diagnostic_views(found@)
            =~= diagnostics_from(buffer@, rules, all));
    }
    while suggestions.len() > 0
        invariant
            rules == validator.known_rules(),
            suggestions.len() <= all.len(),
            text_suggestion_views(suggestions@) == all.take(suggestions.len() as int),
            diagnostics_from(buffer@, rules, all) == diagnostics_from(
                buffer@,
                rules,
                all.take(suggestions.len() as int),
            ) + diagnostic_views(found@),
        decreases suggestions.len(),
    {
        let ghost count = suggestions.len() as int;
        let ghost later = diagnostic_views(found@);
        let ghost before = text_suggestion_views(suggestions@);
        let suggestion = suggestions.pop().unwrap();
        proof {
            assert(suggestion@ == before[count - 1]);
            assert(all.take(count).drop_last() =~= all.take(count - 1));
            assert(text_suggestion_views(suggestions@) =~= all.take(count - 1));
        }
        match suggestion_to_diagnostic(buffer, validator, suggestion) {
            Some(diagnostic) => {
                found.insert(0, diagnostic);
                proof {
                    assert(diagnostic_views(found@) =~= seq![diagnostic@] + later);
                    assert(diagnostics_from(buffer@, rules, all.take(count - 1)).push(
                        diagnostic@,
                    ) + later =~= diagnostics_from(buffer@, rules, all.take(count - 1)) + (
                    seq![diagnostic@] + later));
                }
            },
            None => {},
        }
    }
    proof {
        assert(all.take(0) =~= Seq::<TextSuggestionView>::empty());
        assert(Seq::<DiagnosticView>::empty() + diagnostic_views(found@) =~= diagnostic_views(
            found@,
        ));
        lemma_diagnostics_carry_their_suggestions(buffer@, rules, all);
        assert forall|i: int| 0 <= i < found.len() implies (#[trigger] found[i])@ == diagnostic_of(
            buffer@,
            rules,
            found[i]@.data,
        ) && ends_have_places(buffer@, found[i].data.start as int, found[i].data.end as int) by {
            assert(found[i]@ == diagnostic_views(found@)[i]);
        }
    }
    found
}

/// An edit of the document as an editor takes it.
pub struct DocumentEdit {
    pub range: Range,
    pub new_text: String,
}

/// A `DocumentEdit` as a plain value.
pub struct DocumentEditView {
    pub range: Range,
    pub new_text: Seq<char>,
}

impl View for DocumentEdit {
    type V = DocumentEditView;

    open spec fn view(&self) -> DocumentEditView {
        DocumentEditView { range: self.range, new_text: self.new_text@ }
    }
}

/// The edits of a list as plain values.
pub open spec fn document_edit_views(list: Seq<DocumentEdit>) -> Seq<DocumentEditView> {
    Seq::new(list.len(), |i: int| list[i]@)
}

/// Whether both ends of each replacement lie in the text.
pub open spec fn all_in_text(bytes: Seq<u8>, replacements: Seq<ReplacementView>) -> bool {
    forall|i: int|
        0 <= i < replacements.len() ==> ends_have_places(
            bytes,
            (#[trigger] replacements[i]).start as int,
            replacements[i].end as int,
        )
}

/// The replacements as edits that an editor takes, in order.
pub open spec fn edits_of(bytes: Seq<u8>, replacements: Seq<ReplacementView>) -> Seq<
    DocumentEditView,
> {
    Seq::new(
        replacements.len(),
        |i: int|
            DocumentEditView {
                range: range_of(bytes, replacements[i].start as int, replacements[i].end as int),
                new_text: replacements[i].replacement,
            },
    )
}

/// The replacements of a suggestion as edits that an editor takes, where
/// both ends of each lie in the text of `buffer`.
pub fn replacements_to_edits(buffer: &TextBuffer, replacements: &Vec<Replacement>) -> (edits:
    Option<Vec<DocumentEdit>>)
    ensures
        edits is Some <==> all_in_text(buffer@, replacement_views(replacements@)),
        edits is Some ==> document_edit_views(edits.unwrap()@) == edits_of(
            buffer@,
            replacement_views(replacements@),
        ),
{
    let ghost views = replacement_views(replacements@);
    let mut edits: Vec<DocumentEdit> = Vec::new();
    let mut i: usize = 0;
    while i < replacements.len()
        invariant
            i <= replacements.len(),
            views == replacement_views(replacements@),
            all_in_text(buffer@, views.take(i as int)),
            document_edit_views(edits@) == edits_of(buffer@, views.take(i as int)),
        decreases replacements.len() - i,
    {
        let replacement = &replacements[i];
        let ghost before = document_edit_views(edits@);
        match offsets_to_range(buffer, replacement.start, replacement.end) {
            None => {
                assert(!ends_have_places(buffer@, views[i as int].start as int, views[i as int].end as int));
                return None;
            },
            Some(range) => {
                edits.push(DocumentEdit { range, new_text: replacement.replacement.clone() });
                proof {
                    assert(document_edit_views(edits@) =~= before.push(
                        DocumentEditView { range, new_text: replacement.replacement@ },
                    ));
                    assert(document_edit_views(edits@) =~= edits_of(buffer@, views.take(i + 1)));
                    assert forall|j: int| 0 <= j < i + 1 implies ends_have_places(
                        buffer@,
                        (#[trigger] views.take(i + 1)[j]).start as int,
                        views.take(i + 1)[j].end as int,
                    ) by {
                        if j < i {
                            assert(views.take(i + 1)[j] == views.take(i as int)[j]);
                        }
                    }
                }
            },
        }
        i = i + 1;
    }
    proof {
        assert(views.take(replacements.len() as int) =~= views);
    }
    Some(edits)
}

/// A diagnostic as an editor hands it back: its source, and the suggestion
/// it carried, if that could still be read.
pub struct Reported {
    pub source: Option<String>,
    pub data: Option<TextSuggestion>,
}

/// A fix that an editor can offer for the diagnostic at `diagnostic` in the
/// list it handed back.
pub struct CodeAction {
    pub title: String,
    pub diagnostic: usize,
    pub edits: Vec<DocumentEdit>,
}

/// A `CodeAction` as a plain value.
pub struct CodeActionView {
    pub title: Seq<char>,
    pub diagnostic: usize,
    pub edits: Seq<DocumentEditView>,
}

impl View for CodeAction {
    type V = CodeActionView;

    open spec fn view(&self) -> CodeActionView {
        CodeActionView {
            title: self.title@,
            diagnostic: self.diagnostic,
            edits: document_edit_views(self.edits@),
        }
    }
}

/// The actions of a list as plain values.
pub open spec fn code_action_views(list: Seq<CodeAction>) -> Seq<CodeActionView> {
    Seq::new(list.len(), |i: int| list[i]@)
}

/// The title of the fix for a diagnostic of the source `source`.
pub open spec fn title_of(source: Option<String>) -> Seq<char> {
    "Autofix "@ + match source {
        Some(source) => source@,
        None => "suggestion"@,
    }
}

/// Whether there is a fix for a diagnostic: it carries a suggestion, and both
/// ends of each replacement of the suggestion lie in the text.
pub open spec fn has_action(bytes: Seq<u8>, reported: Reported) -> bool {
    reported.data is Some && all_in_text(
        bytes,
        replacement_views(reported.data.unwrap().replacements@),
    )
}

/// The fix for the diagnostic at `index`.
pub open spec fn action_of(bytes: Seq<u8>, index: int, reported: Reported) -> CodeActionView {
    CodeActionView {
        title: title_of(reported.source),
        diagnostic: index as usize,
        edits: edits_of(bytes, replacement_views(reported.data.unwrap().replacements@)),
    }
}

/// The fixes for the diagnostics of a list, in order.
pub open spec fn actions_of(bytes: Seq<u8>, reported: Seq<Reported>) -> Seq<CodeActionView>
    decreases reported.len(),
{
    if reported.len() == 0 {
        Seq::empty()
    } else if has_action(bytes, reported.last()) {
        actions_of(bytes, reported.drop_last()).push(
            action_of(bytes, reported.len() - 1, reported.last()),
        )
    } else {
        actions_of(bytes, reported.drop_last())
    }
}

/// The fix for the diagnostic `reported`, which stands at `index` in the list
/// that the editor handed back, if there is one.
pub fn diagnostic_to_action(buffer: &TextBuffer, index: usize, reported: &Reported) -> (action:
    Option<CodeAction>)
    ensures
        action is Some <==> has_action(buffer@, *reported),
        action is Some ==> action.unwrap()@ == action_of(buffer@, index as int, *reported),
{
    let suggestion = match &reported.data {
        Some(suggestion) => suggestion,
        None => {
            return None;
        },
    };
    let edits = match replacements_to_edits(buffer, &suggestion.replacements) {
        Some(edits) => edits,
        None => {
            return None;
        },
    };
    let title = match &reported.source {
        Some(source) => "Autofix ".to_owned().concat(source.as_str()),
        None => "Autofix ".to_owned().concat("suggestion"),
    };
    Some(CodeAction { title, diagnostic: index, edits })
}

/// A document at one version: its text and the syntax tree of that text.
pub struct Document {
    version: i32,
    rope: TextBuffer,
    tree: tree_sitter::Tree,
}

impl Document {
    /// The text of the document, in UTF-8.
    pub closed spec fn bytes(&self) -> Seq<u8> {
        self.rope@
    }

    /// The version of the document.
    pub closed spec fn spec_version(&self) -> i32 {
        self.version
    }

    /// The syntax tree of the document as plain nodes.
    pub closed spec fn nodes(&self) -> SyntaxNode {
        tree_nodes(self.tree)
    }

    /// The text ranges of the prose regions of the document, in document
    /// order.
    pub open spec fn ranges(&self) -> Seq<TextRangeView> {
        extracted(self.bytes(), self.nodes().regions_below(self.nodes().children.len() as int))
    }

    /// A document of the text of `buffer` at the version `version`, with the
    /// tree that a parser gave for that text, if it gave one.
    pub fn with_tree(version: i32, buffer: TextBuffer, tree: Option<tree_sitter::Tree>) -> (out:
        Result<Document, EditError>)
        ensures
            out is Ok <==> tree is Some,
            out is Ok ==> out->Ok_0.bytes() == buffer@,
            out is Ok ==> out->Ok_0.spec_version() == version,
            out is Ok ==> out->Ok_0.nodes() == tree_nodes(tree->Some_0),
            out is Err ==> out->Err_0 is ParserUnavailable,
    {
        match tree {
            Some(tree) => Ok(Document { version, rope: buffer, tree }),
            None => Err(EditError::ParserUnavailable),
        }
    }

    /// A document of the text `text` at version zero, with the tree that the
    /// grammar of Markdown makes of the text.
    pub fn new(text: String) -> (document: Document)
        ensures
            document.bytes() == encode_utf8(text@),
            document.spec_version() == 0,
            document.nodes() == markdown_nodes(encode_utf8(text@)),
    {
        let buffer = TextBuffer::from_text(text.as_str());
        let tree = parse_buffer(&buffer, None);
        Document { version: 0, rope: buffer, tree: tree.unwrap() }
    }

    /// The version of the document.
    pub fn version(&self) -> (version: i32)
        ensures
            version == self.spec_version(),
    {
        self.version
    }

    /// The text of the document.
    pub fn buffer(&self) -> (buffer: &TextBuffer)
        ensures
            buffer@ == self.bytes(),
    {
        &self.rope
    }

    /// The document after the edits `edits`, applied one after the other, at
    /// the version `version`; this document stays as it was. There is such a
    /// document wherever the places of each edit lie in the text that it is
    /// applied to; else no edit is applied and the parser is not called. The
    /// text is that of a plain string to which the same edits are applied.
    /// The tree is told of each edit of a range and the text is parsed again
    /// with that tree to reuse; after an edit of the whole text it is parsed
    /// anew. Without edits the document and its version are unchanged.
    pub fn edit(&self, version: i32, edits: &Vec<TextEdit>) -> (out: Result<Document, EditError>)
        ensures
            out is Ok <==> edited_all(self.bytes(), edits@) is Some,
            out is Err ==> out->Err_0 is PositionOutOfRange,
            out is Ok ==> Some(out->Ok_0.bytes()) == edited_all(self.bytes(), edits@),
            out is Ok ==> out->Ok_0.spec_version() == if edits.len() == 0 {
                self.spec_version()
            } else {
                version
            },
            edits.len() == 0 ==> out->Ok_0.nodes() == self.nodes(),
            out is Ok && edits.len() > 0 && edits[edits.len() - 1].range is None
                ==> out->Ok_0.nodes() == markdown_nodes(out->Ok_0.bytes()),
    {
        let steps = match apply_edits(&self.rope, edits) {
            Ok(steps) => steps,
            Err(error) => {
                return Err(error);
            },
        };
        let mut tree = tree_clone(&self.tree);
        let mut i: usize = 0;
        while i < steps.len()
            invariant
                i <= steps.len(),
                steps.len() == edits.len(),
                edited_all(self.rope@, edits@) is Some,
                i == 0 ==> tree_nodes(tree) == tree_nodes(self.tree),
                i > 0 && edits[i - 1].range is None ==> tree_nodes(tree) == markdown_nodes(
                    steps[i - 1].buffer@,
                ),
                forall|k: int|
                    0 <= k < steps.len() ==> Some((#[trigger] steps[k]).buffer@) == edited_all(
                        self.rope@,
                        edits@.take(k + 1),
                    ),
                forall|k: int|
                    0 <= k < steps.len() ==> ((#[trigger] steps[k]).tree_edit is None
                        <==> edits[k].range is None),
            decreases steps.len() - i,
        {
            let step = &steps[i];
            proof {
                assert(edits@.take(i + 1).drop_last() =~= edits@.take(i as int));
                assert(edits@.take(i + 1).last() == edits[i as int]);
            }
            let parsed = match step.tree_edit {
                Some(change) => {
                    tree_edit(&mut tree, &change);
                    parse_buffer(&step.buffer, Some(&tree))
                },
                None => parse_buffer(&step.buffer, None),
            };
            tree = parsed.unwrap();
            i = i + 1;
        }
        if steps.len() == 0 {
            proof {
                assert(edits@ =~= Seq::<TextEdit>::empty());
            }
            Document::with_tree(self.version, self.rope.duplicate(), Some(tree))
        } else {
            proof {
                assert(edits@.take(edits.len() as int) =~= edits@);
            }
            let rope = steps[steps.len() - 1].buffer.duplicate();
            Document::with_tree(version, rope, Some(tree))
        }
    }

    /// The clean text of each prose region of the document, in document
    /// order: what is extracted from the text of the document and the nodes
    /// of its tree. Each text range accounts for every byte of its clean
    /// text, and the chunks of each ascend where the tree is ordered.
    pub fn text_ranges(&self) -> (ranges: Vec<TextRange>)
        ensures
            text_range_views(ranges@) == self.ranges(),
            forall|i: int| 0 <= i < ranges.len() ==> (#[trigger] ranges[i]).well_formed(),
            self.nodes().ordered() ==> forall|i: int|
                0 <= i < ranges.len() ==> ascending((#[trigger] ranges[i]).chunks@),
    {
        let syntax = tree_syntax(&self.tree);
        extract(&self.rope, &syntax)
    }

    /// Whether the tree of the document is ordered, in which case the chunks
    /// of each of its text ranges ascend.
    pub fn is_ordered(&self) -> (b: bool)
        ensures
            b == self.nodes().ordered(),
    {
        let syntax = tree_syntax(&self.tree);
        tree_is_ordered(&syntax)
    }

    /// The syntax tree of the document as plain nodes.
    pub fn syntax(&self) -> (plain: SyntaxNode)
        ensures
            plain == self.nodes(),
    {
        tree_syntax(&self.tree)
    }

    /// The diagnostics of the document. The clean text of each prose region
    /// is asked about by way of the validator's cache, in document order, and
    /// what is said of it is mapped to the document and turned into
    /// diagnostics. What the engine says of a text is up to the engine. So
    /// there are answers of the engine, one for each region, such that the
    /// diagnostics are those of `diagnostics_in` and the cache afterwards is
    /// that of `cache_after`; an answer counts only where the cache held
    /// nothing for the text. Each diagnostic is the diagnostic of the
    /// suggestion it carries, and both ends of that suggestion lie in the
    /// text.
    pub fn diagnostics(&self, validator: &mut Validator) -> (found: Vec<Diagnostic>)
        ensures
            old(validator).well_formed() ==> final(validator).well_formed(),
            final(validator).known_rules() == old(validator).known_rules(),
            final(validator).cache_limit() == old(validator).cache_limit(),
            exists|answers: Seq<Seq<SuggestionView>>|
                {
                    &&& answers.len() == self.ranges().len()
                    &&& final(validator).cached() == #[trigger] cache_after(
                        old(validator).cached(),
                        old(validator).cache_limit(),
                        self.ranges(),
                        answers,
                    )
                    &&& diagnostic_views(found@) == diagnostics_in(
                        self.bytes(),
                        old(validator).known_rules(),
                        old(validator).cached(),
                        old(validator).cache_limit(),
                        self.ranges(),
                        answers,
                    )
                    &&& final(validator).spec_engine_calls() == calls_after(
                        old(validator).spec_engine_calls(),
                        old(validator).cached(),
                        old(validator).cache_limit(),
                        self.ranges(),
                        answers,
                    )
                },
            forall|i: int|
                0 <= i < found.len() ==> (#[trigger] found[i])@ == diagnostic_of(
                    self.bytes(),
                    old(validator).known_rules(),
                    found[i]@.data,
                ) && ends_have_places(
                    self.bytes(),
                    found[i].data.start as int,
                    found[i].data.end as int,
                ),
    {
        let ghost rules = validator.known_rules();
        let ghost entries = validator.cached();
        let ghost limit = validator.cache_limit();
        let ghost calls = validator.spec_engine_calls();
        let ranges = self.text_ranges();
        let ghost views = text_range_views(ranges@);
        let ghost mut answers: Seq<Seq<SuggestionView>> = Seq::empty();
        let mut found: Vec<Diagnostic> = Vec::new();
        let mut i: usize = 0;
        proof {
            assert(views.take(0) =~= Seq::<TextRangeView>::empty());
            assert(diagnostic_views(found@) =~= Seq::<DiagnosticView>::empty());
        }
        while i < ranges.len()
            invariant
                i <= ranges.len(),
                views == text_range_views(ranges@),
                old(validator).well_formed() ==> validator.well_formed(),
                validator.known_rules() == rules,
                validator.cache_limit() == limit,
                answers.len() == i,
                validator.cached() == cache_after(entries, limit, views.take(i as int), answers),
                validator.spec_engine_calls() == calls_after(
                    calls,
                    entries,
                    limit,
                    views.take(i as int),
                    answers,
                ),
                diagnostic_views(found@) == diagnostics_in(
                    self.rope@,
                    rules,
                    entries,
                    limit,
                    views.take(i as int),
                    answers,
                ),
                forall|k: int|
                    0 <= k < found.len() ==> (#[trigger] found[k])@ == diagnostic_of(
                        self.rope@,
                        rules,
                        found[k]@.data,
                    ) && ends_have_places(
                        self.rope@,
                        found[k].data.start as int,
                        found[k].data.end as int,
                    ),
            decreases ranges.len() - i,
        {
            let ghost before = validator.cached();
            let ghost earlier = diagnostic_views(found@);
            let ghost text = ranges[i as int].clean_text@;
            let suggestions = validator.suggest(&ranges[i]);
            let ghost answer = choose|answer: Seq<SuggestionView>|
                validator.cached() == #[trigger] asked(before, limit, text, answer)
                    && text_suggestion_views(suggestions@) == mappings(
                    ranges[i as int]@,
                    said(before, text, answer),
                );
            proof {
                assert(views[i as int] == ranges[i as int]@);
                assert(views.take(i + 1).drop_last() =~= views.take(i as int));
                assert(views.take(i + 1).last() == views[i as int]);
                assert(answers.push(answer).drop_last() =~= answers);
                answers = answers.push(answer);
            }
            let mut later = suggestions_to_diagnostics(&self.rope, validator, suggestions);
            let ghost added = diagnostic_views(later@);
            found.append(&mut later);
            proof {
                assert(diagnostic_views(found@) =~= earlier + added);
            }
            i = i + 1;
        }
        proof {
            assert(views.take(ranges.len() as int) =~= views);
            assert(validator.cached() == cache_after(entries, limit, self.ranges(), answers));
        }
        found
    }

    /// The fixes that can be offered for the diagnostics `diagnostics` that
    /// an editor handed back: one for each that still carries its suggestion
    /// and whose replacements lie in the text, in order.
    pub fn actions(&self, diagnostics: &Vec<Reported>) -> (actions: Vec<CodeAction>)
        ensures
            code_action_views(actions@) == actions_of(self.bytes(), diagnostics@),
    {
        let mut actions: Vec<CodeAction> = Vec::new();
        let mut i: usize = 0;
        proof {
            assert(diagnostics@.take(0) =~= Seq::<Reported>::empty());
        }
        while i < diagnostics.len()
            invariant
                i <= diagnostics.len(),
                code_action_views(actions@) == actions_of(self.rope@, diagnostics@.take(i as int)),
            decreases diagnostics.len() - i,
        {
            proof {
                assert(diagnostics@.take(i + 1).drop_last() =~= diagnostics@.take(i as int));
            }
            let ghost before = code_action_views(actions@);
            match diagnostic_to_action(&self.rope, i, &diagnostics[i]) {
                Some(action) => {
                    actions.push(action);
                    assert(code_action_views(actions@) =~= before.push(action@));
                },
                None => {},
            }
            i = i + 1;
        }
        proof {
            assert(diagnostics@.take(diagnostics.len() as int) =~= diagnostics@);
        }
        actions
    }
}

} // verus!
