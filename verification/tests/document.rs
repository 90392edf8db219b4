use prosemd::buffer::TextBuffer;
use prosemd::document::{
    apply_edit, apply_edits, category_severity, diagnostic_for, diagnostic_to_action,
    edit_fulltext, edit_range, get_chunk, offset_to_point, offset_to_position, offsets_to_range,
    position_to_offset, replacements_to_edits, Document, EditError,
    Position, Range, Reported, Severity, TextEdit,
};
use prosemd::engine::RuleInfo;
use prosemd::validator::{Replacement, TextSuggestion};

fn at(line: u32, character: u32) -> Position {
    Position { line, character }
}

fn range(from: (u32, u32), to: (u32, u32)) -> Range {
    Range { start: at(from.0, from.1), end: at(to.0, to.1) }
}

fn change(from: (u32, u32), to: (u32, u32), text: &str) -> TextEdit {
    TextEdit { range: Some(range(from, to)), text: text.to_string() }
}

fn whole(text: &str) -> TextEdit {
    TextEdit { range: None, text: text.to_string() }
}

fn place(position: Position) -> (u32, u32) {
    (position.line, position.character)
}

fn places(range: Range) -> ((u32, u32), (u32, u32)) {
    (place(range.start), place(range.end))
}

fn out_of_range<T>(result: Result<T, EditError>) -> bool {
    matches!(result, Err(EditError::PositionOutOfRange))
}

fn sample() -> TextBuffer {
    // bytes: h(0) é(1,2) l(3) l(4) o(5) \n(6) w(7) ö(8,9) r(10) l(11) d(12) \n(13)
    TextBuffer::from_text("héllo\nwörld\n")
}

// A plain string as the model of a buffer: the offset of a place, found by
// walking the text.
fn model_offset(text: &str, position: Position) -> Option<usize> {
    let mut offset = 0;
    let mut line = 0;
    if position.line as usize > text.matches('\n').count() + 1 {
        return None;
    }
    if position.line as usize == text.matches('\n').count() + 1 {
        offset = text.len();
    } else {
        for c in text.chars() {
            if line == position.line {
                break;
            }
            if c == '\n' {
                line += 1;
            }
            offset += c.len_utf8();
        }
    }
    let mut units = 0;
    for c in text[offset..].chars() {
        if units >= position.character as usize {
            break;
        }
        units += c.len_utf16();
        offset += c.len_utf8();
    }
    if units < position.character as usize {
        return None;
    }
    Some(offset)
}

fn model_edit(text: &str, edit: &TextEdit) -> Option<String> {
    match edit.range {
        None => Some(edit.text.clone()),
        Some(range) => {
            let start = model_offset(text, range.start)?;
            let end = model_offset(text, range.end)?;
            if start > end {
                return None;
            }
            let mut edited = text.to_string();
            edited.replace_range(start..end, &edit.text);
            Some(edited)
        }
    }
}

fn suggestion(start: usize, end: usize, replacements: Vec<Replacement>) -> TextSuggestion {
    TextSuggestion {
        source: "Agreement".to_string(),
        message: "Does not agree".to_string(),
        replacements,
        start,
        end,
    }
}

fn rule(category_type: Option<&str>) -> RuleInfo {
    RuleInfo {
        id: "grammar/agreement/1".to_string(),
        name: "Agreement".to_string(),
        category_name: "Grammar".to_string(),
        category_type: category_type.map(|t| t.to_string()),
        enabled: true,
    }
}

#[test]
fn places_are_turned_into_byte_offsets() {
    let buffer = sample();
    for (line, character, offset) in [
        (0, 0, 0),
        (0, 1, 1),
        (0, 2, 3),
        (0, 5, 6),
        (0, 6, 7),
        (0, 12, 14),
        (1, 0, 7),
        (1, 2, 10),
        (1, 5, 13),
        (1, 6, 14),
        (2, 0, 14),
        (3, 0, 14),
    ] {
        assert_eq!(position_to_offset(&buffer, at(line, character)).ok(), Some(offset));
    }
}

#[test]
fn column_counts_two_for_a_character_outside_the_basic_plane() {
    let buffer = TextBuffer::from_text("a😀b\n😀😀");
    assert_eq!(position_to_offset(&buffer, at(0, 1)).ok(), Some(1));
    assert_eq!(position_to_offset(&buffer, at(0, 3)).ok(), Some(5));
    assert_eq!(position_to_offset(&buffer, at(0, 4)).ok(), Some(6));
    assert_eq!(position_to_offset(&buffer, at(1, 2)).ok(), Some(11));
    assert_eq!(position_to_offset(&buffer, at(1, 4)).ok(), Some(15));
    assert!(out_of_range(position_to_offset(&buffer, at(1, 5))));
}

#[test]
fn place_outside_the_text_is_out_of_range() {
    let buffer = sample();
    assert!(out_of_range(position_to_offset(&buffer, at(0, 13))));
    assert!(out_of_range(position_to_offset(&buffer, at(1, 7))));
    assert!(out_of_range(position_to_offset(&buffer, at(2, 1))));
    assert!(out_of_range(position_to_offset(&buffer, at(3, 1))));
    assert!(out_of_range(position_to_offset(&buffer, at(4, 0))));
    assert!(out_of_range(position_to_offset(&buffer, at(u32::MAX, 0))));
    assert!(out_of_range(position_to_offset(&buffer, at(0, u32::MAX))));
    let empty = TextBuffer::from_text("");
    assert_eq!(position_to_offset(&empty, at(0, 0)).ok(), Some(0));
    assert_eq!(position_to_offset(&empty, at(1, 0)).ok(), Some(0));
    assert!(out_of_range(position_to_offset(&empty, at(0, 1))));
    assert!(out_of_range(position_to_offset(&empty, at(2, 0))));
}

#[test]
fn places_agree_with_a_walk_over_the_text() {
    let text = "one\nzwei ä 😀 drei\n\nlast";
    let buffer = TextBuffer::from_text(text);
    for line in 0..7 {
        for character in 0..24 {
            assert_eq!(
                position_to_offset(&buffer, at(line, character)).ok(),
                model_offset(text, at(line, character))
            );
        }
    }
}

#[test]
fn offsets_are_turned_into_rows_and_byte_columns() {
    let buffer = sample();
    for (offset, row, column) in [(0, 0, 0), (3, 0, 3), (6, 0, 6), (7, 1, 0), (10, 1, 3), (14, 2, 0)] {
        let point = offset_to_point(&buffer, offset).unwrap();
        assert_eq!((point.row, point.column), (row, column));
    }
    assert!(offset_to_point(&buffer, 2).is_none());
    assert!(offset_to_point(&buffer, 9).is_none());
    assert!(offset_to_point(&buffer, 15).is_none());
}

#[test]
fn offsets_are_turned_into_places_with_columns_in_utf16_units() {
    let buffer = sample();
    for (offset, line, character) in
        [(0, 0, 0), (1, 0, 1), (3, 0, 2), (6, 0, 5), (7, 1, 0), (8, 1, 1), (10, 1, 2), (13, 1, 5), (14, 2, 0)]
    {
        assert_eq!(place(offset_to_position(&buffer, offset).unwrap()), (line, character));
    }
    assert!(offset_to_position(&buffer, 2).is_none());
    assert!(offset_to_position(&buffer, 9).is_none());
    assert!(offset_to_position(&buffer, 15).is_none());
    // a character of two bytes is one code unit, one of four bytes is two
    let accented = TextBuffer::from_text("\u{e9}b");
    assert_eq!(accented.len(), 3);
    assert_eq!(place(offset_to_position(&accented, 2).unwrap()), (0, 1));
    assert_eq!(position_to_offset(&accented, at(0, 1)).ok(), Some(2));
    let astral = TextBuffer::from_text("a😀b\n😀😀x");
    assert_eq!(place(offset_to_position(&astral, 5).unwrap()), (0, 3));
    assert_eq!(place(offset_to_position(&astral, 6).unwrap()), (0, 4));
    assert_eq!(place(offset_to_position(&astral, 15).unwrap()), (1, 4));
    assert_eq!(place(offset_to_position(&astral, 16).unwrap()), (1, 5));
}

#[test]
fn place_of_an_offset_names_that_offset() {
    let text = "one\nzwei ä 😀 drei\n\nlast é";
    let buffer = TextBuffer::from_text(text);
    for (offset, _) in text.char_indices().chain(std::iter::once((text.len(), ' '))) {
        let position = offset_to_position(&buffer, offset).unwrap();
        assert_eq!(position_to_offset(&buffer, position).ok(), Some(offset));
        assert_eq!(model_offset(text, position), Some(offset));
    }
}

#[test]
fn byte_ranges_are_turned_into_ranges_of_places() {
    let buffer = sample();
    assert_eq!(places(offsets_to_range(&buffer, 3, 10).unwrap()), ((0, 2), (1, 2)));
    assert_eq!(places(offsets_to_range(&buffer, 10, 3).unwrap()), ((1, 2), (0, 2)));
    assert!(offsets_to_range(&buffer, 2, 10).is_none());
    assert!(offsets_to_range(&buffer, 3, 15).is_none());
}

#[test]
fn chunks_for_the_parser_start_at_the_offset_asked_for() {
    let buffer = sample();
    assert_eq!(get_chunk(&buffer, 0), "héllo\nwörld\n");
    assert_eq!(get_chunk(&buffer, 10), "rld\n");
    assert_eq!(get_chunk(&buffer, 14), "");
    assert_eq!(get_chunk(&buffer, 9), "");
    assert_eq!(get_chunk(&buffer, 99), "");
}

#[test]
fn range_edit_replaces_the_range_and_describes_itself() {
    let buffer = sample();
    let edited = edit_range(&buffer, range((0, 1), (0, 2)), "e").ok().unwrap();
    assert_eq!(edited.buffer.text(), "hello\nwörld\n");
    assert_eq!(buffer.text(), "héllo\nwörld\n");
    let told = edited.tree_edit.unwrap();
    assert_eq!((told.start_byte, told.old_end_byte, told.new_end_byte), (1, 3, 2));
    assert_eq!((told.start_position.row, told.start_position.column), (0, 1));
    assert_eq!((told.old_end_position.row, told.old_end_position.column), (0, 3));
    assert_eq!((told.new_end_position.row, told.new_end_position.column), (0, 2));
}

#[test]
fn range_edit_over_lines_describes_the_new_end() {
    let buffer = sample();
    let edited = edit_range(&buffer, range((0, 5), (1, 2)), "\na\nbö").ok().unwrap();
    assert_eq!(edited.buffer.text(), "héllo\na\nbörld\n");
    let told = edited.tree_edit.unwrap();
    assert_eq!((told.start_byte, told.old_end_byte, told.new_end_byte), (6, 10, 12));
    assert_eq!((told.start_position.row, told.start_position.column), (0, 6));
    assert_eq!((told.old_end_position.row, told.old_end_position.column), (1, 3));
    assert_eq!((told.new_end_position.row, told.new_end_position.column), (2, 3));
    let appended = edit_range(&buffer, range((3, 0), (3, 0)), "end").ok().unwrap();
    assert_eq!(appended.buffer.text(), "héllo\nwörld\nend");
    let told = appended.tree_edit.unwrap();
    assert_eq!((told.start_byte, told.old_end_byte, told.new_end_byte), (14, 14, 17));
    assert_eq!((told.new_end_position.row, told.new_end_position.column), (2, 3));
}

#[test]
fn malformed_range_edit_is_refused() {
    let buffer = sample();
    assert!(out_of_range(edit_range(&buffer, range((1, 0), (0, 0)), "x")));
    assert!(out_of_range(edit_range(&buffer, range((0, 3), (0, 2)), "x")));
    assert!(out_of_range(edit_range(&buffer, range((0, 0), (0, 13)), "x")));
    assert!(out_of_range(edit_range(&buffer, range((0, 13), (0, 13)), "x")));
    assert!(out_of_range(edit_range(&buffer, range((0, 0), (4, 0)), "x")));
    assert!(out_of_range(edit_range(&buffer, range((9, 9), (9, 9)), "x")));
    assert_eq!(buffer.text(), "héllo\nwörld\n");
}

#[test]
fn full_text_edit_replaces_everything() {
    let edited = edit_fulltext("new text");
    assert_eq!(edited.buffer.text(), "new text");
    assert!(edited.tree_edit.is_none());
    let buffer = sample();
    let edited = apply_edit(&buffer, &whole("all new")).ok().unwrap();
    assert_eq!(edited.buffer.text(), "all new");
    assert!(edited.tree_edit.is_none());
    let edited = apply_edit(&buffer, &change((1, 0), (1, 1), "W")).ok().unwrap();
    assert_eq!(edited.buffer.text(), "héllo\nWörld\n");
    assert!(edited.tree_edit.is_some());
    assert!(out_of_range(apply_edit(&buffer, &change((5, 0), (5, 1), "W"))));
}

#[test]
fn edits_give_the_text_of_a_plain_string_edited_likewise() {
    let start = "héllo\nwörld\n";
    let edits = vec![
        change((0, 0), (0, 1), "H"),
        change((1, 5), (1, 5), " 😀!"),
        change((1, 6), (1, 8), "🎉🎉"),
        change((0, 5), (1, 0), ", "),
        change((0, 0), (0, 0), "# Title\n\n"),
        change((2, 3), (2, 17), ""),
        whole("Teh cat sat.\nOn teh mat.\n"),
        change((1, 3), (1, 6), "the"),
        change((3, 0), (3, 0), "The end"),
        change((2, 0), (2, 7), ""),
    ];
    let steps = apply_edits(&TextBuffer::from_text(start), &edits).ok().unwrap();
    assert_eq!(steps.len(), edits.len());
    let mut model = start.to_string();
    for (step, edit) in steps.iter().zip(edits.iter()) {
        model = model_edit(&model, edit).unwrap();
        assert_eq!(step.buffer.text(), model);
        assert_eq!(step.tree_edit.is_some(), edit.range.is_some());
    }
    assert_eq!(model, "Teh cat sat.\nOn the mat.\n");
    assert!(apply_edits(&TextBuffer::from_text(start), &Vec::new()).ok().unwrap().is_empty());
}

#[test]
fn edits_are_refused_as_a_whole_where_one_is_out_of_range() {
    let buffer = sample();
    let edits = vec![
        change((0, 0), (0, 1), "H"),
        change((1, 0), (1, 9), "x"),
        change((0, 0), (0, 1), "J"),
    ];
    assert!(out_of_range(apply_edits(&buffer, &edits)));
    let edits = vec![whole("a"), change((0, 1), (0, 1), "b"), change((0, 3), (0, 3), "c")];
    assert!(out_of_range(apply_edits(&buffer, &edits)));
    let edits = vec![whole("a"), change((0, 1), (0, 1), "b"), change((0, 2), (0, 2), "c")];
    assert_eq!(apply_edits(&buffer, &edits).ok().unwrap()[2].buffer.text(), "abc");
    assert_eq!(buffer.text(), "héllo\nwörld\n");
}

#[test]
fn new_document_has_version_zero_and_its_text() {
    let document = Document::new("Teh cat sat.\n".to_string());
    assert_eq!(document.version(), 0);
    assert_eq!(document.buffer().text(), "Teh cat sat.\n");
    let syntax = document.syntax();
    assert_eq!((syntax.start, syntax.end), (0, 13));
    let empty = Document::new(String::new());
    assert_eq!(empty.buffer().len(), 0);
    assert!(empty.text_ranges().is_empty());
}

#[test]
fn range_edit_replaces_the_range_and_sets_the_version() {
    let document = Document::new("Teh cat sat.\n".to_string());
    let edits = vec![change((0, 0), (0, 3), "The")];
    let edited = document.edit(7, &edits).ok().unwrap();
    assert_eq!(edited.version(), 7);
    assert_eq!(edited.buffer().text(), "The cat sat.\n");
    assert_eq!(edited.text_ranges()[0].clean_text, "The cat sat.");
    assert_eq!(document.version(), 0);
    assert_eq!(document.buffer().text(), "Teh cat sat.\n");
    assert_eq!(document.text_ranges()[0].clean_text, "Teh cat sat.");
}

#[test]
fn tree_follows_the_text_through_a_batch_of_edits() {
    let document = Document::new("One line.\n".to_string());
    let edits = vec![
        change((0, 0), (0, 0), "# Title\n\n"),
        change((2, 4), (2, 8), "*line*"),
        change((3, 0), (3, 0), "\nAnd `code` too.\n"),
        change((2, 0), (2, 3), "Two"),
    ];
    let edited = document.edit(3, &edits).ok().unwrap();
    let text = "# Title\n\nTwo *line*.\n\nAnd `code` too.\n";
    assert_eq!(edited.buffer().text(), text);
    assert_eq!(edited.version(), 3);
    let fresh = Document::new(text.to_string());
    let ours = edited.text_ranges();
    let theirs = fresh.text_ranges();
    assert_eq!(ours.len(), 3);
    assert_eq!(ours.len(), theirs.len());
    for (one, other) in ours.iter().zip(theirs.iter()) {
        assert_eq!(one.clean_text, other.clean_text);
        assert_eq!(one.chunks.len(), other.chunks.len());
        for (a, b) in one.chunks.iter().zip(other.chunks.iter()) {
            assert_eq!((a.clean_length, a.start, a.end), (b.clean_length, b.start, b.end));
        }
    }
    assert_eq!(ours[0].clean_text, " Title");
    assert_eq!(ours[1].clean_text, "Two line.");
    assert_eq!(ours[2].clean_text, "And [code] too.");
}

#[test]
fn full_text_edit_replaces_the_document() {
    let document = Document::new("Old text.\n".to_string());
    let edited = document.edit(2, &vec![whole("New *text*.\n")]).ok().unwrap();
    assert_eq!(edited.version(), 2);
    assert_eq!(edited.buffer().text(), "New *text*.\n");
    assert_eq!(edited.text_ranges()[0].clean_text, "New text.");
}

#[test]
fn no_edits_leave_the_document_and_its_version() {
    let document = Document::new("Teh cat sat.\n".to_string());
    let first = document.edit(4, &vec![whole("Next.\n")]).ok().unwrap();
    let same = first.edit(9, &Vec::new()).ok().unwrap();
    assert_eq!(same.version(), 4);
    assert_eq!(same.buffer().text(), "Next.\n");
}

#[test]
fn edit_out_of_range_fails_and_leaves_the_document() {
    let document = Document::new("Teh cat sat.\n".to_string());
    let edits = vec![change((0, 0), (0, 3), "The"), change((5, 0), (5, 1), "x")];
    assert!(out_of_range(document.edit(1, &edits)));
    assert!(out_of_range(document.edit(1, &vec![change((0, 3), (0, 0), "x")])));
    assert_eq!(document.version(), 0);
    assert_eq!(document.buffer().text(), "Teh cat sat.\n");
    assert_eq!(document.text_ranges()[0].clean_text, "Teh cat sat.");
}

#[test]
fn code_span_edited_away_leaves_the_chunks_behind_it_in_place() {
    let document = Document::new("Use `x` here.\n".to_string());
    let before = document.text_ranges();
    assert_eq!(before[0].clean_text, "Use [code] here.");
    let narrowed = document.edit(1, &vec![change((0, 5), (0, 6), "")]).ok().unwrap();
    assert_eq!(narrowed.buffer().text(), "Use `` here.\n");
    for range in narrowed.text_ranges() {
        let total: usize = range.chunks.iter().map(|c| c.clean_length).sum();
        assert_eq!(total, range.clean_text.len());
        assert!(range.chunks.iter().all(|c| c.start <= c.end && c.end <= 13));
        assert!(range.chunks.windows(2).all(|pair| pair[0].end <= pair[1].start));
        assert!(range.clean_text.ends_with(" here."));
        let last = range.chunks.last().unwrap();
        assert_eq!(&"Use `` here.\n"[last.end - 6..last.end], " here.");
    }
    let removed = document.edit(2, &vec![change((0, 4), (0, 7), "")]).ok().unwrap();
    assert_eq!(removed.buffer().text(), "Use  here.\n");
    let ranges = removed.text_ranges();
    assert_eq!(ranges.len(), 1);
    assert_eq!(ranges[0].clean_text, "Use  here.");
    let total: usize = ranges[0].chunks.iter().map(|c| c.clean_length).sum();
    assert_eq!(total, 10);
    assert_eq!(ranges[0].chunks.last().unwrap().end, 10);
}

#[test]
fn categories_of_grammar_and_inconsistency_are_errors() {
    assert!(matches!(category_severity("grammar"), Severity::Error));
    assert!(matches!(category_severity("inconsistency"), Severity::Error));
    assert!(matches!(category_severity("misspelling"), Severity::Warning));
    assert!(matches!(category_severity("typographical"), Severity::Warning));
    assert!(matches!(category_severity("style"), Severity::Warning));
    assert!(matches!(category_severity(""), Severity::Warning));
    assert!(matches!(category_severity("Grammar"), Severity::Warning));
}

#[test]
fn diagnostic_names_the_places_and_the_rule_of_its_suggestion() {
    let buffer = TextBuffer::from_text("Teh cat sat.\nNext line.\n");
    let grammar = rule(Some("grammar"));
    let found = diagnostic_for(&buffer, Some(&grammar), suggestion(13, 17, Vec::new())).unwrap();
    assert_eq!(places(found.range), ((1, 0), (1, 4)));
    assert!(matches!(found.severity, Severity::Error));
    assert_eq!(found.code, Some("Agreement".to_string()));
    assert_eq!(found.source, Some("grammar".to_string()));
    assert_eq!(found.message, "Does not agree");
    assert_eq!((found.data.start, found.data.end), (13, 17));
    assert_eq!(found.data.source, "Agreement");
    let spelling = rule(Some("misspelling"));
    let found = diagnostic_for(&buffer, Some(&spelling), suggestion(0, 3, Vec::new())).unwrap();
    assert_eq!(places(found.range), ((0, 0), (0, 3)));
    assert!(matches!(found.severity, Severity::Warning));
    assert_eq!(found.source, Some("misspelling".to_string()));
    let untyped = rule(None);
    let found = diagnostic_for(&buffer, Some(&untyped), suggestion(0, 3, Vec::new())).unwrap();
    assert!(matches!(found.severity, Severity::Warning));
    assert_eq!(found.code, Some("Agreement".to_string()));
    assert_eq!(found.source, None);
    let found = diagnostic_for(&buffer, None, suggestion(0, 24, Vec::new())).unwrap();
    assert_eq!(places(found.range), ((0, 0), (2, 0)));
    assert!(matches!(found.severity, Severity::Warning));
    assert_eq!(found.code, None);
    assert_eq!(found.source, None);
}

#[test]
fn diagnostic_behind_a_character_outside_ascii_has_its_column_in_utf16_units() {
    let buffer = TextBuffer::from_text("Héllo 😀 teh cat.\n");
    let found = diagnostic_for(&buffer, None, suggestion(12, 15, Vec::new())).unwrap();
    assert_eq!(places(found.range), ((0, 9), (0, 12)));
    let replacements = vec![Replacement { replacement: "the".to_string(), start: 12, end: 15 }];
    let edits = replacements_to_edits(&buffer, &replacements).unwrap();
    assert_eq!(places(edits[0].range), ((0, 9), (0, 12)));
    let fixed = edit_range(&buffer, edits[0].range, &edits[0].new_text).ok().unwrap();
    assert_eq!(fixed.buffer.text(), "Héllo 😀 the cat.\n");
}

#[test]
fn suggestion_outside_the_text_has_no_diagnostic() {
    let buffer = TextBuffer::from_text("Héllo");
    assert!(diagnostic_for(&buffer, None, suggestion(0, 7, Vec::new())).is_none());
    assert!(diagnostic_for(&buffer, None, suggestion(9, 9, Vec::new())).is_none());
    assert!(diagnostic_for(&buffer, None, suggestion(2, 6, Vec::new())).is_none());
    assert!(diagnostic_for(&buffer, None, suggestion(0, 6, Vec::new())).is_some());
}

#[test]
fn replacements_become_edits_at_their_places() {
    let buffer = TextBuffer::from_text("Teh cat sat.\nOn teh mat.\n");
    let replacements = vec![
        Replacement { replacement: "The".to_string(), start: 0, end: 3 },
        Replacement { replacement: "the".to_string(), start: 16, end: 19 },
    ];
    let edits = replacements_to_edits(&buffer, &replacements).unwrap();
    assert_eq!(edits.len(), 2);
    assert_eq!(places(edits[0].range), ((0, 0), (0, 3)));
    assert_eq!(edits[0].new_text, "The");
    assert_eq!(places(edits[1].range), ((1, 3), (1, 6)));
    assert_eq!(edits[1].new_text, "the");
    assert!(replacements_to_edits(&buffer, &Vec::new()).unwrap().is_empty());
    let beyond = vec![
        Replacement { replacement: "The".to_string(), start: 0, end: 3 },
        Replacement { replacement: "x".to_string(), start: 20, end: 30 },
    ];
    assert!(replacements_to_edits(&buffer, &beyond).is_none());
}

#[test]
fn fix_is_offered_for_a_diagnostic_that_carries_its_suggestion() {
    let buffer = TextBuffer::from_text("Teh cat sat.\n");
    let fix = vec![Replacement { replacement: "The".to_string(), start: 0, end: 3 }];
    let reported = Reported { source: Some("grammar".to_string()), data: Some(suggestion(0, 3, fix)) };
    let action = diagnostic_to_action(&buffer, 4, &reported).unwrap();
    assert_eq!(action.title, "Autofix grammar");
    assert_eq!(action.diagnostic, 4);
    assert_eq!(action.edits.len(), 1);
    assert_eq!(places(action.edits[0].range), ((0, 0), (0, 3)));
    assert_eq!(action.edits[0].new_text, "The");
    let fix = vec![Replacement { replacement: "The".to_string(), start: 0, end: 3 }];
    let unnamed = Reported { source: None, data: Some(suggestion(0, 3, fix)) };
    assert_eq!(diagnostic_to_action(&buffer, 0, &unnamed).unwrap().title, "Autofix suggestion");
    let bare = Reported { source: Some("grammar".to_string()), data: None };
    assert!(diagnostic_to_action(&buffer, 0, &bare).is_none());
    let stale = vec![Replacement { replacement: "x".to_string(), start: 10, end: 40 }];
    let outdated = Reported { source: None, data: Some(suggestion(10, 40, stale)) };
    assert!(diagnostic_to_action(&buffer, 0, &outdated).is_none());
}

#[test]
fn actions_are_the_fixes_of_the_diagnostics_in_order() {
    let document = Document::new("Teh cat sat.\nOn teh mat.\n".to_string());
    let reported = vec![
        Reported { source: Some("grammar".to_string()), data: None },
        Reported {
            source: Some("misspelling".to_string()),
            data: Some(suggestion(
                0,
                3,
                vec![Replacement { replacement: "The".to_string(), start: 0, end: 3 }],
            )),
        },
        Reported {
            source: None,
            data: Some(suggestion(
                90,
                93,
                vec![Replacement { replacement: "x".to_string(), start: 90, end: 93 }],
            )),
        },
        Reported {
            source: None,
            data: Some(suggestion(
                16,
                19,
                vec![Replacement { replacement: "the".to_string(), start: 16, end: 19 }],
            )),
        },
    ];
    let actions = document.actions(&reported);
    assert_eq!(actions.len(), 2);
    assert_eq!(actions[0].title, "Autofix misspelling");
    assert_eq!(actions[0].diagnostic, 1);
    assert_eq!(places(actions[0].edits[0].range), ((0, 0), (0, 3)));
    assert_eq!(actions[1].title, "Autofix suggestion");
    assert_eq!(actions[1].diagnostic, 3);
    assert_eq!(places(actions[1].edits[0].range), ((1, 3), (1, 6)));
    assert_eq!(actions[1].edits[0].new_text, "the");
    assert!(document.actions(&Vec::new()).is_empty());
}

#[test]
fn typo_in_a_parsed_paragraph_is_fixed_in_the_document() {
    let document = Document::new("Teh cat sat.".to_string());
    let ranges = document.text_ranges();
    assert_eq!(ranges.len(), 1);
    assert_eq!(ranges[0].clean_text, "Teh cat sat.");
    let said = prosemd::validator::Suggestion {
        source: "TYPO".to_string(),
        message: "Possible typo".to_string(),
        start: 0,
        end: 3,
        replacements: vec!["The".to_string()],
    };
    let mapped = prosemd::validator::compute_edit(&ranges[0], &said).unwrap();
    let edits = replacements_to_edits(document.buffer(), &mapped.replacements).unwrap();
    let changes: Vec<TextEdit> = edits
        .iter()
        .rev()
        .map(|edit| TextEdit { range: Some(edit.range), text: edit.new_text.clone() })
        .collect();
    let fixed = document.edit(1, &changes).ok().unwrap();
    assert_eq!(fixed.buffer().text(), "The cat sat.");
    assert_eq!(fixed.text_ranges()[0].clean_text, "The cat sat.");
}
