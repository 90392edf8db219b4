use prosemd::node_util::{TextChunk, TextRange};
use prosemd::validator::{
    compute_edit, map_suggestions, reconcile, slice_textchunks_for_suggestion, take_diff_last,
    DiffOp, Replacement, Suggestion,
};

fn apply(document: &str, replacements: &[Replacement]) -> String {
    let mut text = document.to_string();
    for replacement in replacements.iter().rev() {
        text.replace_range(replacement.start..replacement.end, &replacement.replacement);
    }
    text
}

fn suggestion(start: usize, end: usize, replacement: &str) -> Suggestion {
    Suggestion {
        source: "TYPO".to_string(),
        message: "Possible typo".to_string(),
        start,
        end,
        replacements: vec![replacement.to_string()],
    }
}

fn chunk(clean_length: usize, start: usize, end: usize) -> TextChunk {
    TextChunk { clean_length, start, end }
}

fn fields(chunks: &[TextChunk]) -> Vec<(usize, usize, usize)> {
    chunks.iter().map(|c| (c.clean_length, c.start, c.end)).collect()
}

fn edits(replacements: &[Replacement]) -> Vec<(usize, usize, String)> {
    replacements.iter().map(|r| (r.start, r.end, r.replacement.clone())).collect()
}

fn shown(ops: &[DiffOp]) -> String {
    ops.iter()
        .map(|op| match op {
            DiffOp::Keep(c) => format!("={}", c),
            DiffOp::Remove(c) => format!("-{}", c),
            DiffOp::Add(c) => format!("+{}", c),
        })
        .collect()
}

// The document "Some *emph* and `code` text", whose clean text is
// "Some emph and [code] text".
fn marked_up() -> TextRange {
    TextRange {
        clean_text: "Some emph and [code] text".to_string(),
        chunks: vec![
            chunk(5, 0, 5),
            chunk(4, 6, 10),
            chunk(5, 11, 16),
            chunk(6, 16, 22),
            chunk(5, 22, 27),
        ],
    }
}

fn plain_sentence() -> TextRange {
    TextRange { clean_text: "Teh cat sat.".to_string(), chunks: vec![chunk(12, 0, 12)] }
}

#[test]
fn typo_in_single_chunk_is_fixed_in_place() {
    let text = plain_sentence();
    let mapped = compute_edit(&text, &suggestion(0, 3, "The")).unwrap();
    assert_eq!(mapped.start, 0);
    assert_eq!(mapped.end, 3);
    assert_eq!(mapped.source, "TYPO");
    assert_eq!(mapped.message, "Possible typo");
    assert_eq!(edits(&mapped.replacements), vec![(0, 3, "The".to_string())]);
    assert_eq!(apply("Teh cat sat.", &mapped.replacements), "The cat sat.");
}

#[test]
fn span_inside_one_chunk_selects_that_chunk_alone() {
    let text = marked_up();
    let chunks = slice_textchunks_for_suggestion(&text, &suggestion(5, 9, "x"));
    assert_eq!(fields(&chunks), vec![(4, 6, 10)]);
    let chunks = slice_textchunks_for_suggestion(&text, &suggestion(6, 8, "x"));
    assert_eq!(fields(&chunks), vec![(2, 7, 9)]);
    let chunks = slice_textchunks_for_suggestion(&text, &suggestion(0, 1, "x"));
    assert_eq!(fields(&chunks), vec![(1, 0, 1)]);
    let chunks = slice_textchunks_for_suggestion(&text, &suggestion(24, 25, "x"));
    assert_eq!(fields(&chunks), vec![(1, 26, 27)]);
}

#[test]
fn span_over_several_chunks_trims_the_first_and_the_last() {
    let text = marked_up();
    let chunks = slice_textchunks_for_suggestion(&text, &suggestion(3, 11, "x"));
    assert_eq!(fields(&chunks), vec![(2, 3, 5), (4, 6, 10), (2, 11, 13)]);
    let chunks = slice_textchunks_for_suggestion(&text, &suggestion(0, 25, "x"));
    assert_eq!(fields(&chunks), fields(&text.chunks));
    let chunks = slice_textchunks_for_suggestion(&text, &suggestion(0, 400, "x"));
    assert_eq!(fields(&chunks), fields(&text.chunks));
}

#[test]
fn span_that_meets_no_chunk_selects_nothing() {
    let text = marked_up();
    assert!(slice_textchunks_for_suggestion(&text, &suggestion(5, 5, "x")).is_empty());
    assert!(slice_textchunks_for_suggestion(&text, &suggestion(7, 7, "x")).is_empty());
    assert!(slice_textchunks_for_suggestion(&text, &suggestion(9, 5, "x")).is_empty());
    assert!(slice_textchunks_for_suggestion(&text, &suggestion(25, 30, "x")).is_empty());
    assert!(slice_textchunks_for_suggestion(&text, &suggestion(40, 50, "x")).is_empty());
    let empty = TextRange { clean_text: String::new(), chunks: vec![] };
    assert!(slice_textchunks_for_suggestion(&empty, &suggestion(0, 1, "x")).is_empty());
}

#[test]
fn chunk_that_ends_where_the_span_starts_is_not_selected() {
    let text = marked_up();
    let chunks = slice_textchunks_for_suggestion(&text, &suggestion(5, 14, "x"));
    assert_eq!(fields(&chunks), vec![(4, 6, 10), (5, 11, 16)]);
}

#[test]
fn range_of_a_placeholder_is_not_divided() {
    // a code span of three bytes, "`x`", stands as six bytes of clean text
    let text = TextRange {
        clean_text: "a [code] b".to_string(),
        chunks: vec![chunk(2, 0, 2), chunk(6, 2, 5), chunk(2, 5, 7)],
    };
    let chunks = slice_textchunks_for_suggestion(&text, &suggestion(3, 6, "x"));
    assert_eq!(fields(&chunks), vec![(3, 2, 5)]);
    let chunks = slice_textchunks_for_suggestion(&text, &suggestion(1, 9, "x"));
    assert_eq!(fields(&chunks), vec![(1, 1, 2), (6, 2, 5), (1, 5, 6)]);
    // a collapsed line break of several bytes stands as one
    let text = TextRange {
        clean_text: "a b".to_string(),
        chunks: vec![chunk(1, 0, 1), chunk(1, 1, 4), chunk(1, 4, 5)],
    };
    let chunks = slice_textchunks_for_suggestion(&text, &suggestion(1, 3, "x"));
    assert_eq!(fields(&chunks), vec![(1, 1, 4), (1, 4, 5)]);
}

#[test]
fn clean_lengths_beyond_the_machine_word_do_not_overflow() {
    let text = TextRange {
        clean_text: String::new(),
        chunks: vec![chunk(usize::MAX, 0, usize::MAX), chunk(usize::MAX, 0, 3), chunk(5, 0, 5)],
    };
    let chunks = slice_textchunks_for_suggestion(&text, &suggestion(2, usize::MAX, "x"));
    assert_eq!(fields(&chunks), vec![(usize::MAX - 2, 2, usize::MAX)]);
    let chunks = slice_textchunks_for_suggestion(&text, &suggestion(usize::MAX - 1, usize::MAX, "x"));
    assert_eq!(fields(&chunks), vec![(1, usize::MAX - 1, usize::MAX)]);
}

#[test]
fn chunk_takes_its_count_of_kept_and_removed_characters_from_the_tail() {
    let all = vec![DiffOp::Keep('T'), DiffOp::Remove('e'), DiffOp::Keep('h'), DiffOp::Add('e')];
    let mut diff = all.clone();
    assert_eq!(take_diff_last(&mut diff, 3), "The");
    assert_eq!(shown(&diff), "");
    let mut diff = all.clone();
    assert_eq!(take_diff_last(&mut diff, 1), "he");
    assert_eq!(shown(&diff), "=T-e");
    let mut diff = all.clone();
    assert_eq!(take_diff_last(&mut diff, 2), "he");
    assert_eq!(shown(&diff), "=T");
    let mut diff = all.clone();
    assert_eq!(take_diff_last(&mut diff, 0), "e");
    assert_eq!(shown(&diff), "=T-e=h");
    let mut diff = all.clone();
    assert_eq!(take_diff_last(&mut diff, 100), "The");
    assert_eq!(shown(&diff), "");
    let mut diff: Vec<DiffOp> = Vec::new();
    assert_eq!(take_diff_last(&mut diff, 3), "");
    assert!(diff.is_empty());
}

#[test]
fn chunk_takes_the_added_characters_next_to_its_share() {
    let mut diff = vec![DiffOp::Add('x'), DiffOp::Keep('a'), DiffOp::Add('y'), DiffOp::Keep('b')];
    assert_eq!(take_diff_last(&mut diff, 1), "yb");
    assert_eq!(shown(&diff), "+x=a");
    assert_eq!(take_diff_last(&mut diff, 1), "xa");
    assert_eq!(shown(&diff), "");
    let mut diff = vec![DiffOp::Keep('a'), DiffOp::Add('z')];
    assert_eq!(take_diff_last(&mut diff, 0), "z");
    assert_eq!(shown(&diff), "=a");
    let mut diff = vec![DiffOp::Remove('a'), DiffOp::Remove('b')];
    assert_eq!(take_diff_last(&mut diff, 1), "");
    assert_eq!(shown(&diff), "-a");
}

#[test]
fn chunk_without_change_has_an_empty_replacement_text() {
    let mut diff = vec![DiffOp::Keep('a'), DiffOp::Keep('b')];
    assert_eq!(take_diff_last(&mut diff, 2), "");
    assert_eq!(shown(&diff), "");
    let mut diff = vec![DiffOp::Keep('a'), DiffOp::Remove('b'), DiffOp::Keep('c'), DiffOp::Keep('d')];
    assert_eq!(take_diff_last(&mut diff, 2), "");
    assert_eq!(shown(&diff), "=a-b");
    assert_eq!(take_diff_last(&mut diff, 2), "a");
    assert_eq!(shown(&diff), "");
    assert_eq!(take_diff_last(&mut diff, 2), "");
    let mut diff = vec![DiffOp::Add('x'), DiffOp::Keep('a'), DiffOp::Keep('b')];
    assert_eq!(take_diff_last(&mut diff, 1), "");
    assert_eq!(shown(&diff), "+x=a");
    assert_eq!(take_diff_last(&mut diff, 1), "xa");
    assert_eq!(shown(&diff), "");
    let mut diff = vec![DiffOp::Keep('a'), DiffOp::Keep('b')];
    assert_eq!(take_diff_last(&mut diff, 0), "");
    assert_eq!(shown(&diff), "=a=b");
    let mut diff = vec![DiffOp::Keep('a'), DiffOp::Keep('b')];
    assert_eq!(take_diff_last(&mut diff, 1), "");
    assert_eq!(shown(&diff), "=a");
}

#[test]
fn unchanged_chunks_give_no_replacement() {
    let chunks = vec![chunk(2, 3, 5), chunk(4, 6, 10), chunk(2, 11, 13)];
    let diff: Vec<DiffOp> = "e emph a".chars().map(DiffOp::Keep).collect();
    assert!(reconcile(&chunks, diff).is_empty());
    let diff = vec![
        DiffOp::Keep('e'),
        DiffOp::Keep(' '),
        DiffOp::Keep('e'),
        DiffOp::Keep('m'),
        DiffOp::Remove('p'),
        DiffOp::Add('b'),
        DiffOp::Keep('h'),
        DiffOp::Keep(' '),
        DiffOp::Keep('a'),
    ];
    let replacements = reconcile(&chunks, diff);
    assert_eq!(edits(&replacements), vec![(6, 10, "embh".to_string())]);
    assert_eq!(apply("Some *emph* and `code` text", &replacements), "Some *embh* and `code` text");
}

#[test]
fn replacements_come_in_the_order_of_the_chunks() {
    let chunks = vec![chunk(2, 3, 5), chunk(4, 6, 10), chunk(2, 11, 13)];
    let diff = vec![
        DiffOp::Keep('e'),
        DiffOp::Add('!'),
        DiffOp::Keep(' '),
        DiffOp::Keep('e'),
        DiffOp::Remove('m'),
        DiffOp::Add('n'),
        DiffOp::Keep('p'),
        DiffOp::Keep('h'),
        DiffOp::Keep(' '),
        DiffOp::Keep('a'),
    ];
    let replacements = reconcile(&chunks, diff);
    assert_eq!(
        edits(&replacements),
        vec![(3, 5, "e! ".to_string()), (6, 10, "enph".to_string())]
    );
    assert_eq!(
        apply("Some *emph* and `code` text", &replacements),
        "Some! *enph* and `code` text"
    );
}

#[test]
fn chunk_whose_share_becomes_empty_gives_no_replacement() {
    let chunks = vec![chunk(2, 3, 5), chunk(4, 6, 10), chunk(2, 11, 13)];
    let diff = vec![
        DiffOp::Keep('e'),
        DiffOp::Keep(' '),
        DiffOp::Remove('e'),
        DiffOp::Remove('m'),
        DiffOp::Remove('p'),
        DiffOp::Remove('h'),
        DiffOp::Add('E'),
        DiffOp::Keep(' '),
        DiffOp::Keep('a'),
    ];
    let replacements = reconcile(&chunks, diff);
    assert_eq!(edits(&replacements), vec![(11, 13, "E a".to_string())]);
    assert!(reconcile(&Vec::new(), vec![DiffOp::Add('x')]).is_empty());
    assert!(reconcile(&vec![chunk(3, 0, 3)], Vec::new()).is_empty());
}

#[test]
fn inserted_word_at_the_start_of_a_span_is_kept() {
    let text = plain_sentence();
    let mapped = compute_edit(&text, &suggestion(4, 7, "a cat")).unwrap();
    assert_eq!(mapped.start, 4);
    assert_eq!(mapped.end, 7);
    assert_eq!(edits(&mapped.replacements), vec![(4, 7, "a cat".to_string())]);
    assert_eq!(apply("Teh cat sat.", &mapped.replacements), "Teh a cat sat.");
}

#[test]
fn one_character_more_less_or_other_gives_the_suggested_text() {
    let text = plain_sentence();
    for (start, end, replacement, expected) in [
        (4, 7, "cart", "Teh cart sat."),
        (4, 7, "scat", "Teh scat sat."),
        (4, 7, "cats", "Teh cats sat."),
        (4, 7, "at", "Teh at sat."),
        (4, 7, "ca", "Teh ca sat."),
        (4, 7, "ct", "Teh ct sat."),
        (4, 7, "cut", "Teh cut sat."),
        (4, 7, "bat", "Teh bat sat."),
        (4, 7, "cab", "Teh cab sat."),
        (11, 12, "!", "Teh cat sat!"),
        (0, 12, "Teh cat sat!", "Teh cat sat!"),
    ] {
        let mapped = compute_edit(&text, &suggestion(start, end, replacement)).unwrap();
        assert_eq!(mapped.replacements.len(), 1);
        assert_eq!(mapped.replacements[0].start, start);
        assert_eq!(mapped.replacements[0].end, end);
        assert_eq!(mapped.replacements[0].end - mapped.replacements[0].start, end - start);
        assert_eq!(mapped.replacements[0].replacement, replacement);
        assert_eq!(apply("Teh cat sat.", &mapped.replacements), expected);
    }
}

#[test]
fn span_in_a_later_chunk_maps_to_the_bytes_of_that_chunk() {
    let text = marked_up();
    let mapped = compute_edit(&text, &suggestion(21, 25, "test")).unwrap();
    assert_eq!(mapped.start, 23);
    assert_eq!(mapped.end, 27);
    assert_eq!(edits(&mapped.replacements), vec![(23, 27, "test".to_string())]);
    assert_eq!(
        apply("Some *emph* and `code` text", &mapped.replacements),
        "Some *emph* and `code` test"
    );
}

#[test]
fn span_over_markup_is_mapped_chunk_by_chunk() {
    let text = marked_up();
    let mapped = compute_edit(&text, &suggestion(0, 9, "Sone enph")).unwrap();
    assert_eq!(mapped.start, 0);
    assert_eq!(mapped.end, 10);
    assert_eq!(
        edits(&mapped.replacements),
        vec![(0, 5, "Sone ".to_string()), (6, 10, "enph".to_string())]
    );
    assert_eq!(
        apply("Some *emph* and `code` text", &mapped.replacements),
        "Sone *enph* and `code` text"
    );
}

#[test]
fn replacement_equal_to_the_span_gives_no_replacement() {
    let text = plain_sentence();
    let mapped = compute_edit(&text, &suggestion(0, 3, "Teh")).unwrap();
    assert_eq!((mapped.start, mapped.end), (0, 3));
    assert!(mapped.replacements.is_empty());
    let mapped = compute_edit(&text, &suggestion(0, 12, "Teh cat sat.")).unwrap();
    assert!(mapped.replacements.is_empty());
    let text = marked_up();
    let mapped = compute_edit(&text, &suggestion(3, 11, "e emph a")).unwrap();
    assert_eq!((mapped.start, mapped.end), (3, 13));
    assert!(mapped.replacements.is_empty());
    let accented = TextRange { clean_text: "Héllo wörld".to_string(), chunks: vec![chunk(13, 0, 13)] };
    let mapped = compute_edit(&accented, &suggestion(7, 13, "wörld")).unwrap();
    assert!(mapped.replacements.is_empty());
}

#[test]
fn only_the_chunks_that_change_are_replaced() {
    let text = marked_up();
    let mapped = compute_edit(&text, &suggestion(0, 25, "Some emph and [code] test")).unwrap();
    assert_eq!((mapped.start, mapped.end), (0, 27));
    assert_eq!(edits(&mapped.replacements), vec![(22, 27, " test".to_string())]);
    assert_eq!(
        apply("Some *emph* and `code` text", &mapped.replacements),
        "Some *emph* and `code` test"
    );
}

#[test]
fn empty_replacement_gives_a_suggestion_without_edits() {
    let text = plain_sentence();
    let mapped = compute_edit(&text, &suggestion(3, 7, "")).unwrap();
    assert_eq!(mapped.start, 3);
    assert_eq!(mapped.end, 7);
    assert!(mapped.replacements.is_empty());
}

#[test]
fn text_outside_ascii_is_compared_character_by_character() {
    let text = TextRange { clean_text: "Héllo wörld".to_string(), chunks: vec![chunk(13, 0, 13)] };
    let mapped = compute_edit(&text, &suggestion(7, 13, "world")).unwrap();
    assert_eq!(edits(&mapped.replacements), vec![(7, 13, "world".to_string())]);
    assert_eq!(apply("Héllo wörld", &mapped.replacements), "Héllo world");
    let mapped = compute_edit(&text, &suggestion(0, 6, "Hallo")).unwrap();
    assert_eq!(apply("Héllo wörld", &mapped.replacements), "Hallo wörld");
}

#[test]
fn suggestion_that_cannot_be_mapped_is_dropped() {
    let text = plain_sentence();
    assert!(compute_edit(&text, &suggestion(12, 14, "x")).is_none());
    assert!(compute_edit(&text, &suggestion(20, 24, "x")).is_none());
    assert!(compute_edit(&text, &suggestion(10, 14, "x")).is_none());
    assert!(compute_edit(&text, &suggestion(5, 5, "x")).is_none());
    assert!(compute_edit(&text, &suggestion(7, 4, "x")).is_none());
    let mut bare = suggestion(0, 3, "The");
    bare.replacements.clear();
    assert!(compute_edit(&text, &bare).is_none());
    let accented = TextRange { clean_text: "Héllo".to_string(), chunks: vec![chunk(6, 0, 6)] };
    assert!(compute_edit(&accented, &suggestion(0, 2, "x")).is_none());
    assert!(compute_edit(&accented, &suggestion(2, 4, "x")).is_none());
    assert!(compute_edit(&accented, &suggestion(0, 3, "x")).is_some());
}

#[test]
fn first_replacement_of_several_is_taken() {
    let text = plain_sentence();
    let mut several = suggestion(0, 3, "The");
    several.replacements.push("Ten".to_string());
    let mapped = compute_edit(&text, &several).unwrap();
    assert_eq!(apply("Teh cat sat.", &mapped.replacements), "The cat sat.");
}

#[test]
fn suggestions_are_mapped_in_order_and_the_unmappable_dropped() {
    let text = plain_sentence();
    let list = vec![
        suggestion(0, 3, "The"),
        suggestion(40, 44, "gone"),
        suggestion(8, 11, "sit"),
        suggestion(5, 5, "gone"),
    ];
    let mapped = map_suggestions(&text, &list);
    assert_eq!(mapped.len(), 2);
    assert_eq!((mapped[0].start, mapped[0].end), (0, 3));
    assert_eq!(edits(&mapped[0].replacements), vec![(0, 3, "The".to_string())]);
    assert_eq!((mapped[1].start, mapped[1].end), (8, 11));
    assert_eq!(edits(&mapped[1].replacements), vec![(8, 11, "sit".to_string())]);
    assert!(map_suggestions(&text, &Vec::new()).is_empty());
}
