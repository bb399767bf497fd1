use project_s::lsp::highlights::{
    offset_to_line, offset_to_line_checked, tokens_from_events, tokens_from_events_checked,
    HighlightEvent, SemanticToken,
};

#[test]
fn offset_to_line_offset_test() {
    let text = "Hello\nWorld";

    let res = offset_to_line(text, 0);
    assert_eq!(res, (0, 0));

    let res = offset_to_line(text, 1);
    assert_eq!(res, (0, 1));

    let res = offset_to_line(text, 6);
    assert_eq!(res, (1, 0));

    let res = offset_to_line(text, 7);
    assert_eq!(res, (1, 1));
}

#[test]
fn offset_past_blank_lines() {
    let text = "ab\n\n\ncd";
    assert_eq!(offset_to_line(text, 5), (3, 0));
    assert_eq!(offset_to_line(text, 6), (3, 1));
}

#[test]
fn offset_at_the_end_falls_back_to_the_start() {
    assert_eq!(offset_to_line_checked("Hello", 5), Some((0, 0)));
    assert_eq!(offset_to_line_checked("", 0), Some((0, 0)));
}

#[test]
fn offset_on_a_line_break_has_no_column() {
    assert_eq!(offset_to_line_checked("\u{e9}\nx", 2), None);
    assert_eq!(offset_to_line_checked("\u{e9}\nx", 3), Some((1, 0)));
}

#[test]
fn tokens_are_relative_to_the_previous_one() {
    let text = "(def x\n  42)";
    let events = vec![
        HighlightEvent::HighlightStart(2),
        HighlightEvent::Source { start: 1, end: 4 },
        HighlightEvent::HighlightEnd,
        HighlightEvent::Source { start: 4, end: 7 },
        HighlightEvent::HighlightStart(4),
        HighlightEvent::Source { start: 9, end: 11 },
        HighlightEvent::HighlightEnd,
    ];
    let tokens = tokens_from_events(text, &events);
    assert_eq!(tokens.len(), 2);
    assert_eq!(
        tokens[0],
        SemanticToken { delta_line: 0, delta_start: 1, length: 3, token_type: 2, token_modifiers_bitset: 0 }
    );
    assert_eq!(
        tokens[1],
        SemanticToken { delta_line: 1, delta_start: 2, length: 2, token_type: 4, token_modifiers_bitset: 0 }
    );
}

#[test]
fn tokens_on_one_line_shift_by_column() {
    let text = "ab cd";
    let events = vec![
        HighlightEvent::HighlightStart(0),
        HighlightEvent::Source { start: 0, end: 2 },
        HighlightEvent::Source { start: 3, end: 5 },
    ];
    let tokens = tokens_from_events_checked(text, &events).unwrap();
    assert_eq!(tokens[1].delta_line, 0);
    assert_eq!(tokens[1].delta_start, 3);
}
