use intersection::drql::scanner::scan;

#[test]
fn scan_returns_none_with_empty_input() {
    assert_eq!(scan(""), Vec::<String>::new());
}

#[test]
fn scan_is_not_greedy() {
    assert_eq!(scan("a@{b}c@{d}e"), vec!["b".to_string(), "d".to_string()]);
}

#[test]
fn scan_larger() {
    assert_eq!(
        scan("Hello @{everyone - here}! Come online please! @{staff} as well."),
        vec!["everyone - here".to_string(), "staff".to_string()]
    );
}

#[test]
fn scan_unterminated_yields_none() {
    assert_eq!(scan("a@{b"), Vec::<String>::new());
}

#[test]
fn scan_close_brace_always_closes() {
    // The first `}` closes the open query, so the content may be empty and a
    // chunk never contains `}`.
    assert_eq!(scan("@{}x}"), vec!["".to_string()]);
    assert_eq!(scan("@{}"), vec!["".to_string()]);
    assert_eq!(scan("a@{b}c}"), vec!["b".to_string()]);
}

#[test]
fn scan_line_break_blocks_chunk() {
    assert_eq!(scan("@{a\nb}"), Vec::<String>::new());
}
