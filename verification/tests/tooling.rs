use rsonpath_rewrite::tooling::{csv_escape, format_table, render_text, truncate_query};

#[test]
fn rewrite_benchmark_table_renderer_aligns_columns() {
    let rendered = format_table(&[vec!["A".into(), "B".into()], vec!["longer".into(), "x".into()]]);

    assert!(rendered.contains("A      | B"));
    assert!(rendered.contains("longer | x"));
}

#[test]
fn rewrite_benchmark_truncation_keeps_short_queries_unchanged() {
    assert_eq!(truncate_query("$.a", 10), "$.a");
}

#[test]
fn rewrite_benchmark_truncation_adds_ellipsis_for_long_queries() {
    assert_eq!(truncate_query("$['content'][*]['title']", 12), "$['conten...");
}

#[test]
fn rewrite_tooling_table_renderer_aligns_columns() {
    let rendered = format_table(&[vec!["A".into(), "B".into()], vec!["longer".into(), "x".into()]]);

    assert!(rendered.contains("A      | B"));
    assert!(rendered.contains("longer | x"));
}

#[test]
fn rewrite_tooling_truncation_keeps_short_queries_unchanged() {
    assert_eq!(truncate_query("$.a", 10), "$.a");
}

#[test]
fn rewrite_tooling_truncation_adds_ellipsis_for_long_queries() {
    assert_eq!(truncate_query("$['content'][*]['title']", 12), "$['conten...");
}

#[test]
fn table_has_separator_after_header() {
    let rendered = format_table(&[vec!["A".into(), "B".into()], vec!["longer".into(), "x".into()]]);
    assert_eq!(rendered, "A      | B\n-------+--\nlonger | x\n");
}

#[test]
fn table_of_no_rows_is_empty() {
    assert_eq!(format_table(&[]), "");
}

#[test]
fn truncation_at_exact_length_keeps_query() {
    assert_eq!(truncate_query("$.abc", 5), "$.abc");
}

#[test]
fn truncation_to_tiny_width_keeps_only_ellipsis() {
    assert_eq!(truncate_query("$.abcdef", 2), "...");
}

#[test]
fn csv_plain_field_is_unchanged() {
    assert_eq!(csv_escape("$.a.b"), "$.a.b");
}

#[test]
fn csv_field_with_comma_is_quoted() {
    assert_eq!(csv_escape("a,b"), "\"a,b\"");
}

#[test]
fn csv_field_with_quote_doubles_it() {
    assert_eq!(csv_escape("$[\"x\"]"), "\"$[\"\"x\"\"]\"");
}

#[test]
fn csv_field_with_line_break_is_quoted() {
    assert_eq!(csv_escape("a\nb"), "\"a\nb\"");
}

#[test]
fn text_output_includes_header_and_candidates() {
    let candidates = vec![
        rsonpath_syntax::parse("$['content'][*]['title']").unwrap().to_string(),
        rsonpath_syntax::parse("$..['title']").unwrap().to_string(),
    ];

    let rendered = render_text("$.content[*].title", "schema.json", &candidates);

    assert!(rendered.contains("Input query: $.content[*].title"));
    assert!(rendered.contains("Schema file: schema.json"));
    assert!(rendered.contains("Equivalent rewrites: 2"));
    assert!(rendered.contains("1. $['content'][*]['title']"));
    assert!(rendered.contains("2. $..['title']"));
}

#[test]
fn text_output_without_rewrites() {
    assert_eq!(
        render_text("$.a", "s.json", &[]),
        "Input query: $.a\nSchema file: s.json\nEquivalent rewrites: 0"
    );
}

#[test]
fn text_output_numbers_past_nine() {
    let candidates: Vec<String> = (0..12).map(|i| format!("$.q{i}")).collect();
    let rendered = render_text("$", "s", &candidates);
    assert!(rendered.contains("Equivalent rewrites: 12"));
    assert!(rendered.ends_with("\n12. $.q11"));
}
