use rsonpath_rewrite::rewrite_benchmark::{
    best_equivalent_row, candidates_besides_baseline, check_config, matches_baseline, check_fixed_config, counts_agree, FixedQueryBenchmarkConfig, order_report_rows, BenchmarkRow, ConfigProblem, RewriteBenchmarkConfig,
    RewriteBenchmarkReport, RunTimings,
};

fn config(schema_file: Option<&str>, no_schema: bool, iterations: usize) -> RewriteBenchmarkConfig {
    RewriteBenchmarkConfig {
        query: "$.a".to_string(),
        schema_file: schema_file.map(|s| s.to_string()),
        no_schema,
        document_file: "doc.json".to_string(),
        iterations,
        warmup: 0,
    }
}

fn row(query: &str, role: &'static str, mean: u128, matches_baseline: bool) -> BenchmarkRow {
    BenchmarkRow {
        query: query.to_string(),
        role,
        query_len: query.len(),
        match_count: 1,
        matches_baseline,
        compile_ns: 5,
        exec_mean_ns: mean,
        exec_min_ns: mean,
        exec_max_ns: mean,
    }
}

#[test]
fn config_without_iterations_is_refused() {
    assert!(matches!(check_config(&config(Some("s.json"), false, 0)), Some(ConfigProblem::ZeroIterations)));
}

#[test]
fn config_without_schema_is_refused_unless_no_schema() {
    assert!(matches!(check_config(&config(None, false, 3)), Some(ConfigProblem::MissingSchema)));
    assert!(check_config(&config(None, true, 3)).is_none());
    assert!(check_config(&config(Some("s.json"), false, 3)).is_none());
}

#[test]
fn timings_track_total_min_and_max() {
    let mut t = RunTimings::new();
    t.record(30);
    t.record(10);
    t.record(20);
    assert_eq!(t.total_ns, 60);
    assert_eq!(t.min_ns, 10);
    assert_eq!(t.max_ns, 30);
    assert_eq!(t.mean_ns(3), 20);
    assert_eq!(t.mean_ns(4), 15);
}

#[test]
fn report_rows_put_original_first_then_rewrites_by_mean_time() {
    let rows = vec![
        row("$.x", "rewrite", 50, true),
        row("$.a", "original", 70, true),
        row("$.y", "rewrite", 20, false),
        row("$.z", "rewrite", 50, true),
        row("$.w", "rewrite", 10, true),
    ];
    let ordered: Vec<String> = order_report_rows(rows).into_iter().map(|r| r.query).collect();
    assert_eq!(ordered, vec!["$.a", "$.w", "$.y", "$.x", "$.z"]);
}

#[test]
fn best_row_is_fastest_matching_and_first_of_ties() {
    let report = RewriteBenchmarkReport {
        rows: vec![
            row("$.a", "original", 70, true),
            row("$.y", "rewrite", 5, false),
            row("$.w", "rewrite", 10, true),
            row("$.v", "rewrite", 10, true),
        ],
        generated_candidates: 3,
    };
    assert_eq!(best_equivalent_row(&report).map(|r| r.query.as_str()), Some("$.w"));
}

#[test]
fn no_best_row_when_nothing_matches() {
    let report = RewriteBenchmarkReport {
        rows: vec![row("$.y", "rewrite", 5, false)],
        generated_candidates: 1,
    };
    assert!(best_equivalent_row(&report).is_none());
}

#[test]
fn fixed_config_needs_timed_runs() {
    let mut config = FixedQueryBenchmarkConfig {
        baseline_query: "$.a".to_string(),
        query: "$..a".to_string(),
        role: "rewrite",
        document_file: "doc.json".to_string(),
        iterations: 0,
        warmup: 2,
    };
    assert!(matches!(check_fixed_config(&config), Some(ConfigProblem::ZeroIterations)));
    config.iterations = 1;
    assert!(check_fixed_config(&config).is_none());
}

#[test]
fn counts_agree_only_when_equal() {
    assert!(counts_agree(3, 3));
    assert!(!counts_agree(3, 4));
    assert!(!counts_agree(u64::MAX, 0));
}

#[test]
fn match_positions_are_compared_in_order() {
    assert!(matches_baseline(None, &[3, 1]));
    assert!(matches_baseline(Some(&[1, 3]), &[1, 3]));
    assert!(!matches_baseline(Some(&[1, 3]), &[3, 1]));
    assert!(!matches_baseline(Some(&[1, 3]), &[1]));
    assert!(matches_baseline(Some(&[]), &[]));
}

#[test]
fn candidates_equal_to_the_baseline_are_not_benchmarked_again() {
    let baseline = rsonpath_syntax::parse("$.a.b").unwrap();
    let candidates: Vec<_> = ["$..b", "$['a']['b']", "$.a..b", "$.a.b"]
        .iter()
        .map(|q| rsonpath_syntax::parse(q).unwrap())
        .collect();
    assert_eq!(candidates_besides_baseline(&candidates, &baseline), vec![0, 2]);
}
