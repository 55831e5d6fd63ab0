use ime::evaluation::{
    edit_distance, katakana_to_hiragana, match_rank, parse_decimal, parse_positive, parse_usize,
    percentile_rank, select_items, tally, top_surfaces, usage, AjimeeItem, ContextFilter, Options,
    TallyError,
};

fn assert_close(actual: f64, expected: f64) {
    assert!((actual - expected).abs() < f64::EPSILON);
}

fn character_error_rate(reference: &str, hypothesis: &str) -> f64 {
    let reference: Vec<char> = reference.chars().collect();
    let hypothesis: Vec<char> = hypothesis.chars().collect();
    edit_distance(&reference, &hypothesis) as f64 / reference.len() as f64
}

#[test]
fn converts_full_width_katakana_without_changing_punctuation() {
    assert_eq!(
        katakana_to_hiragana("ニホンゴ、ヴァイオリン・１２３"),
        "にほんご、ゔぁいおりん・１２３"
    );
}

#[test]
fn character_error_rate_uses_unicode_characters() {
    assert_close(character_error_rate("日本語", "日本"), 1.0 / 3.0);
    assert_close(character_error_rate("日本語", "日本後"), 1.0 / 3.0);
    assert_close(character_error_rate("日本語", "日本語"), 0.0);
}

#[test]
fn percentile_uses_nearest_rank() {
    let values: Vec<u64> = (1..=100).collect();
    assert_close(values[percentile_rank(values.len(), 50)] as f64 / 1_000_000.0, 50.0 / 1_000_000.0);
    assert_close(values[percentile_rank(values.len(), 95)] as f64 / 1_000_000.0, 95.0 / 1_000_000.0);
    assert_close(values[percentile_rank(values.len(), 99)] as f64 / 1_000_000.0, 99.0 / 1_000_000.0);
}

#[test]
fn parses_reproducible_evaluation_options() {
    let options = Options::parse(
        [
            "ajimee",
            "items.json",
            "--top-k",
            "5",
            "--context",
            "none",
            "--limit",
            "25",
            "--failures",
            "0",
            "--json",
        ]
        .into_iter()
        .map(str::to_owned)
        .collect(),
        None,
        None,
    )
    .unwrap();

    assert_eq!(options.top_k, 5);
    assert_eq!(options.context, ContextFilter::Absent);
    assert_eq!(options.limit, Some(25));
    assert_eq!(options.failures, 0);
    assert!(options.json);
}

fn args(list: &[&str]) -> Vec<String> {
    list.iter().map(|s| s.to_string()).collect()
}

#[test]
fn options_defaults_and_environment_values() {
    let options = Options::parse(
        args(&["ajimee", "items.json"]),
        Some("rev".to_string()),
        Some("sum".to_string()),
    )
    .unwrap();
    assert_eq!(options.input, "items.json");
    assert_eq!(options.top_k, 10);
    assert_eq!(options.context, ContextFilter::All);
    assert_eq!(options.limit, None);
    assert_eq!(options.failures, 10);
    assert!(!options.json);
    assert_eq!(options.dataset_revision.as_deref(), Some("rev"));
    assert_eq!(options.dataset_sha256.as_deref(), Some("sum"));
}

#[test]
fn options_errors() {
    assert_eq!(Options::parse(args(&[]), None, None).unwrap_err(), usage());
    assert_eq!(Options::parse(args(&["ajimee"]), None, None).unwrap_err(), usage());
    assert_eq!(
        Options::parse(args(&["other", "x"]), None, None).unwrap_err(),
        format!("unsupported evaluation format \"other\"\n{}", usage())
    );
    assert_eq!(
        Options::parse(args(&["ajimee", "x", "--bogus"]), None, None).unwrap_err(),
        format!("unknown argument \"--bogus\"\n{}", usage())
    );
    assert_eq!(Options::parse(args(&["ajimee", "x", "-h"]), None, None).unwrap_err(), usage());
    assert_eq!(
        Options::parse(args(&["ajimee", "x", "--top-k", "0"]), None, None).unwrap_err(),
        "--top-k must be greater than zero"
    );
    assert_eq!(
        Options::parse(args(&["ajimee", "x", "--limit"]), None, None).unwrap_err(),
        "--limit requires a value"
    );
    assert_eq!(
        Options::parse(args(&["ajimee", "x", "--failures", "-1"]), None, None).unwrap_err(),
        "--failures requires a non-negative integer"
    );
    assert_eq!(
        Options::parse(args(&["ajimee", "x", "--context"]), None, None).unwrap_err(),
        "--context requires a value"
    );
    assert_eq!(
        Options::parse(args(&["ajimee", "x", "--context", "some"]), None, None).unwrap_err(),
        "invalid --context value \"some\"; expected all, none, or present"
    );
}

#[test]
fn context_filter_parse_and_includes() {
    assert_eq!(ContextFilter::parse("all"), Ok(ContextFilter::All));
    assert_eq!(ContextFilter::parse("none"), Ok(ContextFilter::Absent));
    assert_eq!(ContextFilter::parse("present"), Ok(ContextFilter::Present));
    let with = AjimeeItem {
        index: "1".to_string(),
        context_text: "前".to_string(),
        input: "ニホン".to_string(),
        expected_output: vec!["日本".to_string()],
    };
    let without = AjimeeItem { context_text: String::new(), ..with.clone() };
    assert!(ContextFilter::All.includes(&with));
    assert!(ContextFilter::Present.includes(&with));
    assert!(!ContextFilter::Absent.includes(&with));
    assert!(ContextFilter::Absent.includes(&without));
    let items = vec![with.clone(), without.clone(), without.clone(), with];
    assert_eq!(select_items(&items, ContextFilter::Absent, None), vec![1, 2]);
    assert_eq!(select_items(&items, ContextFilter::All, Some(3)), vec![0, 1, 2]);
    assert_eq!(select_items(&items, ContextFilter::Present, Some(1)), vec![0]);
}

#[test]
fn decimal_parsing_follows_usize_from_str() {
    assert_eq!(parse_decimal("0"), Some(0));
    assert_eq!(parse_decimal("+42"), Some(42));
    assert_eq!(parse_decimal("+"), None);
    assert_eq!(parse_decimal(""), None);
    assert_eq!(parse_decimal("-1"), None);
    assert_eq!(parse_decimal(" 1"), None);
    assert_eq!(parse_decimal("18446744073709551615"), Some(usize::MAX));
    assert_eq!(parse_decimal("18446744073709551616"), None);
    assert_eq!(parse_usize("--n", Some("7".to_string())), Ok(7));
    assert_eq!(parse_usize("--n", None), Err("--n requires a value".to_string()));
    assert_eq!(parse_positive("--n", Some("0".to_string())), Err("--n must be greater than zero".to_string()));
}

#[test]
fn edit_distance_counts_edits() {
    let a: Vec<char> = "kitten".chars().collect();
    let b: Vec<char> = "sitting".chars().collect();
    assert_eq!(edit_distance(&a, &b), 3);
    assert_eq!(edit_distance(&a, &a), 0);
    assert_eq!(edit_distance(&Vec::new(), &b), 7);
}

#[test]
fn percentile_rank_stays_in_range() {
    assert_eq!(percentile_rank(1, 99), 0);
    assert_eq!(percentile_rank(10, 0), 0);
    assert_eq!(percentile_rank(10, 100), 9);
    assert_eq!(percentile_rank(10, 1000), 9);
    assert_eq!(percentile_rank(usize::MAX, usize::MAX), usize::MAX / 100);
}

#[test]
fn match_rank_finds_first_accepted_candidate() {
    let candidates = args(&["a", "b", "c"]);
    assert_eq!(match_rank(&candidates, &args(&["c", "b"])), Some(1));
    assert_eq!(match_rank(&candidates, &args(&["x"])), None);
}

fn strings(values: &[&str]) -> Vec<String> {
    values.iter().map(|value| value.to_string()).collect()
}

#[test]
fn tally_counts_ranks_and_keeps_first_failures() {
    let expected = vec![
        strings(&["日本"]),
        strings(&["二本", "にほん"]),
        strings(&["猫"]),
        strings(&["犬"]),
        strings(&["鳥"]),
    ];
    let candidates = vec![
        strings(&["日本", "二本"]),
        strings(&["日本", "二本", "にほん"]),
        strings(&["ねこ"]),
        strings(&[]),
        strings(&["とり"]),
    ];
    let counted = tally(&expected, &candidates, 2).unwrap();
    assert_eq!(counted.ranks, vec![Some(0), Some(1), None, None, None]);
    assert_eq!(counted.correct_at_1, 1);
    assert_eq!(counted.correct_at_k, 2);
    assert_eq!(counted.failures, vec![2, 3]);

    let unlimited = tally(&expected, &candidates, 10).unwrap();
    assert_eq!(unlimited.failures, vec![2, 3, 4]);
    let none_kept = tally(&expected, &candidates, 0).unwrap();
    assert!(none_kept.failures.is_empty());
}

#[test]
fn tally_refuses_empty_runs_and_items_without_expected_output() {
    assert_eq!(tally(&Vec::new(), &Vec::new(), 5), Err(TallyError::NoItems));
    let expected = vec![strings(&["a"]), strings(&[]), strings(&[])];
    let candidates = vec![strings(&["a"]), strings(&["b"]), strings(&[])];
    assert_eq!(tally(&expected, &candidates, 5), Err(TallyError::NoExpectedOutput(1)));
}

#[test]
fn top_surfaces_keeps_the_first_candidates() {
    let dictionary = ime::converter::Dictionary::bundled();
    let all = dictionary.candidates("にほん");
    assert_eq!(top_surfaces(all.clone(), 2), strings(&["日本", "二本"]));
    assert_eq!(top_surfaces(all.clone(), 10), strings(&["日本", "二本", "にほん"]));
    assert!(top_surfaces(all, 0).is_empty());
}
