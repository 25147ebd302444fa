use jde_health::filenames::{
    format_history_label, matches_history_file, parse_customer_env, parse_history_filename,
};
use jde_health::health::{
    categorize_latest_errors, count_failed, env_status_from_file, history_point, instance_key,
    is_failed_instance,
};
use jde_health::model::{HealthInstance, HistoricalFileData};

fn inst(status: Option<&str>, health: Option<&str>, name: Option<&str>, details: Option<&str>) -> HealthInstance {
    HealthInstance {
        instance_status: status.map(|s| s.to_string()),
        health_status: health.map(|s| s.to_string()),
        instance_name: name.map(|s| s.to_string()),
        details: details.map(|s| s.to_string()),
    }
}

fn file(name: &str, items: Vec<HealthInstance>) -> HistoricalFileData {
    HistoricalFileData {
        label: String::new(),
        filename: name.to_string(),
        passed: 0,
        failed: 0,
        total: items.len(),
        items,
    }
}

#[test]
fn customer_env_from_latest_file() {
    assert_eq!(parse_customer_env("ACME_prd_latest.json"), ("ACME".to_string(), "PRD".to_string()));
}

#[test]
fn customer_env_without_second_part() {
    assert_eq!(parse_customer_env("single.json"), ("single".to_string(), "UNKNOWN".to_string()));
}

#[test]
fn customer_env_without_extension() {
    assert_eq!(parse_customer_env("acme_dev"), ("acme".to_string(), "DEV".to_string()));
}

#[test]
fn customer_env_extension_is_case_sensitive() {
    assert_eq!(parse_customer_env("x.JSON"), ("x.JSON".to_string(), "UNKNOWN".to_string()));
}

#[test]
fn customer_env_of_empty_name() {
    assert_eq!(parse_customer_env(""), ("".to_string(), "UNKNOWN".to_string()));
}

#[test]
fn history_filename_parts() {
    assert_eq!(
        parse_history_filename("acme_sg1_Jan_2024_1200_health.json"),
        Some((
            "acme".to_string(),
            "sg1".to_string(),
            "Jan".to_string(),
            "2024".to_string(),
            "1200".to_string()
        ))
    );
}

#[test]
fn history_filename_word_in_any_case() {
    assert_eq!(
        parse_history_filename("acme_sg1_Jan_2024_1200_HEALTH_extra.json"),
        Some((
            "acme".to_string(),
            "sg1".to_string(),
            "Jan".to_string(),
            "2024".to_string(),
            "1200".to_string()
        ))
    );
}

#[test]
fn history_filename_too_few_parts() {
    assert_eq!(parse_history_filename("acme_sg1_Jan_2024_health.json"), None);
}

#[test]
fn history_filename_wrong_word() {
    assert_eq!(parse_history_filename("acme_sg1_Jan_2024_1200_status.json"), None);
}

#[test]
fn history_label_joins_with_spaces() {
    assert_eq!(format_history_label("Jan", "2024", "1200"), "Jan 2024 1200");
}

#[test]
fn history_file_match_ignores_case() {
    assert!(matches_history_file("ACME_SG1_jan_2024_1200_Health.JSON", "acme", "Sg1"));
}

#[test]
fn history_file_of_other_group() {
    assert!(!matches_history_file("acme_sg2_jan_2024_1200_health.json", "acme", "sg1"));
}

#[test]
fn latest_file_is_no_history_file() {
    assert!(!matches_history_file("acme_sg1_latest.json", "acme", "sg1"));
}

#[test]
fn running_and_passed_is_healthy() {
    assert!(!is_failed_instance(&inst(Some("RUNNING"), Some("passed"), None, None)));
}

#[test]
fn healthy_after_trim_and_case() {
    assert!(!is_failed_instance(&inst(Some("  running\t"), Some(" PASSED\n"), None, None)));
}

#[test]
fn missing_status_is_failed() {
    assert!(is_failed_instance(&inst(None, Some("passed"), None, None)));
}

#[test]
fn failed_health_is_failed() {
    assert!(is_failed_instance(&inst(Some("RUNNING"), Some("failed"), None, None)));
}

#[test]
fn stopped_instance_is_failed() {
    assert!(is_failed_instance(&inst(Some("STOPPED"), Some("passed"), None, None)));
}

#[test]
fn key_trims_fields() {
    let i = inst(Some(" STOPPED "), None, Some("  web1 "), Some(" disk full"));
    assert_eq!(instance_key(&i), "web1||STOPPED||disk full");
}

#[test]
fn key_of_empty_check() {
    assert_eq!(instance_key(&inst(None, None, None, None)), "||||");
}

#[test]
fn count_of_failed_checks() {
    let items = vec![
        inst(Some("RUNNING"), Some("passed"), Some("a"), None),
        inst(Some("RUNNING"), Some("failed"), Some("b"), None),
        inst(None, None, Some("c"), None),
    ];
    assert_eq!(count_failed(&items), 2);
}

#[test]
fn env_status_counts_checks() {
    let items = vec![
        inst(Some("RUNNING"), Some("passed"), Some("a"), None),
        inst(Some("RUNNING"), Some("failed"), Some("b"), None),
        inst(Some("running"), Some("Passed"), Some("c"), None),
    ];
    let e = env_status_from_file("ACME_prd_latest.json".to_string(), &items);
    assert_eq!(e.customer, "ACME");
    assert_eq!(e.env_name, "PRD");
    assert_eq!(e.total, 3);
    assert_eq!(e.ok, 2);
    assert_eq!(e.err, 1);
    assert_eq!(e.ok + e.err, e.total);
    assert_eq!(e.filename, "ACME_prd_latest.json");
}

#[test]
fn history_point_of_history_file() {
    let items = vec![
        inst(Some("RUNNING"), Some("passed"), Some("a"), None),
        inst(Some("STOPPED"), Some("failed"), Some("b"), None),
    ];
    let p = history_point("acme_sg1_Jan_2024_1200_health.json".to_string(), items.clone()).unwrap();
    assert_eq!(p.label, "Jan 2024 1200");
    assert_eq!(p.filename, "acme_sg1_Jan_2024_1200_health.json");
    assert_eq!(p.passed, 1);
    assert_eq!(p.failed, 1);
    assert_eq!(p.total, 2);
    assert_eq!(p.items, items);
}

#[test]
fn history_point_of_other_file() {
    assert_eq!(history_point("acme_prd_latest.json".to_string(), vec![]), None);
}

#[test]
fn categorize_without_points() {
    let (existing, fresh) = categorize_latest_errors(&[]);
    assert!(existing.is_empty());
    assert!(fresh.is_empty());
}

#[test]
fn categorize_single_point_all_new() {
    let points = vec![file(
        "f1",
        vec![
            inst(Some("STOPPED"), None, Some("a"), None),
            inst(Some("RUNNING"), Some("passed"), Some("b"), None),
        ],
    )];
    let (existing, fresh) = categorize_latest_errors(&points);
    assert!(existing.is_empty());
    assert_eq!(fresh, vec![inst(Some("STOPPED"), None, Some("a"), None)]);
}

#[test]
fn categorize_existing_and_new() {
    let points = vec![
        file("f1", vec![inst(Some("STOPPED"), None, Some("a"), Some("x"))]),
        file(
            "f2",
            vec![
                inst(Some("RUNNING"), Some("failed"), Some("b"), None),
                // healthy before: does not count as seen
                inst(Some("RUNNING"), Some("passed"), Some("c"), None),
            ],
        ),
        file(
            "f3",
            vec![
                inst(Some("RUNNING"), Some("failed"), Some("c"), None),
                inst(Some(" STOPPED"), Some("failed"), Some("a "), Some("x")),
                inst(Some("RUNNING"), Some("passed"), Some("d"), None),
                inst(Some("RUNNING"), Some("failed"), Some("b"), None),
                inst(Some("RUNNING"), Some("failed"), Some("b"), Some("other")),
            ],
        ),
    ];
    let (existing, fresh) = categorize_latest_errors(&points);
    assert_eq!(
        existing,
        vec![
            inst(Some(" STOPPED"), Some("failed"), Some("a "), Some("x")),
            inst(Some("RUNNING"), Some("failed"), Some("b"), None),
        ]
    );
    assert_eq!(
        fresh,
        vec![
            inst(Some("RUNNING"), Some("failed"), Some("c"), None),
            inst(Some("RUNNING"), Some("failed"), Some("b"), Some("other")),
        ]
    );
}

#[test]
fn categorize_latest_only_is_not_history() {
    // a failure in the latest file alone is new, even when repeated there
    let points = vec![
        file("f1", vec![]),
        file(
            "f2",
            vec![
                inst(Some("STOPPED"), None, Some("a"), None),
                inst(Some("STOPPED"), None, Some("a"), None),
            ],
        ),
    ];
    let (existing, fresh) = categorize_latest_errors(&points);
    assert!(existing.is_empty());
    assert_eq!(fresh.len(), 2);
}

#[test]
fn law_categories_split_latest_failures() {
    let points = vec![
        file("f1", vec![inst(Some("STOPPED"), None, Some("a"), None)]),
        file(
            "f2",
            vec![
                inst(Some("STOPPED"), None, Some("a"), None),
                inst(Some("STOPPED"), None, Some("b"), None),
                inst(Some("RUNNING"), Some("passed"), Some("c"), None),
            ],
        ),
    ];
    let (existing, fresh) = categorize_latest_errors(&points);
    assert_eq!(existing.len() + fresh.len(), count_failed(&points[1].items));
    for x in &existing {
        assert!(!fresh.contains(x));
    }
}

#[test]
fn law_history_name_round_trip() {
    for (c, s, m, y, h) in [
        ("acme", "sg1", "Jan", "2024", "1200"),
        ("ACME", "", "feb", "1999", "0000"),
        ("a.b", "x y", "m", "y", "h"),
    ] {
        let name = format!("{}_{}_{}_{}_{}_health.json", c, s, m, y, h);
        assert_eq!(
            parse_history_filename(&name),
            Some((c.to_string(), s.to_string(), m.to_string(), y.to_string(), h.to_string()))
        );
    }
}

#[test]
fn law_key_tells_statuses_apart() {
    let a = inst(Some("STOPPED"), Some("x"), Some("web"), Some("d"));
    let b = inst(Some("stopped"), Some("x"), Some("web"), Some("d"));
    let c = inst(Some(" STOPPED\u{3000}"), Some("other"), Some("web "), Some("\td"));
    assert_ne!(instance_key(&a), instance_key(&b));
    assert_eq!(instance_key(&a), instance_key(&c));
}

#[test]
fn trimming_uses_unicode_white_space() {
    // U+2003 EM SPACE and U+0085 are white space; U+200B ZERO WIDTH SPACE is not
    let i = inst(None, None, Some("\u{2003}a\u{85}"), Some("\u{200B}b"));
    assert_eq!(instance_key(&i), "a||||\u{200B}b");
}
