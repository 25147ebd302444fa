use jde_health::dashboard::{
    detail_sort_field_from, navigate, refresh_tick, sort_instances, NavEvent, NavState,
    RefreshStep, REFRESH_SECONDS,
};
use jde_health::grouping::{build_customer_chart_data, group_by_customer};
use jde_health::listing::{
    collect_health_data, listing_url, object_names, object_url, order_history_points,
    select_history_files, select_latest_files, BASE_URL,
};
use jde_health::model::{
    CustomerChartDatum, CustomerGroup, DetailSortField, EnvStatus, Filter, HealthInstance,
    HistoricalFileData, OCIListResponse, OCIObject, PageView,
};

fn env(customer: &str, name: &str, total: usize, ok: usize, err: usize) -> EnvStatus {
    EnvStatus {
        customer: customer.to_string(),
        env_name: name.to_string(),
        total,
        ok,
        err,
        filename: format!("{}_{}_latest.json", customer, name),
    }
}

fn group(customer: &str, total: usize) -> CustomerGroup {
    CustomerGroup { customer: customer.to_string(), total, ok: total, err: 0, envs: vec![] }
}

fn named(name: &str, status: &str) -> HealthInstance {
    HealthInstance {
        instance_status: Some(status.to_string()),
        health_status: None,
        instance_name: Some(name.to_string()),
        details: None,
    }
}

fn strings(v: &[&str]) -> Vec<String> {
    v.iter().map(|s| s.to_string()).collect()
}

#[test]
fn grouping_orders_customers_and_envs() {
    let items = vec![
        env("zeta", "PRD", 3, 2, 1),
        env("acme", "TST", 2, 2, 0),
        env("acme", "DEV", 4, 1, 3),
        env("beta", "PRD", 1, 1, 0),
    ];
    let groups = group_by_customer(items, Filter::All);
    let names: Vec<&str> = groups.iter().map(|g| g.customer.as_str()).collect();
    assert_eq!(names, vec!["acme", "beta", "zeta"]);
    assert_eq!(groups[0].total, 6);
    assert_eq!(groups[0].ok, 3);
    assert_eq!(groups[0].err, 3);
    assert_eq!(groups[0].envs, vec![env("acme", "DEV", 4, 1, 3), env("acme", "TST", 2, 2, 0)]);
    assert_eq!(groups[2].envs, vec![env("zeta", "PRD", 3, 2, 1)]);
}

#[test]
fn grouping_failed_filter() {
    let items = vec![
        env("acme", "TST", 2, 2, 0),
        env("acme", "DEV", 4, 1, 3),
        env("beta", "PRD", 1, 1, 0),
    ];
    let groups = group_by_customer(items, Filter::Failed);
    assert_eq!(groups.len(), 1);
    assert_eq!(groups[0].customer, "acme");
    assert_eq!(groups[0].envs, vec![env("acme", "DEV", 4, 1, 3)]);
    assert_eq!((groups[0].total, groups[0].ok, groups[0].err), (4, 1, 3));
}

#[test]
fn grouping_healthy_filter() {
    let items = vec![env("acme", "TST", 2, 2, 0), env("acme", "DEV", 4, 1, 3)];
    let groups = group_by_customer(items, Filter::Healthy);
    assert_eq!(groups.len(), 1);
    assert_eq!(groups[0].envs, vec![env("acme", "TST", 2, 2, 0)]);
}

#[test]
fn grouping_keeps_order_of_equal_names() {
    let mut a = env("acme", "PRD", 1, 1, 0);
    a.filename = "first".to_string();
    let mut b = env("acme", "PRD", 2, 2, 0);
    b.filename = "second".to_string();
    let groups = group_by_customer(vec![a.clone(), env("acme", "AAA", 0, 0, 0), b.clone()], Filter::All);
    assert_eq!(groups[0].envs[1], a);
    assert_eq!(groups[0].envs[2], b);
}

#[test]
fn grouping_of_nothing() {
    assert!(group_by_customer(vec![], Filter::All).is_empty());
}

#[test]
fn law_grouping_places_every_env() {
    let items = vec![
        env("b", "X", 1, 1, 0),
        env("a", "Y", 1, 0, 1),
        env("b", "A", 1, 1, 0),
        env("c", "Z", 1, 1, 0),
    ];
    let groups = group_by_customer(items.clone(), Filter::All);
    let placed: usize = groups.iter().map(|g| g.envs.len()).sum();
    assert_eq!(placed, items.len());
    for e in &items {
        let g = groups.iter().find(|g| g.customer == e.customer).unwrap();
        assert!(g.envs.contains(e));
    }
}

#[test]
fn chart_orders_by_total_then_customer() {
    let groups = vec![group("b", 5), group("a", 5), group("c", 9), group("d", 1)];
    let data = build_customer_chart_data(&groups);
    let expected = vec![
        CustomerChartDatum { customer: "c".to_string(), total: 9 },
        CustomerChartDatum { customer: "a".to_string(), total: 5 },
        CustomerChartDatum { customer: "b".to_string(), total: 5 },
        CustomerChartDatum { customer: "d".to_string(), total: 1 },
    ];
    assert_eq!(data, expected);
}

#[test]
fn names_from_objects() {
    let resp = OCIListResponse {
        objects: vec![OCIObject { name: "a".to_string() }],
        data: vec![OCIObject { name: "b".to_string() }],
    };
    assert_eq!(object_names(resp), strings(&["a"]));
}

#[test]
fn names_from_data_when_objects_empty() {
    let resp = OCIListResponse {
        objects: vec![],
        data: vec![OCIObject { name: "b".to_string() }, OCIObject { name: "c".to_string() }],
    };
    assert_eq!(object_names(resp), strings(&["b", "c"]));
}

#[test]
fn latest_files_ignore_case() {
    let names = strings(&["a_prd_latest.json", "b_dev_LATEST.JSON", "a_prd_jan_2024_0100_health.json"]);
    assert_eq!(select_latest_files(names), Ok(strings(&["a_prd_latest.json", "b_dev_LATEST.JSON"])));
}

#[test]
fn no_latest_files_is_an_error() {
    assert_eq!(
        select_latest_files(strings(&["x.json"])),
        Err("No '_latest.json' files found in bucket listing.".to_string())
    );
}

#[test]
fn health_data_sorted_by_customer_and_env() {
    let results = vec![env("b", "PRD", 1, 1, 0), env("a", "TST", 1, 1, 0), env("a", "DEV", 1, 1, 0)];
    let sorted = collect_health_data(results, &vec![]).unwrap();
    assert_eq!(
        sorted,
        vec![env("a", "DEV", 1, 1, 0), env("a", "TST", 1, 1, 0), env("b", "PRD", 1, 1, 0)]
    );
}

#[test]
fn no_health_data_is_an_error() {
    let errors = strings(&["HTTP 404 for a", "HTTP 500 for b"]);
    assert_eq!(
        collect_health_data(vec![], &errors),
        Err("Could not load any environment data. Errors: HTTP 404 for a | HTTP 500 for b".to_string())
    );
}

#[test]
fn no_health_data_without_errors() {
    assert_eq!(
        collect_health_data(vec![], &vec![]),
        Err("Could not load any environment data. Errors: ".to_string())
    );
}

#[test]
fn history_files_last_fifteen_sorted() {
    let mut names: Vec<String> = (0..20).rev().map(|i| format!("ACME_sg1_m_2024_{:04}_health.json", i)).collect();
    names.push("acme_sg1_latest.json".to_string());
    names.push("acme_sg2_m_2024_0001_health.json".to_string());
    let files = select_history_files(names, "acme", "SG1").unwrap();
    let expected: Vec<String> = (5..20).map(|i| format!("ACME_sg1_m_2024_{:04}_health.json", i)).collect();
    assert_eq!(files, expected);
}

#[test]
fn few_history_files_all_kept() {
    let names = strings(&["a_g_m_2024_0200_health.json", "a_g_m_2024_0100_health.json"]);
    assert_eq!(
        select_history_files(names, "a", "g"),
        Ok(strings(&["a_g_m_2024_0100_health.json", "a_g_m_2024_0200_health.json"]))
    );
}

#[test]
fn no_history_files_is_an_error() {
    assert_eq!(
        select_history_files(strings(&["a_g_latest.json"]), "a", "g"),
        Err("No historical files found for customer 'a' and servergroup 'g'".to_string())
    );
}

#[test]
fn history_points_sorted_by_filename() {
    let p = |f: &str| HistoricalFileData {
        label: String::new(),
        filename: f.to_string(),
        passed: 0,
        failed: 0,
        total: 0,
        items: vec![],
    };
    let sorted = order_history_points(vec![p("c"), p("a"), p("b")]);
    let names: Vec<&str> = sorted.iter().map(|d| d.filename.as_str()).collect();
    assert_eq!(names, vec!["a", "b", "c"]);
}

#[test]
fn object_url_percent_encodes() {
    assert_eq!(object_url("a b.json"), format!("{}/a%20b.json", BASE_URL));
}

#[test]
fn object_url_encodes_utf8_bytes() {
    assert_eq!(object_url("é~_-.x"), format!("{}/%C3%A9~_-.x", BASE_URL));
}

#[test]
fn listing_url_asks_for_json() {
    assert_eq!(listing_url(), format!("{}/?format=json", BASE_URL));
}

#[test]
fn tick_counts_down() {
    assert_eq!(
        refresh_tick(10, true, true),
        RefreshStep { seconds_left: 9, refetch_health: false, refetch_detail: false, refetch_history: false }
    );
}

#[test]
fn tick_at_one_refreshes() {
    assert_eq!(
        refresh_tick(1, true, false),
        RefreshStep { seconds_left: 60, refetch_health: true, refetch_detail: true, refetch_history: false }
    );
}

#[test]
fn law_countdown_stays_in_range() {
    let mut s = REFRESH_SECONDS;
    let mut refreshes = 0;
    for _ in 0..(3 * REFRESH_SECONDS) {
        let step = refresh_tick(s, false, true);
        if step.refetch_health {
            refreshes += 1;
            assert!(step.refetch_history);
        }
        s = step.seconds_left;
        assert!(1 <= s && s <= REFRESH_SECONDS);
    }
    assert_eq!(refreshes, 3);
}

#[test]
fn sort_checks_ascending_and_descending() {
    let items = vec![named("b", "1"), named("a", "2"), named("b", "3")];
    let asc = sort_instances(items.clone(), DetailSortField::InstanceName, true);
    assert_eq!(asc, vec![named("a", "2"), named("b", "1"), named("b", "3")]);
    let desc = sort_instances(items, DetailSortField::InstanceName, false);
    assert_eq!(desc, vec![named("b", "1"), named("b", "3"), named("a", "2")]);
}

#[test]
fn sort_checks_missing_field_first() {
    let mut none = named("z", "x");
    none.instance_status = None;
    let items = vec![named("a", "b"), none.clone()];
    let asc = sort_instances(items, DetailSortField::InstanceStatus, true);
    assert_eq!(asc[0], none);
}

#[test]
fn sort_field_from_selector() {
    assert_eq!(detail_sort_field_from("instance_status"), DetailSortField::InstanceStatus);
    assert_eq!(detail_sort_field_from("health_status"), DetailSortField::HealthStatus);
    assert_eq!(detail_sort_field_from("instance_name"), DetailSortField::InstanceName);
    assert_eq!(detail_sort_field_from("other"), DetailSortField::InstanceName);
}

#[test]
fn navigation_between_pages() {
    let e = env("a", "PRD", 1, 1, 0);
    let start = NavState { page: PageView::Detail, selected_env: Some(e.clone()), selected_history_env: None };
    let hist = navigate(start, NavEvent::ViewHistory(e.clone()));
    assert_eq!(hist.page, PageView::History);
    assert_eq!(hist.selected_history_env, Some(e.clone()));
    assert_eq!(hist.selected_env, Some(e.clone()));
    let back = navigate(hist.clone(), NavEvent::BackWithoutHistory);
    assert_eq!(back.page, PageView::Dashboard);
    assert_eq!(back.selected_env, None);
    assert_eq!(back.selected_history_env, Some(e));
    let popped = navigate(hist, NavEvent::PopState);
    assert_eq!(popped, NavState { page: PageView::Dashboard, selected_env: None, selected_history_env: None });
}

#[test]
fn law_selected_history_files_match() {
    let mut names: Vec<String> = (0..30).map(|i| format!("a_g_m_2024_{:04}_health.json", (i * 7) % 30)).collect();
    names.push("b_g_m_2024_0001_health.json".to_string());
    let files = select_history_files(names.clone(), "a", "g").unwrap();
    assert!(files.len() <= 15);
    for f in &files {
        assert!(names.contains(f));
        assert!(jde_health::filenames::matches_history_file(f, "a", "g"));
    }
    for w in files.windows(2) {
        assert!(w[0] <= w[1]);
    }
}

#[test]
fn law_sorting_keeps_every_row() {
    let groups = vec![group("b", 5), group("a", 5), group("c", 9), group("a", 2)];
    let data = build_customer_chart_data(&groups);
    assert_eq!(data.len(), groups.len());
    for g in &groups {
        assert!(data.contains(&CustomerChartDatum { customer: g.customer.clone(), total: g.total }));
    }
}

#[test]
fn law_refresh_every_sixtieth_tick() {
    let mut s = REFRESH_SECONDS;
    for n in 1..=(4 * REFRESH_SECONDS) {
        let step = refresh_tick(s, true, true);
        assert_eq!(step.refetch_health, n % 60 == 0);
        assert_eq!(step.refetch_detail, n % 60 == 0);
        s = step.seconds_left;
    }
}

#[test]
fn law_all_is_failed_plus_healthy() {
    let items = vec![
        env("acme", "TST", 2, 2, 0),
        env("acme", "DEV", 4, 1, 3),
        env("beta", "PRD", 1, 1, 0),
        env("gamma", "PRD", 5, 0, 5),
    ];
    let all = group_by_customer(items.clone(), Filter::All);
    let failed = group_by_customer(items.clone(), Filter::Failed);
    let healthy = group_by_customer(items, Filter::Healthy);
    let get = |gs: &Vec<CustomerGroup>, c: &str| {
        gs.iter()
            .find(|g| g.customer == c)
            .map(|g| (g.total, g.ok, g.err, g.envs.len()))
            .unwrap_or((0, 0, 0, 0))
    };
    for c in ["acme", "beta", "gamma", "delta"] {
        let a = get(&all, c);
        let f = get(&failed, c);
        let h = get(&healthy, c);
        assert_eq!(a, (f.0 + h.0, f.1 + h.1, f.2 + h.2, f.3 + h.3));
    }
}

#[test]
fn law_group_sums_over_own_envs() {
    let items = vec![
        env("acme", "ZZZ", 7, 3, 4),
        env("acme", "AAA", 2, 2, 0),
        env("beta", "PRD", 1, 1, 0),
        env("acme", "MMM", 5, 5, 0),
    ];
    for g in group_by_customer(items, Filter::All) {
        assert_eq!(g.total, g.envs.iter().map(|e| e.total).sum::<usize>());
        assert_eq!(g.ok, g.envs.iter().map(|e| e.ok).sum::<usize>());
        assert_eq!(g.err, g.envs.iter().map(|e| e.err).sum::<usize>());
    }
}
