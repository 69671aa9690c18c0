use confrender::aggregate::{
    apply_parameter_page, apply_secret_outcome, combine_fetch_results, prefix_query_path,
    strip_trailing_separator, trim_prefix, AggregateWarning, PageEntry, SecretFetchOutcome,
};
use confrender::props::{merge_properties, PropertyMap};

fn entry(name: &str, value: &str) -> PageEntry {
    PageEntry { name: Some(name.to_string()), value: Some(value.to_string()) }
}

#[test]
fn trim_prefix_strips_prefix_and_separator() {
    assert_eq!(trim_prefix("app", "app/db.host"), "db.host");
    assert_eq!(trim_prefix("a", "a/b"), "b");
}

#[test]
fn strip_trailing_separator_handles_both_forms() {
    assert_eq!(strip_trailing_separator("app/"), "app");
    assert_eq!(strip_trailing_separator("app"), "app");
    assert_eq!(strip_trailing_separator(""), "");
    assert_eq!(strip_trailing_separator("a//"), "a/");
}

#[test]
fn prefix_query_path_appends_one_separator() {
    assert_eq!(prefix_query_path("app"), "app/".to_string());
    assert_eq!(prefix_query_path(""), "/".to_string());
}

#[test]
fn pagination_merges_pages_under_one_prefix() {
    let mut map = PropertyMap::new();
    let page1 = vec![entry("app/a", "1")];
    let page2 = vec![entry("app/b", "2")];
    apply_parameter_page(&mut map, "app", &page1);
    apply_parameter_page(&mut map, "app", &page2);
    assert_eq!(map.get("a"), Some(&"1".to_string()));
    assert_eq!(map.get("b"), Some(&"2".to_string()));
    assert_eq!(map.get("app/a"), None);
}

#[test]
fn page_entries_missing_name_or_value_are_dropped() {
    let mut map = PropertyMap::new();
    let page = vec![
        PageEntry { name: Some("app/x".to_string()), value: None },
        PageEntry { name: None, value: Some("7".to_string()) },
        entry("app/y", "8"),
    ];
    apply_parameter_page(&mut map, "app", &page);
    assert_eq!(map.get("x"), None);
    assert_eq!(map.get("y"), Some(&"8".to_string()));
}

#[test]
fn later_prefix_wins_on_key_collision() {
    let mut map = PropertyMap::new();
    apply_parameter_page(&mut map, "one", &vec![entry("one/k", "first")]);
    apply_parameter_page(&mut map, "two", &vec![entry("two/k", "second")]);
    assert_eq!(map.get("k"), Some(&"second".to_string()));
}

#[test]
fn secret_object_payload_contributes_string_members() {
    let mut map = PropertyMap::new();
    let outcome = SecretFetchOutcome::Retrieved {
        payload: Some("{\"db.user\":\"admin\",\"db.pass\":\"pw\"}".to_string()),
    };
    let warnings = apply_secret_outcome(&mut map, "creds", outcome).unwrap();
    assert!(warnings.is_empty());
    assert_eq!(map.get("db.user"), Some(&"admin".to_string()));
    assert_eq!(map.get("db.pass"), Some(&"pw".to_string()));
}

#[test]
fn secret_not_found_is_tolerated_and_aggregation_continues() {
    let mut map = PropertyMap::new();
    let first = SecretFetchOutcome::Retrieved { payload: Some("{\"k1\":\"v1\"}".to_string()) };
    assert!(apply_secret_outcome(&mut map, "s1", first).is_ok());

    let missing = apply_secret_outcome(&mut map, "absent", SecretFetchOutcome::NotFound);
    let warnings = missing.unwrap();
    assert!(warnings.is_empty());

    let third = SecretFetchOutcome::Retrieved { payload: Some("{\"k2\":\"v2\"}".to_string()) };
    assert!(apply_secret_outcome(&mut map, "s2", third).is_ok());

    assert_eq!(map.get("k1"), Some(&"v1".to_string()));
    assert_eq!(map.get("k2"), Some(&"v2".to_string()));
}

#[test]
fn secret_fetch_failure_is_fatal_and_names_the_secret() {
    let mut map = PropertyMap::new();
    let outcome = SecretFetchOutcome::Failed { detail: "access denied".to_string() };
    let err = apply_secret_outcome(&mut map, "locked", outcome).unwrap_err();
    assert_eq!(err.subject, "locked".to_string());
    assert_eq!(err.detail, "access denied".to_string());
    assert_eq!(map.get("locked"), None);
}

#[test]
fn secret_payload_not_an_object_warns_and_contributes_nothing() {
    let mut map = PropertyMap::new();
    let outcome = SecretFetchOutcome::Retrieved { payload: Some("[1,2,3]".to_string()) };
    let warnings = apply_secret_outcome(&mut map, "list", outcome).unwrap();
    assert_eq!(warnings, vec![AggregateWarning::NotJsonObject { secret: "list".to_string() }]);

    let broken = SecretFetchOutcome::Retrieved { payload: Some("not json".to_string()) };
    let warnings2 = apply_secret_outcome(&mut map, "broken", broken).unwrap();
    assert_eq!(warnings2, vec![AggregateWarning::NotJsonObject { secret: "broken".to_string() }]);
}

#[test]
fn secret_payload_missing_warns_and_contributes_nothing() {
    let mut map = PropertyMap::new();
    let outcome = SecretFetchOutcome::Retrieved { payload: None };
    let warnings = apply_secret_outcome(&mut map, "empty", outcome).unwrap();
    assert_eq!(warnings, vec![AggregateWarning::MissingPayload { secret: "empty".to_string() }]);
}

#[test]
fn secret_non_string_member_warns_and_is_skipped() {
    let mut map = PropertyMap::new();
    let outcome = SecretFetchOutcome::Retrieved {
        payload: Some("{\"num\":3,\"txt\":\"ok\"}".to_string()),
    };
    let warnings = apply_secret_outcome(&mut map, "mixed", outcome).unwrap();
    assert_eq!(
        warnings,
        vec![AggregateWarning::NonStringMember {
            secret: "mixed".to_string(),
            member: "num".to_string(),
        }]
    );
    assert_eq!(map.get("num"), None);
    assert_eq!(map.get("txt"), Some(&"ok".to_string()));
}

#[test]
fn merged_value_comes_from_the_secrets_source() {
    let mut params = PropertyMap::new();
    params.insert("db.host".to_string(), "from-params".to_string());
    params.insert("db.port".to_string(), "5432".to_string());
    let mut secrets = PropertyMap::new();
    secrets.insert("db.host".to_string(), "from-secrets".to_string());

    let merged = combine_fetch_results(Ok(params), Ok(secrets)).unwrap();
    assert_eq!(merged.get("db.host"), Some(&"from-secrets".to_string()));
    assert_eq!(merged.get("db.port"), Some(&"5432".to_string()));
}

#[test]
fn parameter_source_failure_takes_reporting_priority() {
    let params_err = confrender::aggregate::FetchError {
        subject: "app".to_string(),
        detail: "throttled".to_string(),
    };
    let secrets_err = confrender::aggregate::FetchError {
        subject: "creds".to_string(),
        detail: "denied".to_string(),
    };
    let r = combine_fetch_results(Err(params_err), Err(secrets_err));
    assert_eq!(r.unwrap_err().subject, "app".to_string());

    let ok_map = PropertyMap::new();
    let secrets_err2 = confrender::aggregate::FetchError {
        subject: "creds".to_string(),
        detail: "denied".to_string(),
    };
    let r2 = combine_fetch_results(Ok(ok_map), Err(secrets_err2));
    assert_eq!(r2.unwrap_err().subject, "creds".to_string());
}

#[test]
fn merge_properties_prefers_the_latest_map() {
    let mut a = PropertyMap::new();
    a.insert("k".to_string(), "a".to_string());
    a.insert("only-a".to_string(), "1".to_string());
    let mut b = PropertyMap::new();
    b.insert("k".to_string(), "b".to_string());
    let mut c = PropertyMap::new();
    c.insert("k".to_string(), "c".to_string());

    let merged = merge_properties(vec![a, b, c]);
    assert_eq!(merged.get("k"), Some(&"c".to_string()));
    assert_eq!(merged.get("only-a"), Some(&"1".to_string()));
}
