use bridge_checker::test_values::TestValues;

fn get(t: &TestValues, k: &str) -> Option<String> {
    t.values.get(&k.to_string()).cloned()
}

#[test]
fn from_str_reads_pairs() {
    let t = TestValues::from_str("obfs4:lyrebird,snowflake:snowflake-client");
    assert_eq!(t.values.len(), 2);
    assert_eq!(get(&t, "obfs4"), Some("lyrebird".to_string()));
    assert_eq!(get(&t, "snowflake"), Some("snowflake-client".to_string()));
}

#[test]
fn from_str_maps_unknown_protocols_to_direct() {
    let t = TestValues::from_str("direct:");
    assert_eq!(get(&t, "direct"), Some(String::new()));
    let t = TestValues::from_str("webtunnel:/bin/wt,meek:m");
    assert_eq!(get(&t, "direct"), Some("/bin/wt".to_string()));
    assert_eq!(get(&t, "meek"), Some("m".to_string()));
    assert_eq!(get(&t, "webtunnel"), None);
}

#[test]
fn from_str_passes_over_what_is_no_pair() {
    assert!(TestValues::from_str("").values.is_empty());
    assert!(TestValues::from_str("obfs4").values.is_empty());
    assert!(TestValues::from_str("a:b:c").values.is_empty());
    let t = TestValues::from_str(",obfs4:x,,junk,");
    assert_eq!(t.values.len(), 1);
    assert_eq!(get(&t, "obfs4"), Some("x".to_string()));
}

#[test]
fn from_str_later_pair_replaces_earlier() {
    let t = TestValues::from_str("obfs4:a,foo:b,obfs4:c,bar:d");
    assert_eq!(t.values.len(), 2);
    assert_eq!(get(&t, "obfs4"), Some("c".to_string()));
    assert_eq!(get(&t, "direct"), Some("d".to_string()));
}
