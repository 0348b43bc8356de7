use downgrade::versions::{
    downgrade_histories, published_day, resolve_fetched, resolve_version, Error, Package,
    Timestamp, VersionRecord,
};

fn at(secs: i64) -> Timestamp {
    Timestamp { secs, nanos: 0 }
}

fn rel(num: &str, secs: i64, yanked: bool) -> VersionRecord {
    VersionRecord { num: num.to_string(), updated_at: at(secs), yanked }
}

fn not_found(r: Result<Package, Error>) -> (String, String) {
    match r {
        Err(Error::VersionNotFound(n, d)) => (n, d),
        other => panic!("expected VersionNotFound, got {:?}", other),
    }
}

// 2015-05-15 00:00:00 UTC
const MAY_15: i64 = 1431648000;
const DAY: i64 = 86400;

#[test]
fn cutoff_at_the_middle_release_picks_the_first() {
    let h = vec![rel("1.0.0", 100, false), rel("1.1.0", 200, false), rel("1.2.0", 300, false)];
    let p = resolve_version("foo", &h, &at(200)).unwrap();
    assert_eq!(p.name, "foo");
    assert_eq!(p.version, "1.0.0");
}

#[test]
fn cutoff_compares_nanoseconds() {
    let h = vec![rel("1.0.0", 100, false), rel("1.1.0", 200, false)];
    let p = resolve_version("foo", &h, &Timestamp { secs: 200, nanos: 1 }).unwrap();
    assert_eq!(p.version, "1.1.0");
}

#[test]
fn unsorted_history_picks_the_newest_before_cutoff() {
    let h = vec![rel("1.2.0", 300, false), rel("1.0.0", 100, false), rel("1.1.0", 200, false)];
    assert_eq!(resolve_version("foo", &h, &at(250)).unwrap().version, "1.1.0");
    assert_eq!(resolve_version("foo", &h, &at(1000)).unwrap().version, "1.2.0");
}

#[test]
fn yanked_releases_are_skipped() {
    let h = vec![rel("1.0.0", 100, false), rel("1.1.0", 200, true), rel("1.2.0", 300, false)];
    assert_eq!(resolve_version("foo", &h, &at(250)).unwrap().version, "1.0.0");
}

#[test]
fn only_yanked_before_cutoff_reports_oldest_unyanked() {
    let h = vec![
        rel("0.9.0", MAY_15 - DAY, true),
        rel("1.1.0", MAY_15 + 2 * DAY, false),
        rel("1.0.0", MAY_15 + 40, false),
    ];
    let (name, detail) = not_found(resolve_version("foo", &h, &at(MAY_15)));
    assert_eq!(name, "foo");
    assert_eq!(detail, "1.0.0 (2015-05-15)");
}

#[test]
fn all_yanked_reports_no_known_versions() {
    let h = vec![rel("0.1.0", 100, true), rel("0.2.0", 200, true)];
    let (_, detail) = not_found(resolve_version("foo", &h, &at(1000)));
    assert_eq!(detail, "no known versions at all?");
    let (_, detail) = not_found(resolve_version("foo", &vec![], &at(1000)));
    assert_eq!(detail, "no known versions at all?");
}

#[test]
fn serde_history_resolves_before_cutoff() {
    // 22 Feb 2021 23:16:09 GMT
    let cutoff = at(1614035769);
    let h = vec![
        rel("1.0.118", 1609236000, false),
        rel("1.0.123", 1611606000, false),
        rel("1.0.124", 1615053600, false),
    ];
    let p = resolve_version("serde", &h, &cutoff).unwrap();
    assert_eq!(p.version, "1.0.123");
    assert_eq!(p.to_line(), "serde = \"=1.0.123\"");
}

#[test]
fn no_names_give_no_packages() {
    let r = downgrade_histories(&vec![], &vec![], &at(0)).unwrap();
    assert!(r.is_empty());
}

#[test]
fn names_resolve_in_order() {
    let names = vec!["a".to_string(), "b".to_string()];
    let hs = vec![vec![rel("1.0.0", 10, false)], vec![rel("2.0.0", 20, false), rel("2.1.0", 30, false)]];
    let r = downgrade_histories(&names, &hs, &at(25)).unwrap();
    assert_eq!(r.len(), 2);
    assert_eq!((r[0].name.as_str(), r[0].version.as_str()), ("a", "1.0.0"));
    assert_eq!((r[1].name.as_str(), r[1].version.as_str()), ("b", "2.0.0"));
}

#[test]
fn first_failure_stops_resolution() {
    let names = vec!["a".to_string(), "b".to_string(), "c".to_string()];
    let hs = vec![
        vec![rel("1.0.0", 10, false)],
        vec![rel("2.0.0", 50, false)],
        vec![rel("3.0.0", 60, true)],
    ];
    match downgrade_histories(&names, &hs, &at(25)) {
        Err(Error::VersionNotFound(n, _)) => assert_eq!(n, "b"),
        other => panic!("unexpected {:?}", other),
    }
}

#[test]
fn repeated_resolution_gives_the_same_version() {
    let h = vec![rel("1.0.0", 100, false), rel("1.0.1", 100, false), rel("0.9.0", 50, false)];
    let a = resolve_version("foo", &h, &at(200)).unwrap();
    let b = resolve_version("foo", &h, &at(200)).unwrap();
    assert_eq!(a.version, b.version);
    assert_eq!(a.version, "1.0.1");
}

#[test]
fn failed_fetch_becomes_reqwest_error() {
    let e = crates_io_api::Error::Api(crates_io_api::ApiErrors { errors: vec![] });
    match resolve_fetched("foo", Err(e), &at(0)) {
        Err(Error::Reqwest(_)) => {}
        other => panic!("unexpected {:?}", other),
    }
    let ok = resolve_fetched("foo", Ok(vec![rel("1.0.0", 10, false)]), &at(20)).unwrap();
    assert_eq!(ok.version, "1.0.0");
}

#[test]
fn published_day_is_the_calendar_day() {
    assert_eq!(published_day(&rel("1.0.0", MAY_15, false)), "2015-05-15");
    assert_eq!(published_day(&rel("1.0.0", MAY_15 + DAY - 1, false)), "2015-05-15");
    assert_eq!(published_day(&rel("1.0.0", MAY_15 + DAY, false)), "2015-05-16");
}
