use dosnap::index::build_index;
use dosnap::time::Timestamp;

fn names(v: &[&str]) -> Vec<String> {
    v.iter().map(|s| s.to_string()).collect()
}

#[test]
fn ordering_newest_first() {
    let listing = names(&[
        "2020-06-01T12-00-00-auto",
        "2021-03-05T04-02-01-auto",
        "2019-12-31T23-59-59-auto",
        "2021-01-01T00-00-00-auto",
    ]);
    let idx = build_index(&listing, "-auto");
    let got: Vec<&str> = idx.iter().map(|r| r.name.as_str()).collect();
    assert_eq!(
        got,
        vec![
            "2021-03-05T04-02-01-auto",
            "2021-01-01T00-00-00-auto",
            "2020-06-01T12-00-00-auto",
            "2019-12-31T23-59-59-auto",
        ]
    );
    assert_eq!(
        idx[0].timestamp,
        Timestamp { year: 2021, month: 3, day: 5, hour: 4, minute: 2, second: 1 }
    );
}

#[test]
fn filtering_skips_foreign_entries() {
    let listing = names(&[
        "garbage",
        "2021-03-05T04-02-01-auto",
        "2021-03-06T04-02-01-manual",
        "2021-03-07T04-02-01-autox",
        "notes.txt",
        "2021-02-01T00-00-00-auto",
    ]);
    let idx = build_index(&listing, "-auto");
    let got: Vec<&str> = idx.iter().map(|r| r.name.as_str()).collect();
    assert_eq!(got, vec!["2021-03-05T04-02-01-auto", "2021-02-01T00-00-00-auto"]);
}

#[test]
fn empty_listing_gives_empty_index() {
    let idx = build_index(&Vec::new(), "-auto");
    assert!(idx.is_empty());
}

#[test]
fn all_foreign_gives_empty_index() {
    let listing = names(&["a", "b", "2021-03-05T04-02-01-manual"]);
    let idx = build_index(&listing, "-auto");
    assert!(idx.is_empty());
}

#[test]
fn suffix_is_normalized_before_matching() {
    let listing = names(&["2021-03-05T04-02-01-auto", "2021-03-05T04-02-01--auto"]);
    // An expected suffix without a leading separator gets one inserted, so
    // only the name with exactly one separator before "auto" decodes.
    let idx = build_index(&listing, "auto");
    assert_eq!(idx.len(), 1);
    assert_eq!(idx[0].name, "2021-03-05T04-02-01-auto");
}
