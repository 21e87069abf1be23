use dosnap::codec::{decode, encode, month_length};
use dosnap::time::Timestamp;
use dosnap::util::{escape_slash, get_suffix};

fn ts(year: u32, month: u32, day: u32, hour: u32, minute: u32, second: u32) -> Timestamp {
    Timestamp { year, month, day, hour, minute, second }
}

#[test]
fn encode_fixed_layout() {
    let t = ts(2021, 3, 5, 4, 2, 1);
    assert_eq!(encode(&t, "-auto"), "2021-03-05T04-02-01-auto");
    assert_eq!(encode(&t, "-manual"), "2021-03-05T04-02-01-manual");
    assert_eq!(encode(&ts(987, 12, 31, 23, 59, 59), "-x"), "0987-12-31T23-59-59-x");
}

#[test]
fn encode_inserts_separator() {
    let t = ts(2021, 3, 5, 4, 2, 1);
    assert_eq!(encode(&t, "manual"), "2021-03-05T04-02-01-manual");
}

#[test]
fn round_trip() {
    let t = ts(2021, 3, 5, 4, 2, 1);
    assert_eq!(decode(&encode(&t, "-auto"), "-auto"), Some(t));
    assert_eq!(decode(&encode(&t, "manual"), "manual"), Some(t));
    assert_eq!(decode(&encode(&t, ""), ""), Some(t));
    let edge = ts(0, 1, 1, 0, 0, 0);
    assert_eq!(decode(&encode(&edge, "-auto"), "-auto"), Some(edge));
    let top = ts(9999, 12, 31, 23, 59, 59);
    assert_eq!(decode(&encode(&top, "-auto"), "-auto"), Some(top));
}

#[test]
fn wrong_suffix_never_decodes() {
    let t = ts(2021, 3, 5, 4, 2, 1);
    assert_eq!(decode(&encode(&t, "-auto"), "-manual"), None);
    assert_eq!(decode(&encode(&t, "-manual"), "-auto"), None);
    assert_eq!(decode(&encode(&t, "-auto"), "-xauto"), None);
    assert_eq!(decode(&encode(&t, "-1-auto"), "-auto"), None);
}

#[test]
fn garbage_never_decodes() {
    assert_eq!(decode("garbage", "-auto"), None);
    assert_eq!(decode("", "-auto"), None);
    assert_eq!(decode("-auto", "-auto"), None);
    assert_eq!(decode("2021-03-05X04-02-01-auto", "-auto"), None);
    assert_eq!(decode("2021-03-05T04:02:01-auto", "-auto"), None);
    assert_eq!(decode("221-03-05T04-02-01-auto", "-auto"), None);
}

#[test]
fn invalid_dates_never_decode() {
    assert_eq!(decode("2021-02-30T10-00-00-auto", "-auto"), None);
    assert_eq!(decode("2021-13-01T10-00-00-auto", "-auto"), None);
    assert_eq!(decode("2021-00-01T10-00-00-auto", "-auto"), None);
    assert_eq!(decode("2021-01-00T10-00-00-auto", "-auto"), None);
    assert_eq!(decode("2021-01-01T24-00-00-auto", "-auto"), None);
    assert_eq!(decode("2021-01-01T10-60-00-auto", "-auto"), None);
    assert_eq!(decode("2021-01-01T10-00-60-auto", "-auto"), None);
    assert_eq!(decode("2019-02-29T10-00-00-auto", "-auto"), None);
}

#[test]
fn leap_years() {
    let leap = ts(2020, 2, 29, 0, 0, 0);
    assert_eq!(decode("2020-02-29T00-00-00-auto", "-auto"), Some(leap));
    let century_leap = ts(2000, 2, 29, 0, 0, 0);
    assert_eq!(decode("2000-02-29T00-00-00-auto", "-auto"), Some(century_leap));
    assert_eq!(decode("1900-02-29T00-00-00-auto", "-auto"), None);
    assert_eq!(month_length(2020, 2), 29);
    assert_eq!(month_length(2021, 2), 28);
    assert_eq!(month_length(1900, 2), 28);
    assert_eq!(month_length(2000, 2), 29);
    assert_eq!(month_length(2021, 4), 30);
    assert_eq!(month_length(2021, 12), 31);
}

#[test]
fn escaping() {
    assert_eq!(escape_slash("/data/set"), "%data%set");
    assert_eq!(escape_slash("100%done"), "100%%done");
    assert_eq!(escape_slash(""), "");
    assert_eq!(escape_slash("plain"), "plain");
    assert_eq!(escape_slash("/"), "%");
    assert_eq!(escape_slash("%/"), "%%%");
}

#[test]
fn suffix_selection() {
    assert_eq!(get_suffix(true, None), Some("-auto"));
    assert_eq!(get_suffix(true, Some("-manual")), Some("-auto"));
    assert_eq!(get_suffix(false, Some("-manual")), Some("-manual"));
    assert_eq!(get_suffix(false, None), None);
}
