use dosnap::action::{autoclean_index, autoclean_plan, clean_plan};
use dosnap::index::SnapshotRecord;
use dosnap::retention::{classify, Caps, Tier};
use dosnap::time::Timestamp;

fn ts(year: u32, month: u32, day: u32, hour: u32, minute: u32, second: u32) -> Timestamp {
    Timestamp { year, month, day, hour, minute, second }
}

fn caps(hourly: usize, daily: usize, weekly: usize, monthly: usize, yearly: usize) -> Caps {
    Caps { hourly, daily, weekly, monthly, yearly }
}

fn record(t: Timestamp) -> SnapshotRecord {
    SnapshotRecord { name: dosnap::codec::encode(&t, "-auto"), timestamp: t }
}

#[test]
fn count_based_pruning() {
    // Timestamps T0 > T1 > T2 > T3, newest first; nkeep = 2 prunes exactly
    // the two oldest.
    let t0 = ts(2021, 3, 10, 12, 0, 0);
    let t1 = ts(2021, 3, 10, 11, 0, 0);
    let t2 = ts(2021, 3, 9, 12, 0, 0);
    let t3 = ts(2021, 2, 1, 0, 0, 0);
    let records: Vec<SnapshotRecord> = vec![record(t0), record(t1), record(t2), record(t3)];
    let pruned = clean_plan(&records, 2);
    assert_eq!(pruned, vec![records[2].name.clone(), records[3].name.clone()]);
}

#[test]
fn count_based_pruning_keeps_small_sets() {
    let records: Vec<SnapshotRecord> =
        vec![record(ts(2021, 3, 10, 12, 0, 0)), record(ts(2021, 3, 10, 11, 0, 0))];
    assert!(clean_plan(&records, 2).is_empty());
    assert!(clean_plan(&records, 5).is_empty());
    assert!(clean_plan(&Vec::new(), 0).is_empty());
    assert_eq!(clean_plan(&records, 0).len(), 2);
}

#[test]
fn tiered_example() {
    // Caps {hourly: 2, daily: 1, weekly: 0, monthly: 0, yearly: 0}; records
    // at 10:30 and 10:00 of one day, 09:00 the day before, 08:00 two days
    // prior.  The 10:30 record is kept under the first hourly slot.  The
    // 10:00 record shares both the calendar hour and the day with it and
    // every coarser tier is capped at zero, so it is pruned.  The 09:00
    // record starts a new hour and takes the second hourly slot, and the
    // 08:00 record, with the hourly quota exhausted, starts a new day and
    // is kept under the daily tier.
    let times = vec![
        ts(2021, 3, 10, 10, 30, 0),
        ts(2021, 3, 10, 10, 0, 0),
        ts(2021, 3, 9, 9, 0, 0),
        ts(2021, 3, 8, 8, 0, 0),
    ];
    let decisions = classify(&times, &caps(2, 1, 0, 0, 0));
    assert_eq!(
        decisions,
        vec![Some(Tier::Hourly), None, Some(Tier::Hourly), Some(Tier::Daily)]
    );
}

#[test]
fn zero_caps_prune_everything() {
    let times = vec![ts(2021, 3, 10, 10, 30, 0), ts(2020, 1, 1, 0, 0, 0)];
    let decisions = classify(&times, &caps(0, 0, 0, 0, 0));
    assert_eq!(decisions, vec![None, None]);
}

#[test]
fn unlimited_caps_keep_everything_in_new_buckets() {
    let times = vec![
        ts(2021, 3, 10, 10, 30, 0),
        ts(2021, 3, 10, 9, 30, 0),
        ts(2021, 3, 10, 8, 30, 0),
    ];
    let decisions = classify(&times, &caps(usize::MAX, 0, 0, 0, 0));
    assert_eq!(
        decisions,
        vec![Some(Tier::Hourly), Some(Tier::Hourly), Some(Tier::Hourly)]
    );
}

#[test]
fn weekly_tier_uses_iso_weeks() {
    // 2021-01-01 and 2020-12-31 fall in the same ISO week (week 53 of
    // 2020); 2020-12-27 is a Sunday of ISO week 52.  With only the weekly
    // tier enabled, the second record is pruned and the third is kept.
    let times = vec![
        ts(2021, 1, 1, 10, 0, 0),
        ts(2020, 12, 31, 10, 0, 0),
        ts(2020, 12, 27, 10, 0, 0),
    ];
    let decisions = classify(&times, &caps(0, 0, 5, 0, 0));
    assert_eq!(decisions, vec![Some(Tier::Weekly), None, Some(Tier::Weekly)]);
}

#[test]
fn priority_order_prefers_finer_tiers() {
    // A record in a new hour, day and year is kept under hourly first.
    let times = vec![ts(2021, 3, 10, 10, 0, 0), ts(2020, 2, 5, 9, 0, 0)];
    let decisions = classify(&times, &caps(5, 5, 5, 5, 5));
    assert_eq!(decisions, vec![Some(Tier::Hourly), Some(Tier::Hourly)]);
}

#[test]
fn autoclean_plan_lists_pruned_names() {
    let records = vec![
        record(ts(2021, 3, 10, 10, 30, 0)),
        record(ts(2021, 3, 10, 10, 0, 0)),
        record(ts(2021, 3, 9, 9, 0, 0)),
        record(ts(2021, 3, 8, 8, 0, 0)),
    ];
    let pruned = autoclean_plan(&records, &caps(2, 1, 0, 0, 0));
    assert_eq!(pruned, vec!["2021-03-10T10-00-00-auto".to_string()]);
}

#[test]
fn autoclean_twice_prunes_nothing_new() {
    // Idempotence: prune, drop the pruned records, classify again; the
    // second pass keeps everything.
    let records = vec![
        record(ts(2021, 3, 10, 10, 30, 0)),
        record(ts(2021, 3, 10, 10, 0, 0)),
        record(ts(2021, 3, 9, 9, 0, 0)),
        record(ts(2021, 3, 8, 8, 0, 0)),
        record(ts(2021, 2, 1, 8, 0, 0)),
    ];
    let c = caps(2, 1, 1, 0, 0);
    let times: Vec<Timestamp> = records.iter().map(|r| r.timestamp).collect();
    let first = classify(&times, &c);
    let survivors: Vec<SnapshotRecord> = records
        .iter()
        .zip(first.iter())
        .filter(|(_, d)| d.is_some())
        .map(|(r, _)| record(r.timestamp))
        .collect();
    let second = autoclean_plan(&survivors, &c);
    assert!(second.is_empty());
}

#[test]
fn raising_one_cap_only_keeps_more() {
    let times = vec![
        ts(2021, 3, 10, 10, 30, 0),
        ts(2021, 3, 10, 9, 0, 0),
        ts(2021, 3, 9, 9, 0, 0),
        ts(2021, 3, 8, 8, 0, 0),
        ts(2021, 2, 1, 8, 0, 0),
        ts(2020, 2, 1, 8, 0, 0),
    ];
    let low = caps(1, 1, 0, 1, 0);
    let before = classify(&times, &low);
    for tier in 0..5 {
        let mut high = low;
        match tier {
            0 => high.hourly += 1,
            1 => high.daily += 1,
            2 => high.weekly += 1,
            3 => high.monthly += 1,
            _ => high.yearly += 1,
        }
        let after = classify(&times, &high);
        for (b, a) in before.iter().zip(after.iter()) {
            assert!(b.is_none() || a.is_some());
        }
    }
}

#[test]
fn autoclean_index_from_listing() {
    let names = vec![
        "garbage".to_string(),
        "2021-03-08T08-00-00-auto".to_string(),
        "2021-03-10T10-30-00-auto".to_string(),
        "2021-03-09T09-00-00-manual".to_string(),
        "2021-03-10T10-00-00-auto".to_string(),
        "2021-03-09T09-00-00-auto".to_string(),
    ];
    let pruned = autoclean_index(&names, "-auto", &caps(2, 1, 0, 0, 0));
    assert_eq!(pruned, vec!["2021-03-10T10-00-00-auto".to_string()]);
}
