use dosnap::action::{join_path, snapshot_dir};
use dosnap::config::{
    autoclean_targets, create_targets, find_subvolume, suffix_default, usize_max, Config,
    Subvolume,
};

fn subvolume(mountpoint: &str, create: bool, autoclean: bool) -> Subvolume {
    Subvolume {
        mountpoint: mountpoint.to_string(),
        path: format!("@{}", mountpoint),
        hourly_limit: usize_max(),
        daily_limit: usize_max(),
        weekly_limit: usize_max(),
        monthly_limit: usize_max(),
        yearly_limit: usize_max(),
        create,
        autoclean,
    }
}

fn config() -> Config {
    Config {
        device: "/dev/sda1".to_string(),
        mount_option: vec!["compress=zstd".to_string()],
        snapshot_root: "snapshots".to_string(),
        suffix: suffix_default(),
        subvolumes: vec![
            subvolume("/", true, true),
            subvolume("/home", true, false),
            subvolume("/data/set", false, true),
        ],
    }
}

#[test]
fn defaults() {
    assert_eq!(suffix_default(), "-auto");
    assert_eq!(usize_max(), usize::MAX);
}

#[test]
fn lookup_by_mountpoint() {
    let c = config();
    let found = find_subvolume(&c, "/home").expect("known filesystem");
    assert_eq!(found.mountpoint, "/home");
    assert!(find_subvolume(&c, "/missing").is_none());
    assert!(find_subvolume(&c, "").is_none());
}

#[test]
fn escaped_mountpoints() {
    let c = config();
    assert_eq!(c.subvolumes[0].escaped_mountpoint(), "%");
    assert_eq!(c.subvolumes[2].escaped_mountpoint(), "%data%set");
}

#[test]
fn batch_targets_follow_flags() {
    let c = config();
    assert_eq!(create_targets(&c), vec!["/".to_string(), "/home".to_string()]);
    assert_eq!(autoclean_targets(&c), vec!["/".to_string(), "/data/set".to_string()]);
}

#[test]
fn tier_caps_come_from_limits() {
    let mut s = subvolume("/", true, true);
    s.hourly_limit = 3;
    s.daily_limit = 2;
    s.weekly_limit = 0;
    let c = s.caps();
    assert_eq!(c.hourly, 3);
    assert_eq!(c.daily, 2);
    assert_eq!(c.weekly, 0);
    assert_eq!(c.monthly, usize::MAX);
    assert_eq!(c.yearly, usize::MAX);
}

#[test]
fn snapshot_paths() {
    assert_eq!(snapshot_dir("snapshots", "/data/set"), "snapshots/%data%set");
    assert_eq!(
        join_path("snapshots/%data%set", "2021-03-05T04-02-01-auto"),
        "snapshots/%data%set/2021-03-05T04-02-01-auto"
    );
}
