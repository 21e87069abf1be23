//! Per-subvolume configuration.
//!
//! A [`Subvolume`] describes one managed filesystem: its logical
//! mountpoint, the backing path, five independent tier caps (an unset cap
//! defaults to [`usize_max`], effectively unlimited), and the flags that
//! select it for the create-all and auto-clean-all batch operations.  The
//! [`Config`] owns the list of subvolumes; the core only reads it.

use vstd::prelude::*;

use crate::retention::Caps;
use crate::util::{escape_seq, escape_slash};

verus! {

/// One managed subvolume.
pub struct Subvolume {
    pub mountpoint: String,
    pub path: String,
    pub hourly_limit: usize,
    pub daily_limit: usize,
    pub weekly_limit: usize,
    pub monthly_limit: usize,
    pub yearly_limit: usize,
    pub create: bool,
    pub autoclean: bool,
}

/// The tier caps a subvolume's limits stand for.
pub open spec fn subv_caps(s: Subvolume) -> Caps {
    Caps {
        hourly: s.hourly_limit,
        daily: s.daily_limit,
        weekly: s.weekly_limit,
        monthly: s.monthly_limit,
        yearly: s.yearly_limit,
    }
}

impl Subvolume {
    /// The mountpoint escaped for use as a single path segment.
    pub fn escaped_mountpoint(&self) -> (r: String)
        ensures
            r@ == escape_seq(self.mountpoint@),
    {
        escape_slash(self.mountpoint.as_str())
    }

    /// The subvolume's five tier caps, as the classifier takes them.
    pub fn caps(&self) -> (r: Caps)
        ensures
            r == subv_caps(*self),
    {
        Caps {
            hourly: self.hourly_limit,
            daily: self.daily_limit,
            weekly: self.weekly_limit,
            monthly: self.monthly_limit,
            yearly: self.yearly_limit,
        }
    }
}

/// The whole configuration: the backing device, its mount options, the
/// snapshot root directory, the default suffix, and the subvolumes.
pub struct Config {
    pub device: String,
    pub mount_option: Vec<String>,
    pub snapshot_root: String,
    pub suffix: String,
    pub subvolumes: Vec<Subvolume>,
}

/// The default suffix of snapshots taken automatically.
pub fn suffix_default() -> (r: String)
    ensures
        r@ == "-auto"@,
{
    String::from_str("-auto")
}

/// The default of an unset tier cap: effectively unlimited.
pub fn usize_max() -> (r: usize)
    ensures
        r == usize::MAX,
{
    usize::MAX
}

/// Some subvolume of the list carries the given mountpoint.
pub open spec fn has_subvolume(subs: Seq<Subvolume>, name: Seq<char>) -> bool {
    exists|i: int| 0 <= i < subs.len() && (#[trigger] subs[i]).mountpoint@ == name
}

/// Looks a filesystem up by its mountpoint.  Returns the first subvolume
/// with that mountpoint, or `None` exactly when the configuration names
/// none.
pub fn find_subvolume<'a>(config: &'a Config, filesystem: &str) -> (r: Option<&'a Subvolume>)
    ensures
        r is Some <==> has_subvolume(config.subvolumes@, filesystem@),
        match r {
            Some(s) => exists|i: int|
                0 <= i < config.subvolumes@.len() && #[trigger] config.subvolumes@[i] == *s
                    && config.subvolumes@[i].mountpoint@ == filesystem@ && forall|j: int|
                    0 <= j < i ==> (#[trigger] config.subvolumes@[j]).mountpoint@ != filesystem@,
            None => true,
        },
{
    let wanted = String::from_str(filesystem);
    let mut i: usize = 0;
    while i < config.subvolumes.len()
        invariant
            i <= config.subvolumes@.len(),
            wanted@ == filesystem@,
            forall|j: int|
                0 <= j < i ==> (#[trigger] config.subvolumes@[j]).mountpoint@ != filesystem@,
        decreases config.subvolumes@.len() - i,
    {
        if config.subvolumes[i].mountpoint == wanted {
            return Some(&config.subvolumes[i]);
        }
        i += 1;
    }
    None
}

/// The mountpoints flagged for a create-all batch, in configuration order.
pub open spec fn create_targets_seq(subs: Seq<Subvolume>) -> Seq<Seq<char>>
    decreases subs.len(),
{
    if subs.len() == 0 {
        Seq::empty()
    } else {
        let rest = create_targets_seq(subs.drop_last());
        if subs.last().create {
            rest.push(subs.last().mountpoint@)
        } else {
            rest
        }
    }
}

/// The mountpoints flagged for an auto-clean-all batch, in configuration
/// order.
pub open spec fn autoclean_targets_seq(subs: Seq<Subvolume>) -> Seq<Seq<char>>
    decreases subs.len(),
{
    if subs.len() == 0 {
        Seq::empty()
    } else {
        let rest = autoclean_targets_seq(subs.drop_last());
        if subs.last().autoclean {
            rest.push(subs.last().mountpoint@)
        } else {
            rest
        }
    }
}

/// The filesystems a create-all batch walks, in configuration order.
pub fn create_targets(config: &Config) -> (r: Vec<String>)
    ensures
        r@.map_values(|n: String| n@) == create_targets_seq(config.subvolumes@),
{
    let ghost subs = config.subvolumes@;
    let mut out: Vec<String> = Vec::new();
    let mut i: usize = 0;
    proof {
        assert(subs.subrange(0, 0) =~= Seq::<Subvolume>::empty());
        assert(out@.map_values(|n: String| n@) =~= create_targets_seq(subs.subrange(0, 0)));
    }
    while i < config.subvolumes.len()
        invariant
            i <= subs.len(),
            subs == config.subvolumes@,
            out@.map_values(|n: String| n@) == create_targets_seq(subs.subrange(0, i as int)),
        decreases subs.len() - i,
    {
        proof {
            assert(subs.subrange(0, i + 1).drop_last() =~= subs.subrange(0, i as int));
            assert(subs.subrange(0, i + 1).last() == subs[i as int]);
        }
        if config.subvolumes[i].create {
            out.push(config.subvolumes[i].mountpoint.clone());
        }
        proof {
            assert(out@.map_values(|n: String| n@) =~= create_targets_seq(
                subs.subrange(0, i + 1),
            ));
        }
        i += 1;
    }
    proof {
        assert(subs.subrange(0, subs.len() as int) =~= subs);
    }
    out
}

/// The filesystems an auto-clean-all batch walks, in configuration order.
pub fn autoclean_targets(config: &Config) -> (r: Vec<String>)
    ensures
        r@.map_values(|n: String| n@) == autoclean_targets_seq(config.subvolumes@),
{
    let ghost subs = config.subvolumes@;
    let mut out: Vec<String> = Vec::new();
    let mut i: usize = 0;
    proof {
        assert(subs.subrange(0, 0) =~= Seq::<Subvolume>::empty());
        assert(out@.map_values(|n: String| n@) =~= autoclean_targets_seq(subs.subrange(0, 0)));
    }
    while i < config.subvolumes.len()
        invariant
            i <= subs.len(),
            subs == config.subvolumes@,
            out@.map_values(|n: String| n@) == autoclean_targets_seq(subs.subrange(0, i as int)),
        decreases subs.len() - i,
    {
        proof {
            assert(subs.subrange(0, i + 1).drop_last() =~= subs.subrange(0, i as int));
            assert(subs.subrange(0, i + 1).last() == subs[i as int]);
        }
        if config.subvolumes[i].autoclean {
            out.push(config.subvolumes[i].mountpoint.clone());
        }
        proof {
            assert(out@.map_values(|n: String| n@) =~= autoclean_targets_seq(
                subs.subrange(0, i + 1),
            ));
        }
        i += 1;
    }
    proof {
        assert(subs.subrange(0, subs.len() as int) =~= subs);
    }
    out
}

} // verus!
