//! The tiered retention classifier.
//!
//! A newest-first sequence of snapshot timestamps is walked once.  Five
//! counters, one per tier, start at zero.  A record is kept under the
//! first tier, in the fixed order hourly, daily, weekly, monthly, yearly,
//! whose counter is below its cap and whose calendar bucket is new
//! relative to the previous *kept* record; keeping it bumps that tier's
//! counter and makes it the new previous kept record.  A record no tier
//! accepts is pruned, and pruned records leave the state untouched.  "New"
//! compares the relevant calendar field alone: the hour of day, the day of
//! month, the ISO week, the month, or the year; with no previous kept
//! record every bucket counts as new, so the newest record is always a
//! candidate.  A cap of zero disables its tier outright.
//!
//! The classifier is a pure function of the ordered records and the caps:
//! no wall clock, no hidden state.

use vstd::prelude::*;

use crate::time::{iso_week_of_date, ts_iso_week, ts_valid, Timestamp};

verus! {

/// The tier under which a snapshot is kept.
#[derive(Clone, Copy, PartialEq, Eq, Structural, Debug)]
pub enum Tier {
    Hourly,
    Daily,
    Weekly,
    Monthly,
    Yearly,
}

/// Per-tier caps on how many snapshots the classifier may keep.  A cap of
/// zero disables the tier; `usize::MAX` makes it effectively unlimited.
#[derive(Clone, Copy, PartialEq, Eq, Structural, Debug)]
pub struct Caps {
    pub hourly: usize,
    pub daily: usize,
    pub weekly: usize,
    pub monthly: usize,
    pub yearly: usize,
}

/// The classifier's running counters, one per tier.
pub ghost struct Counts {
    pub hourly: int,
    pub daily: int,
    pub weekly: int,
    pub monthly: int,
    pub yearly: int,
}

pub open spec fn zero_counts() -> Counts {
    Counts { hourly: 0, daily: 0, weekly: 0, monthly: 0, yearly: 0 }
}

/// Two timestamps fall in the same calendar bucket of a tier exactly when
/// the tier's calendar field agrees.
pub open spec fn same_bucket(tier: Tier, a: Timestamp, b: Timestamp) -> bool {
    match tier {
        Tier::Hourly => a.hour == b.hour,
        Tier::Daily => a.day == b.day,
        Tier::Weekly => ts_iso_week(a) == ts_iso_week(b),
        Tier::Monthly => a.month == b.month,
        Tier::Yearly => a.year == b.year,
    }
}

/// A record starts a new bucket at a tier when there is no previous kept
/// record yet, or its field differs from the previous kept record's.
pub open spec fn is_new(tier: Tier, prev: Option<Timestamp>, t: Timestamp) -> bool {
    match prev {
        None => true,
        Some(p) => !same_bucket(tier, p, t),
    }
}

/// The tier that keeps a record, if any: the first one, in priority
/// order, with room below its cap and a new bucket.
pub open spec fn decide(caps: Caps, counts: Counts, prev: Option<Timestamp>, t: Timestamp) -> Option<
    Tier,
> {
    if counts.hourly < caps.hourly && is_new(Tier::Hourly, prev, t) {
        Some(Tier::Hourly)
    } else if counts.daily < caps.daily && is_new(Tier::Daily, prev, t) {
        Some(Tier::Daily)
    } else if counts.weekly < caps.weekly && is_new(Tier::Weekly, prev, t) {
        Some(Tier::Weekly)
    } else if counts.monthly < caps.monthly && is_new(Tier::Monthly, prev, t) {
        Some(Tier::Monthly)
    } else if counts.yearly < caps.yearly && is_new(Tier::Yearly, prev, t) {
        Some(Tier::Yearly)
    } else {
        None
    }
}

pub open spec fn bump(counts: Counts, tier: Tier) -> Counts {
    match tier {
        Tier::Hourly => Counts { hourly: counts.hourly + 1, ..counts },
        Tier::Daily => Counts { daily: counts.daily + 1, ..counts },
        Tier::Weekly => Counts { weekly: counts.weekly + 1, ..counts },
        Tier::Monthly => Counts { monthly: counts.monthly + 1, ..counts },
        Tier::Yearly => Counts { yearly: counts.yearly + 1, ..counts },
    }
}

/// The decisions for a newest-first record sequence, started from a given
/// intermediate state.
pub open spec fn classify_from(
    caps: Caps,
    counts: Counts,
    prev: Option<Timestamp>,
    recs: Seq<Timestamp>,
) -> Seq<Option<Tier>>
    decreases recs.len(),
{
    if recs.len() == 0 {
        Seq::empty()
    } else {
        match decide(caps, counts, prev, recs[0]) {
            Some(tier) => seq![Some(tier)] + classify_from(
                caps,
                bump(counts, tier),
                Some(recs[0]),
                recs.drop_first(),
            ),
            None => seq![Option::<Tier>::None] + classify_from(caps, counts, prev, recs.drop_first()),
        }
    }
}

/// The decision for every record of a newest-first sequence: `Some(tier)`
/// keeps the record under that tier, `None` prunes it.
pub open spec fn classify_seq(caps: Caps, recs: Seq<Timestamp>) -> Seq<Option<Tier>> {
    classify_from(caps, zero_counts(), None, recs)
}

/// The records a classification pass keeps, in order, from an
/// intermediate state on.
pub open spec fn kept_from(
    caps: Caps,
    counts: Counts,
    prev: Option<Timestamp>,
    recs: Seq<Timestamp>,
) -> Seq<Timestamp>
    decreases recs.len(),
{
    if recs.len() == 0 {
        Seq::empty()
    } else {
        match decide(caps, counts, prev, recs[0]) {
            Some(tier) => seq![recs[0]] + kept_from(
                caps,
                bump(counts, tier),
                Some(recs[0]),
                recs.drop_first(),
            ),
            None => kept_from(caps, counts, prev, recs.drop_first()),
        }
    }
}

/// The records that survive a full classification pass, in order.
pub open spec fn kept_seq(caps: Caps, recs: Seq<Timestamp>) -> Seq<Timestamp> {
    kept_from(caps, zero_counts(), None, recs)
}

pub proof fn lemma_classify_len(
    caps: Caps,
    counts: Counts,
    prev: Option<Timestamp>,
    recs: Seq<Timestamp>,
)
    ensures
        classify_from(caps, counts, prev, recs).len() == recs.len(),
    decreases recs.len(),
{
    if recs.len() > 0 {
        match decide(caps, counts, prev, recs[0]) {
            Some(tier) => {
                lemma_classify_len(caps, bump(counts, tier), Some(recs[0]), recs.drop_first());
            },
            None => {
                lemma_classify_len(caps, counts, prev, recs.drop_first());
            },
        }
    }
}

proof fn lemma_idempotent_from(
    caps: Caps,
    counts: Counts,
    prev: Option<Timestamp>,
    recs: Seq<Timestamp>,
)
    ensures
        forall|k: int| 0 <= k < kept_from(caps, counts, prev, recs).len() ==> (#[trigger]
        classify_from(caps, counts, prev, kept_from(caps, counts, prev, recs))[k]) is Some,
    decreases recs.len(),
{
    let ks = kept_from(caps, counts, prev, recs);
    if recs.len() == 0 {
        lemma_classify_len(caps, counts, prev, ks);
    } else {
        match decide(caps, counts, prev, recs[0]) {
            Some(tier) => {
                let counts1 = bump(counts, tier);
                let ks1 = kept_from(caps, counts1, Some(recs[0]), recs.drop_first());
                lemma_idempotent_from(caps, counts1, Some(recs[0]), recs.drop_first());
                assert(ks[0] == recs[0]);
                assert(ks.drop_first() =~= ks1);
                assert(classify_from(caps, counts, prev, ks) == seq![Some(tier)]
                    + classify_from(caps, counts1, Some(recs[0]), ks1));
                lemma_classify_len(caps, counts1, Some(recs[0]), ks1);
            },
            None => {
                lemma_idempotent_from(caps, counts, prev, recs.drop_first());
            },
        }
    }
}

/// Law: auto-cleaning is idempotent.  Classifying the records a pass kept,
/// with the same caps and nothing new in between, prunes nothing: every
/// decision of the second pass keeps its record.
pub proof fn lemma_retention_idempotent(caps: Caps, recs: Seq<Timestamp>)
    ensures
        forall|k: int| 0 <= k < kept_seq(caps, recs).len() ==> (#[trigger] classify_seq(
            caps,
            kept_seq(caps, recs),
        )[k]) is Some,
{
    lemma_idempotent_from(caps, zero_counts(), None, recs);
}

spec fn counts_le_caps(caps: Caps, c: Counts) -> bool {
    0 <= c.hourly <= caps.hourly && 0 <= c.daily <= caps.daily && 0 <= c.weekly <= caps.weekly
        && 0 <= c.monthly <= caps.monthly && 0 <= c.yearly <= caps.yearly
}

/// Both runs still see the same previous kept record, and the second has
/// exactly one spare slot more than the first, at exactly one tier.
spec fn rel_lock(
    caps1: Caps,
    c1: Counts,
    p1: Option<Timestamp>,
    caps2: Caps,
    c2: Counts,
    p2: Option<Timestamp>,
) -> bool {
    p1 == p2 && {
        let dh = (caps2.hourly - c2.hourly) - (caps1.hourly - c1.hourly);
        let dd = (caps2.daily - c2.daily) - (caps1.daily - c1.daily);
        let dw = (caps2.weekly - c2.weekly) - (caps1.weekly - c1.weekly);
        let dm = (caps2.monthly - c2.monthly) - (caps1.monthly - c1.monthly);
        let dy = (caps2.yearly - c2.yearly) - (caps1.yearly - c1.yearly);
        0 <= dh <= 1 && 0 <= dd <= 1 && 0 <= dw <= 1 && 0 <= dm <= 1 && 0 <= dy <= 1 && dh + dd
            + dw + dm + dy == 1
    }
}

/// The two previous kept records fall in the same bucket of a tier (or
/// neither run has one yet).
spec fn prev_agree(tier: Tier, p1: Option<Timestamp>, p2: Option<Timestamp>) -> bool {
    match (p1, p2) {
        (Option::None, Option::None) => true,
        (Option::Some(a), Option::Some(b)) => same_bucket(tier, a, b),
        _ => false,
    }
}

/// Both runs have the same spare capacity at every tier, and wherever any
/// capacity is left their previous kept records agree on that tier's
/// bucket, so the runs decide alike from here on.
spec fn rel_sync(
    caps1: Caps,
    c1: Counts,
    p1: Option<Timestamp>,
    caps2: Caps,
    c2: Counts,
    p2: Option<Timestamp>,
) -> bool {
    caps2.hourly - c2.hourly == caps1.hourly - c1.hourly && caps2.daily - c2.daily == caps1.daily
        - c1.daily && caps2.weekly - c2.weekly == caps1.weekly - c1.weekly && caps2.monthly
        - c2.monthly == caps1.monthly - c1.monthly && caps2.yearly - c2.yearly == caps1.yearly
        - c1.yearly && (caps1.hourly - c1.hourly > 0 ==> prev_agree(Tier::Hourly, p1, p2)) && (
    caps1.daily - c1.daily > 0 ==> prev_agree(Tier::Daily, p1, p2)) && (caps1.weekly - c1.weekly
        > 0 ==> prev_agree(Tier::Weekly, p1, p2)) && (caps1.monthly - c1.monthly > 0
        ==> prev_agree(Tier::Monthly, p1, p2)) && (caps1.yearly - c1.yearly > 0 ==> prev_agree(
        Tier::Yearly,
        p1,
        p2,
    ))
}

/// The simulation relation between a run under the smaller caps and a run
/// under the larger caps.
spec fn rel(
    caps1: Caps,
    c1: Counts,
    p1: Option<Timestamp>,
    caps2: Caps,
    c2: Counts,
    p2: Option<Timestamp>,
) -> bool {
    counts_le_caps(caps1, c1) && counts_le_caps(caps2, c2) && (rel_lock(caps1, c1, p1, caps2, c2, p2)
        || rel_sync(caps1, c1, p1, caps2, c2, p2))
}

spec fn step_counts(caps: Caps, c: Counts, p: Option<Timestamp>, t: Timestamp) -> Counts {
    match decide(caps, c, p, t) {
        Some(tier) => bump(c, tier),
        None => c,
    }
}

spec fn step_prev(
    caps: Caps,
    c: Counts,
    p: Option<Timestamp>,
    t: Timestamp,
) -> Option<Timestamp> {
    match decide(caps, c, p, t) {
        Some(_) => Some(t),
        None => p,
    }
}

#[verifier::rlimit(100)]
proof fn lemma_step_rel(
    caps1: Caps,
    c1: Counts,
    p1: Option<Timestamp>,
    caps2: Caps,
    c2: Counts,
    p2: Option<Timestamp>,
    t: Timestamp,
)
    requires
        rel(caps1, c1, p1, caps2, c2, p2),
    ensures
        decide(caps1, c1, p1, t) is Some ==> decide(caps2, c2, p2, t) is Some,
        rel(
            caps1,
            step_counts(caps1, c1, p1, t),
            step_prev(caps1, c1, p1, t),
            caps2,
            step_counts(caps2, c2, p2, t),
            step_prev(caps2, c2, p2, t),
        ),
{
}

proof fn lemma_mono_from(
    caps1: Caps,
    c1: Counts,
    p1: Option<Timestamp>,
    caps2: Caps,
    c2: Counts,
    p2: Option<Timestamp>,
    recs: Seq<Timestamp>,
)
    requires
        rel(caps1, c1, p1, caps2, c2, p2),
    ensures
        forall|k: int|
            0 <= k < recs.len() ==> ((#[trigger] classify_from(caps1, c1, p1, recs)[k]) is Some
                ==> (#[trigger] classify_from(caps2, c2, p2, recs)[k]) is Some),
    decreases recs.len(),
{
    if recs.len() > 0 {
        let t = recs[0];
        lemma_step_rel(caps1, c1, p1, caps2, c2, p2, t);
        let c1n = step_counts(caps1, c1, p1, t);
        let p1n = step_prev(caps1, c1, p1, t);
        let c2n = step_counts(caps2, c2, p2, t);
        let p2n = step_prev(caps2, c2, p2, t);
        lemma_mono_from(caps1, c1n, p1n, caps2, c2n, p2n, recs.drop_first());
        match decide(caps1, c1, p1, t) {
            Some(tier) => {
                assert(classify_from(caps1, c1, p1, recs) == seq![Some(tier)] + classify_from(
                    caps1,
                    c1n,
                    p1n,
                    recs.drop_first(),
                ));
            },
            None => {
                assert(classify_from(caps1, c1, p1, recs) == seq![Option::<Tier>::None]
                    + classify_from(caps1, c1n, p1n, recs.drop_first()));
            },
        }
        match decide(caps2, c2, p2, t) {
            Some(tier) => {
                assert(classify_from(caps2, c2, p2, recs) == seq![Some(tier)] + classify_from(
                    caps2,
                    c2n,
                    p2n,
                    recs.drop_first(),
                ));
            },
            None => {
                assert(classify_from(caps2, c2, p2, recs) == seq![Option::<Tier>::None]
                    + classify_from(caps2, c2n, p2n, recs.drop_first()));
            },
        }
        let d1 = decide(caps1, c1, p1, t);
        let d2 = decide(caps2, c2, p2, t);
        let rest1 = classify_from(caps1, c1n, p1n, recs.drop_first());
        let rest2 = classify_from(caps2, c2n, p2n, recs.drop_first());
        lemma_classify_len(caps1, c1n, p1n, recs.drop_first());
        lemma_classify_len(caps2, c2n, p2n, recs.drop_first());
        assert(classify_from(caps1, c1, p1, recs) == seq![d1] + rest1);
        assert(classify_from(caps2, c2, p2, recs) == seq![d2] + rest2);
        assert forall|k: int|
            0 <= k < recs.len() && (#[trigger] classify_from(caps1, c1, p1, recs)[k]) is Some
                implies (#[trigger] classify_from(caps2, c2, p2, recs)[k]) is Some by {
            if k >= 1 {
                assert((seq![d1] + rest1)[k] == rest1[k - 1]);
                assert((seq![d2] + rest2)[k] == rest2[k - 1]);
            } else {
                assert((seq![d1] + rest1)[0] == d1);
                assert((seq![d2] + rest2)[0] == d2);
            }
        }
    }
}

proof fn lemma_caps_mono_once(caps1: Caps, caps2: Caps, recs: Seq<Timestamp>)
    requires
        rel(caps1, zero_counts(), None, caps2, zero_counts(), None),
    ensures
        forall|k: int|
            #![trigger classify_seq(caps1, recs)[k]]
            0 <= k < recs.len() ==> (classify_seq(caps1, recs)[k] is Some ==> classify_seq(
                caps2,
                recs,
            )[k] is Some),
{
    lemma_mono_from(caps1, zero_counts(), None, caps2, zero_counts(), None, recs);
    assert forall|k: int|
        #![trigger classify_seq(caps1, recs)[k]]
        0 <= k < recs.len() && classify_seq(caps1, recs)[k] is Some implies classify_seq(
        caps2,
        recs,
    )[k] is Some by {
        assert(classify_from(caps1, zero_counts(), None, recs)[k] is Some);
        assert(classify_from(caps2, zero_counts(), None, recs)[k] is Some);
    }
}

/// Law: enlarging tier caps can only move records from the prune set into
/// the keep set, never the reverse.  With caps raised pointwise (in
/// particular, with any single tier's cap raised and the rest unchanged)
/// every record the smaller caps kept is still kept.
pub proof fn lemma_caps_monotone(caps1: Caps, caps2: Caps, recs: Seq<Timestamp>)
    requires
        caps1.hourly <= caps2.hourly,
        caps1.daily <= caps2.daily,
        caps1.weekly <= caps2.weekly,
        caps1.monthly <= caps2.monthly,
        caps1.yearly <= caps2.yearly,
    ensures
        forall|k: int|
            #![trigger classify_seq(caps1, recs)[k]]
            0 <= k < recs.len() ==> (classify_seq(caps1, recs)[k] is Some ==> classify_seq(
                caps2,
                recs,
            )[k] is Some),
    decreases (caps2.hourly - caps1.hourly) + (caps2.daily - caps1.daily) + (caps2.weekly
        - caps1.weekly) + (caps2.monthly - caps1.monthly) + (caps2.yearly - caps1.yearly),
{
    if caps1.hourly < caps2.hourly {
        let mid = Caps { hourly: (caps1.hourly + 1) as usize, ..caps1 };
        lemma_caps_mono_once(caps1, mid, recs);
        lemma_caps_monotone(mid, caps2, recs);
    } else if caps1.daily < caps2.daily {
        let mid = Caps { daily: (caps1.daily + 1) as usize, ..caps1 };
        lemma_caps_mono_once(caps1, mid, recs);
        lemma_caps_monotone(mid, caps2, recs);
    } else if caps1.weekly < caps2.weekly {
        let mid = Caps { weekly: (caps1.weekly + 1) as usize, ..caps1 };
        lemma_caps_mono_once(caps1, mid, recs);
        lemma_caps_monotone(mid, caps2, recs);
    } else if caps1.monthly < caps2.monthly {
        let mid = Caps { monthly: (caps1.monthly + 1) as usize, ..caps1 };
        lemma_caps_mono_once(caps1, mid, recs);
        lemma_caps_monotone(mid, caps2, recs);
    } else if caps1.yearly < caps2.yearly {
        let mid = Caps { yearly: (caps1.yearly + 1) as usize, ..caps1 };
        lemma_caps_mono_once(caps1, mid, recs);
        lemma_caps_monotone(mid, caps2, recs);
    } else {
        assert(caps1 == caps2);
    }
}

/// Classifies a newest-first sequence of snapshot timestamps under the
/// given caps.  The decision vector is aligned with the input: entry `i`
/// keeps or prunes record `i`.
pub fn classify(times: &Vec<Timestamp>, caps: &Caps) -> (r: Vec<Option<Tier>>)
    requires
        forall|i: int| 0 <= i < times@.len() ==> ts_valid(#[trigger] times@[i]),
    ensures
        r@ == classify_seq(*caps, times@),
{
    let mut hourly: usize = 0;
    let mut daily: usize = 0;
    let mut weekly: usize = 0;
    let mut monthly: usize = 0;
    let mut yearly: usize = 0;
    let mut prev: Option<Timestamp> = None;
    let mut prev_week: (i32, u32) = (0, 0);
    let mut out: Vec<Option<Tier>> = Vec::new();
    let mut i: usize = 0;
    proof {
        assert(times@.skip(0) =~= times@);
        assert(out@ + classify_from(*caps, zero_counts(), None, times@) =~= classify_seq(
            *caps,
            times@,
        ));
    }
    while i < times.len()
        invariant
            i <= times@.len(),
            forall|k: int| 0 <= k < times@.len() ==> ts_valid(#[trigger] times@[k]),
            out@.len() == i,
            match prev {
                Some(p) => ts_valid(p) && (prev_week.0 as int, prev_week.1 as int) == ts_iso_week(
                    p,
                ),
                None => true,
            },
            classify_seq(*caps, times@) == out@ + classify_from(
                *caps,
                Counts {
                    hourly: hourly as int,
                    daily: daily as int,
                    weekly: weekly as int,
                    monthly: monthly as int,
                    yearly: yearly as int,
                },
                prev,
                times@.skip(i as int),
            ),
        decreases times@.len() - i,
    {
        let ghost counts = Counts {
            hourly: hourly as int,
            daily: daily as int,
            weekly: weekly as int,
            monthly: monthly as int,
            yearly: yearly as int,
        };
        let t = times[i];
        let week = iso_week_of_date(t.year, t.month, t.day);
        let new_hour = match &prev {
            None => true,
            Some(p) => p.hour != t.hour,
        };
        let new_day = match &prev {
            None => true,
            Some(p) => p.day != t.day,
        };
        let new_week = match &prev {
            None => true,
            Some(_) => prev_week.0 != week.0 || prev_week.1 != week.1,
        };
        let new_month = match &prev {
            None => true,
            Some(p) => p.month != t.month,
        };
        let new_year = match &prev {
            None => true,
            Some(p) => p.year != t.year,
        };
        let decision: Option<Tier> = if hourly < caps.hourly && new_hour {
            Some(Tier::Hourly)
        } else if daily < caps.daily && new_day {
            Some(Tier::Daily)
        } else if weekly < caps.weekly && new_week {
            Some(Tier::Weekly)
        } else if monthly < caps.monthly && new_month {
            Some(Tier::Monthly)
        } else if yearly < caps.yearly && new_year {
            Some(Tier::Yearly)
        } else {
            None
        };
        proof {
            assert(new_week == is_new(Tier::Weekly, prev, t));
            assert(decision == decide(*caps, counts, prev, t));
            assert(times@.skip(i as int)[0] == t);
            assert(times@.skip(i as int).drop_first() =~= times@.skip(i + 1));
        }
        match decision {
            Some(tier) => {
                match tier {
                    Tier::Hourly => {
                        hourly += 1;
                    },
                    Tier::Daily => {
                        daily += 1;
                    },
                    Tier::Weekly => {
                        weekly += 1;
                    },
                    Tier::Monthly => {
                        monthly += 1;
                    },
                    Tier::Yearly => {
                        yearly += 1;
                    },
                }
                prev = Some(t);
                prev_week = week;
                out.push(Some(tier));
            },
            None => {
                out.push(None);
            },
        }
        i += 1;
        proof {
            assert(classify_seq(*caps, times@) == out@ + classify_from(
                *caps,
                Counts {
                    hourly: hourly as int,
                    daily: daily as int,
                    weekly: weekly as int,
                    monthly: monthly as int,
                    yearly: yearly as int,
                },
                prev,
                times@.skip(i as int),
            )) by {
                assert(out@ =~= out@.subrange(0, out@.len() - 1).push(out@.last()));
            }
        }
    }
    proof {
        assert(times@.skip(times@.len() as int) =~= Seq::<Timestamp>::empty());
        assert(out@ =~= classify_seq(*caps, times@));
    }
    out
}

} // verus!
