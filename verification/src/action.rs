//! Pure planning for the lifecycle operations.
//!
//! The orchestration around the snapshot backend splits into reading a
//! directory, deciding, and issuing create or delete calls.  The deciding
//! lives here: where a new snapshot goes, and which existing ones a
//! count-based clean or a tiered auto-clean removes.  A caller performs
//! the resulting plan (or only reports it, under dry-run); the plans
//! themselves never touch the filesystem.

use vstd::prelude::*;

use crate::index::{
    build_index, index_seq, lemma_index_valid, rec_view, recs_view, SnapshotRecord,
};
use crate::retention::{classify, classify_seq, Caps, Tier};
use crate::time::{ts_valid, Timestamp};
use crate::util::escape_seq;

verus! {

/// The directory of one filesystem's snapshots: the snapshot root, a
/// separator, and the escaped mountpoint.
pub open spec fn snapshot_dir_spec(root: Seq<char>, filesystem: Seq<char>) -> Seq<char> {
    root + seq!['/'] + escape_seq(filesystem)
}

/// Where the snapshots of a filesystem live under the snapshot root.
pub fn snapshot_dir(root: &str, filesystem: &str) -> (r: String)
    ensures
        r@ == snapshot_dir_spec(root@, filesystem@),
{
    proof {
        reveal_strlit("/");
    }
    let mut out = String::from_str(root);
    out.append("/");
    out.append(crate::util::escape_slash(filesystem).as_str());
    proof {
        assert("/"@ =~= seq!['/']);
        assert(out@ =~= snapshot_dir_spec(root@, filesystem@));
    }
    out
}

/// One entry's full path: the directory, a separator, and the entry name.
pub fn join_path(dir: &str, name: &str) -> (r: String)
    ensures
        r@ == dir@ + seq!['/'] + name@,
{
    proof {
        reveal_strlit("/");
    }
    let mut out = String::from_str(dir);
    out.append("/");
    out.append(name);
    proof {
        assert("/"@ =~= seq!['/']);
        assert(out@ =~= dir@ + seq!['/'] + name@);
    }
    out
}

/// The names a count-based clean removes: everything beyond the newest
/// `nkeep` records of the newest-first index, in index order.  With
/// `nkeep` or fewer records nothing is removed.
pub fn clean_plan(records: &Vec<SnapshotRecord>, nkeep: usize) -> (r: Vec<String>)
    ensures
        r@.len() == if records@.len() > nkeep {
            records@.len() - nkeep
        } else {
            0
        },
        forall|i: int| 0 <= i < r@.len() ==> (#[trigger] r@[i])@ == records@[nkeep + i].name@,
{
    let mut out: Vec<String> = Vec::new();
    let mut i: usize = nkeep;
    while i < records.len()
        invariant
            nkeep <= i <= records@.len() || (i == nkeep && records@.len() <= nkeep),
            out@.len() == i - nkeep,
            forall|j: int| 0 <= j < out@.len() ==> (#[trigger] out@[j])@ == records@[nkeep + j].name@,
        decreases records@.len() - i,
    {
        out.push(records[i].name.clone());
        i += 1;
    }
    out
}

/// The names at the pruned positions of a decision vector, in order.
pub open spec fn pruned_names(names: Seq<Seq<char>>, decisions: Seq<Option<Tier>>) -> Seq<Seq<char>>
    recommends
        names.len() == decisions.len(),
    decreases names.len(),
{
    if names.len() == 0 {
        Seq::empty()
    } else {
        let rest = pruned_names(names.drop_last(), decisions.drop_last());
        if decisions.last() is None {
            rest.push(names.last())
        } else {
            rest
        }
    }
}

/// The timestamps of a record sequence, in order.
pub open spec fn record_times(recs: Seq<SnapshotRecord>) -> Seq<Timestamp> {
    recs.map_values(|r: SnapshotRecord| r.timestamp)
}

/// The names of a record sequence, in order.
pub open spec fn record_names(recs: Seq<SnapshotRecord>) -> Seq<Seq<char>> {
    recs.map_values(|r: SnapshotRecord| r.name@)
}

/// The names a tiered auto-clean removes: exactly the records of the
/// newest-first index that the classifier prunes under the given caps, in
/// index order.
pub fn autoclean_plan(records: &Vec<SnapshotRecord>, caps: &Caps) -> (r: Vec<String>)
    requires
        forall|i: int| 0 <= i < records@.len() ==> ts_valid((#[trigger] records@[i]).timestamp),
    ensures
        r@.map_values(|n: String| n@) == pruned_names(
            record_names(records@),
            classify_seq(*caps, record_times(records@)),
        ),
{
    let mut times: Vec<Timestamp> = Vec::new();
    let mut i: usize = 0;
    while i < records.len()
        invariant
            i <= records@.len(),
            forall|k: int| 0 <= k < records@.len() ==> ts_valid((#[trigger] records@[k]).timestamp),
            times@ == record_times(records@.subrange(0, i as int)),
        decreases records@.len() - i,
    {
        times.push(records[i].timestamp);
        proof {
            assert(records@.subrange(0, i + 1) =~= records@.subrange(0, i as int).push(
                records@[i as int],
            ));
            assert(times@ =~= record_times(records@.subrange(0, i + 1)));
        }
        i += 1;
    }
    proof {
        assert(records@.subrange(0, records@.len() as int) =~= records@);
        assert(forall|k: int|
            0 <= k < times@.len() ==> #[trigger] times@[k] == record_times(records@)[k]);
    }
    let decisions = classify(&times, caps);
    let ghost ds = classify_seq(*caps, record_times(records@));
    let mut out: Vec<String> = Vec::new();
    let mut j: usize = 0;
    proof {
        crate::retention::lemma_classify_len(
            *caps,
            crate::retention::zero_counts(),
            None,
            record_times(records@),
        );
        assert(record_names(records@.subrange(0, 0)) =~= Seq::<Seq<char>>::empty());
        assert(out@.map_values(|n: String| n@) =~= pruned_names(
            record_names(records@.subrange(0, 0)),
            ds.subrange(0, 0),
        ));
    }
    while j < records.len()
        invariant
            j <= records@.len(),
            decisions@ == ds,
            ds.len() == records@.len(),
            out@.map_values(|n: String| n@) == pruned_names(
                record_names(records@.subrange(0, j as int)),
                ds.subrange(0, j as int),
            ),
        decreases records@.len() - j,
    {
        let ghost names1 = record_names(records@.subrange(0, j + 1));
        proof {
            assert(names1.drop_last() =~= record_names(records@.subrange(0, j as int)));
            assert(ds.subrange(0, j + 1).drop_last() =~= ds.subrange(0, j as int));
            assert(names1.last() == records@[j as int].name@);
            assert(ds.subrange(0, j + 1).last() == ds[j as int]);
        }
        if decisions[j].is_none() {
            out.push(records[j].name.clone());
        }
        proof {
            assert(out@.map_values(|n: String| n@) =~= pruned_names(
                names1,
                ds.subrange(0, j + 1),
            ));
        }
        j += 1;
    }
    proof {
        assert(records@.subrange(0, records@.len() as int) =~= records@);
        assert(ds.subrange(0, ds.len() as int) =~= ds);
    }
    out
}

/// The whole auto-clean decision for one directory listing: the names are
/// indexed under the given suffix and everything the classifier prunes
/// under the given caps is listed, newest first.
pub fn autoclean_index(names: &Vec<String>, suffix: &str, caps: &Caps) -> (r: Vec<String>)
    ensures
        ({
            let idx = index_seq(names@.map_values(|n: String| n@), suffix@);
            r@.map_values(|n: String| n@) == pruned_names(
                idx.map_values(|p: (Seq<char>, Timestamp)| p.0),
                classify_seq(*caps, idx.map_values(|p: (Seq<char>, Timestamp)| p.1)),
            )
        }),
{
    let records = build_index(names, suffix);
    proof {
        let idx = index_seq(names@.map_values(|n: String| n@), suffix@);
        lemma_index_valid(names@.map_values(|n: String| n@), suffix@);
        assert(forall|k: int|
            0 <= k < records@.len() ==> #[trigger] recs_view(records@)[k] == rec_view(
                records@[k],
            ));
        assert forall|k: int| 0 <= k < records@.len() implies ts_valid(
            (#[trigger] records@[k]).timestamp,
        ) by {
            assert(recs_view(records@)[k] == rec_view(records@[k]));
            assert(ts_valid(index_seq(names@.map_values(|n: String| n@), suffix@)[k].1));
        }
        assert(record_names(records@) =~= idx.map_values(|p: (Seq<char>, Timestamp)| p.0));
        assert(record_times(records@) =~= idx.map_values(|p: (Seq<char>, Timestamp)| p.1));
    }
    autoclean_plan(&records, caps)
}

} // verus!
