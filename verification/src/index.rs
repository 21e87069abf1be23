//! The snapshot index.
//!
//! From the entry names of one snapshot directory the index reconstructs a
//! chronologically ordered view of the snapshots carrying a given suffix.
//! Every name is put through the codec; names that do not decode are
//! silently skipped, never reported as errors, because a directory may hold
//! entries of other tools or of another suffix.  Survivors are ordered
//! newest first.  Entries with identical timestamps keep the order in
//! which they were listed (they are placed behind earlier equals).

use vstd::prelude::*;

use crate::codec::decode;
use crate::codec::decode_spec;
use crate::time::{ts_le, ts_lt, ts_valid, Timestamp};

verus! {

/// One snapshot seen in a directory listing: the entry name and the
/// timestamp decoded from it.
pub struct SnapshotRecord {
    pub name: String,
    pub timestamp: Timestamp,
}

/// A record as a pair of plain values: the name's characters and the
/// timestamp.
pub open spec fn rec_view(r: SnapshotRecord) -> (Seq<char>, Timestamp) {
    (r.name@, r.timestamp)
}

/// The records a vector of them stands for.
pub open spec fn recs_view(v: Seq<SnapshotRecord>) -> Seq<(Seq<char>, Timestamp)> {
    v.map_values(|r: SnapshotRecord| rec_view(r))
}

/// Newest first, older or equal records later.
pub open spec fn sorted_desc(s: Seq<(Seq<char>, Timestamp)>) -> bool {
    forall|i: int, j: int| 0 <= i < j < s.len() ==> ts_le(#[trigger] s[j].1, #[trigger] s[i].1)
}

/// Inserts a decoded entry behind every record at least as new, so equal
/// timestamps keep their listing order.
pub open spec fn insert_desc(
    s: Seq<(Seq<char>, Timestamp)>,
    r: (Seq<char>, Timestamp),
) -> Seq<(Seq<char>, Timestamp)>
    decreases s.len(),
{
    if s.len() == 0 {
        seq![r]
    } else if ts_lt(s[0].1, r.1) {
        seq![r] + s
    } else {
        seq![s[0]] + insert_desc(s.drop_first(), r)
    }
}

/// The ordered view of a listing: every name is decoded against the
/// suffix, failures are skipped, and survivors are ordered newest first in
/// listing order among equals.
pub open spec fn index_seq(names: Seq<Seq<char>>, suffix: Seq<char>) -> Seq<
    (Seq<char>, Timestamp),
>
    decreases names.len(),
{
    if names.len() == 0 {
        Seq::empty()
    } else {
        let prev = index_seq(names.drop_last(), suffix);
        match decode_spec(names.last(), suffix) {
            Some(t) => insert_desc(prev, (names.last(), t)),
            None => prev,
        }
    }
}

proof fn lemma_insert_desc_at(
    s: Seq<(Seq<char>, Timestamp)>,
    r: (Seq<char>, Timestamp),
    pos: int,
)
    requires
        0 <= pos <= s.len(),
        forall|j: int| 0 <= j < pos ==> !ts_lt(#[trigger] s[j].1, r.1),
        pos < s.len() ==> ts_lt(s[pos].1, r.1),
    ensures
        insert_desc(s, r) == s.insert(pos, r),
    decreases s.len(),
{
    if s.len() == 0 {
        assert(insert_desc(s, r) =~= s.insert(pos, r));
    } else if pos == 0 {
        assert(ts_lt(s[0].1, r.1));
        assert(insert_desc(s, r) =~= s.insert(pos, r));
    } else {
        assert(!ts_lt(s[0].1, r.1));
        assert(forall|j: int|
            0 <= j < pos - 1 ==> !ts_lt(#[trigger] s.drop_first()[j].1, r.1));
        lemma_insert_desc_at(s.drop_first(), r, pos - 1);
        assert(insert_desc(s, r) =~= s.insert(pos, r));
    }
}

/// The position [`insert_desc`] inserts at: behind every record at least
/// as new as the inserted one.
pub open spec fn ins_pos(s: Seq<(Seq<char>, Timestamp)>, r: (Seq<char>, Timestamp)) -> int
    decreases s.len(),
{
    if s.len() == 0 {
        0
    } else if ts_lt(s[0].1, r.1) {
        0
    } else {
        1 + ins_pos(s.drop_first(), r)
    }
}

proof fn lemma_ins_pos(s: Seq<(Seq<char>, Timestamp)>, r: (Seq<char>, Timestamp))
    ensures
        0 <= ins_pos(s, r) <= s.len(),
        forall|j: int| 0 <= j < ins_pos(s, r) ==> !ts_lt(#[trigger] s[j].1, r.1),
        ins_pos(s, r) < s.len() ==> ts_lt(s[ins_pos(s, r)].1, r.1),
        insert_desc(s, r) == s.insert(ins_pos(s, r), r),
    decreases s.len(),
{
    if s.len() == 0 || ts_lt(s[0].1, r.1) {
        lemma_insert_desc_at(s, r, ins_pos(s, r));
    } else {
        lemma_ins_pos(s.drop_first(), r);
        assert forall|j: int| 0 <= j < ins_pos(s, r) implies !ts_lt(#[trigger] s[j].1, r.1) by {
            if j >= 1 {
                assert(s[j] == s.drop_first()[j - 1]);
                assert(!ts_lt(s.drop_first()[j - 1].1, r.1));
            }
        }
        lemma_insert_desc_at(s, r, ins_pos(s, r));
    }
}

proof fn lemma_insert_desc_sorted(s: Seq<(Seq<char>, Timestamp)>, r: (Seq<char>, Timestamp))
    requires
        sorted_desc(s),
    ensures
        sorted_desc(insert_desc(s, r)),
{
    lemma_ins_pos(s, r);
    let p = ins_pos(s, r);
    let out = s.insert(p, r);
    assert forall|i: int, j: int| 0 <= i < j < out.len() implies ts_le(
        #[trigger] out[j].1,
        #[trigger] out[i].1,
    ) by {
        if i < p && j == p {
            assert(!ts_lt(s[i].1, r.1));
        } else if i == p && j > p {
            assert(ts_lt(s[p].1, r.1));
            assert(ts_le(s[j - 1].1, s[p].1));
        }
    }
}

/// Law: the index is ordered newest first, whatever the listing order was.
pub proof fn lemma_index_sorted(names: Seq<Seq<char>>, suffix: Seq<char>)
    ensures
        sorted_desc(index_seq(names, suffix)),
    decreases names.len(),
{
    if names.len() > 0 {
        lemma_index_sorted(names.drop_last(), suffix);
        match decode_spec(names.last(), suffix) {
            Some(t) => {
                lemma_insert_desc_sorted(
                    index_seq(names.drop_last(), suffix),
                    (names.last(), t),
                );
            },
            None => {},
        }
    }
}

/// Law: only names that decode under the expected suffix appear in the
/// index, each paired with exactly the timestamp it decodes to; a name of
/// another suffix, or one that is no identifier at all, never appears.
pub proof fn lemma_index_only_decodable(names: Seq<Seq<char>>, suffix: Seq<char>)
    ensures
        forall|k: int| 0 <= k < index_seq(names, suffix).len() ==> decode_spec(
            (#[trigger] index_seq(names, suffix)[k]).0,
            suffix,
        ) == Some(index_seq(names, suffix)[k].1),
    decreases names.len(),
{
    if names.len() > 0 {
        lemma_index_only_decodable(names.drop_last(), suffix);
        let prev = index_seq(names.drop_last(), suffix);
        match decode_spec(names.last(), suffix) {
            Some(t) => {
                lemma_ins_pos(prev, (names.last(), t));
                let p = ins_pos(prev, (names.last(), t));
                assert forall|k: int| 0 <= k < index_seq(names, suffix).len() implies decode_spec(
                    (#[trigger] index_seq(names, suffix)[k]).0,
                    suffix,
                ) == Some(index_seq(names, suffix)[k].1) by {
                    let out = prev.insert(p, (names.last(), t));
                    if k < p {
                        assert(out[k] == prev[k]);
                    } else if k > p {
                        assert(out[k] == prev[k - 1]);
                    }
                }
            },
            None => {},
        }
    }
}

/// No two entries of the listing carry the same name.
pub open spec fn names_distinct(names: Seq<Seq<char>>) -> bool {
    forall|i: int, j: int| 0 <= i < j < names.len() ==> names[i] != names[j]
}

proof fn lemma_index_names(names: Seq<Seq<char>>, suffix: Seq<char>)
    requires
        names_distinct(names),
    ensures
        forall|k: int| 0 <= k < index_seq(names, suffix).len() ==> exists|i: int|
            0 <= i < names.len() && (#[trigger] index_seq(names, suffix)[k]).0 == names[i],
        forall|k: int, l: int|
            0 <= k < l < index_seq(names, suffix).len() ==> (#[trigger] index_seq(
                names,
                suffix,
            )[k]).0 != (#[trigger] index_seq(names, suffix)[l]).0,
    decreases names.len(),
{
    if names.len() > 0 {
        assert(names_distinct(names.drop_last())) by {
            assert(forall|i: int|
                0 <= i < names.len() - 1 ==> #[trigger] names.drop_last()[i] == names[i]);
        }
        lemma_index_names(names.drop_last(), suffix);
        let prev = index_seq(names.drop_last(), suffix);
        match decode_spec(names.last(), suffix) {
            Some(t) => {
                lemma_ins_pos(prev, (names.last(), t));
                let p = ins_pos(prev, (names.last(), t));
                let out = prev.insert(p, (names.last(), t));
                assert forall|k: int| 0 <= k < out.len() implies exists|i: int|
                    0 <= i < names.len() && (#[trigger] out[k]).0 == names[i] by {
                    if k == p {
                        assert(out[k].0 == names[names.len() - 1]);
                    } else {
                        let k0 = if k < p {
                            k
                        } else {
                            k - 1
                        };
                        assert(out[k] == prev[k0]);
                        let i0 = choose|i: int|
                            0 <= i < names.drop_last().len() && (#[trigger] prev[k0]).0
                                == names.drop_last()[i];
                        assert(names.drop_last()[i0] == names[i0]);
                    }
                }
                assert forall|k: int, l: int| 0 <= k < l < out.len() implies (#[trigger] out[k]).0
                    != (#[trigger] out[l]).0 by {
                    if k == p || l == p {
                        let o = if k == p {
                            l
                        } else {
                            k
                        };
                        let o0 = if o < p {
                            o
                        } else {
                            o - 1
                        };
                        assert(out[o] == prev[o0]);
                        let i0 = choose|i: int|
                            0 <= i < names.drop_last().len() && (#[trigger] prev[o0]).0
                                == names.drop_last()[i];
                        assert(names.drop_last()[i0] == names[i0]);
                        assert(names[i0] != names[names.len() - 1]);
                    } else {
                        let k0 = if k < p {
                            k
                        } else {
                            k - 1
                        };
                        let l0 = if l < p {
                            l
                        } else {
                            l - 1
                        };
                        assert(out[k] == prev[k0] && out[l] == prev[l0]);
                    }
                }
            },
            None => {},
        }
    }
}

/// Law: for a listing of distinct names the index is strictly newest
/// first: no two of its records share a timestamp.
pub proof fn lemma_index_strictly_sorted(names: Seq<Seq<char>>, suffix: Seq<char>)
    requires
        names_distinct(names),
    ensures
        forall|i: int, j: int|
            0 <= i < j < index_seq(names, suffix).len() ==> ts_lt(
                (#[trigger] index_seq(names, suffix)[j]).1,
                (#[trigger] index_seq(names, suffix)[i]).1,
            ),
{
    lemma_index_sorted(names, suffix);
    lemma_index_only_decodable(names, suffix);
    lemma_index_names(names, suffix);
    let idx = index_seq(names, suffix);
    assert forall|i: int, j: int| 0 <= i < j < idx.len() implies ts_lt(
        (#[trigger] idx[j]).1,
        (#[trigger] idx[i]).1,
    ) by {
        if !ts_lt(idx[j].1, idx[i].1) {
            assert(ts_le(idx[j].1, idx[i].1));
            assert(idx[j].1 == idx[i].1);
            crate::codec::lemma_decode_determines_name(idx[i].0, suffix, idx[i].1);
            crate::codec::lemma_decode_determines_name(idx[j].0, suffix, idx[j].1);
            assert(idx[i].0 == idx[j].0);
        }
    }
}

/// Law: every record of the index carries a valid timestamp, because a
/// name only decodes at all when its prefix parses to one.
pub proof fn lemma_index_valid(names: Seq<Seq<char>>, suffix: Seq<char>)
    ensures
        forall|k: int| 0 <= k < index_seq(names, suffix).len() ==> ts_valid(
            (#[trigger] index_seq(names, suffix)[k]).1,
        ),
{
    lemma_index_only_decodable(names, suffix);
    assert forall|k: int| 0 <= k < index_seq(names, suffix).len() implies ts_valid(
        (#[trigger] index_seq(names, suffix)[k]).1,
    ) by {
        let rec = index_seq(names, suffix)[k];
        assert(decode_spec(rec.0, suffix) == Some(rec.1));
    }
}

fn find_pos(out: &Vec<SnapshotRecord>, t: &Timestamp) -> (pos: usize)
    ensures
        pos <= out@.len(),
        forall|j: int| 0 <= j < pos ==> !ts_lt(#[trigger] out@[j].timestamp, *t),
        pos < out@.len() ==> ts_lt(out@[pos as int].timestamp, *t),
{
    let n = out.len();
    let mut pos: usize = 0;
    while pos < n
        invariant
            pos <= n,
            n == out@.len(),
            forall|j: int| 0 <= j < pos ==> !ts_lt(#[trigger] out@[j].timestamp, *t),
        decreases n - pos,
    {
        if crate::time::ts_before(&out[pos].timestamp, t) {
            return pos;
        }
        pos += 1;
    }
    pos
}

/// Builds the ordered view of one directory listing for one suffix.
pub fn build_index(names: &Vec<String>, suffix: &str) -> (r: Vec<SnapshotRecord>)
    ensures
        recs_view(r@) == index_seq(names@.map_values(|n: String| n@), suffix@),
{
    let ghost ns = names@.map_values(|n: String| n@);
    let mut out: Vec<SnapshotRecord> = Vec::new();
    let mut i: usize = 0;
    proof {
        assert(ns.subrange(0, 0) =~= Seq::<Seq<char>>::empty());
        assert(recs_view(out@) =~= index_seq(ns.subrange(0, 0), suffix@));
    }
    while i < names.len()
        invariant
            i <= names@.len(),
            ns == names@.map_values(|n: String| n@),
            recs_view(out@) == index_seq(ns.subrange(0, i as int), suffix@),
        decreases names@.len() - i,
    {
        let ghost prefix = ns.subrange(0, i as int);
        let ghost prefix1 = ns.subrange(0, i + 1);
        proof {
            assert(prefix1.drop_last() =~= prefix);
            assert(prefix1.last() == ns[i as int]);
        }
        match decode(names[i].as_str(), suffix) {
            Some(t) => {
                let pos = find_pos(&out, &t);
                let rec = SnapshotRecord { name: names[i].clone(), timestamp: t };
                let ghost old_out = out@;
                out.insert(pos, rec);
                proof {
                    lemma_insert_desc_at(recs_view(old_out), (ns[i as int], t), pos as int);
                    assert(forall|j: int|
                        0 <= j < old_out.len() ==> #[trigger] recs_view(old_out)[j]
                            == rec_view(old_out[j]));
                    assert(recs_view(out@) =~= recs_view(old_out).insert(
                        pos as int,
                        (ns[i as int], t),
                    ));
                    assert(recs_view(out@) =~= index_seq(prefix1, suffix@));
                }
            },
            None => {
                proof {
                    assert(recs_view(out@) =~= index_seq(prefix1, suffix@));
                }
            },
        }
        i += 1;
    }
    proof {
        assert(ns.subrange(0, names@.len() as int) =~= ns);
    }
    out
}

} // verus!
