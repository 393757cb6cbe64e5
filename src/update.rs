//! Building and incrementally updating digests.

use crate::digest::{
    cold_set, cold_stays_cold, cold_within, eras_follow_except, get_digest_checksum, get_era_checksum, get_interval_checksum,
    get_subinterval_checksum, digest_of, entries_of, era_checksum, get_era, era_of, era_shaped,
    eras_follow, interval_checksum, get_interval, interval_of, interval_shaped, shaped_except,
    sub_checksum, sub_of, sub_shaped, get_subinterval, well_formed, BucketView, Digest,
    DigestConfig, DigestView, EraType, Eras, Interval, SubInterval, SubView,
};
use crate::entry::{EntryView, LogEntry, Timestamp};
use crate::sorted::{entry_views, insert_entry, insert_id, remove_entry, remove_id};
use std::collections::HashMap;
use vstd::prelude::*;

verus! {

broadcast use vstd::std_specs::hash::group_hash_axioms;

/// The elements of a list, as a set.
pub open spec fn listed(s: Seq<u64>) -> Set<u64> {
    Set::new(|x: u64| s.contains(x))
}

/// All three eras.
pub open spec fn all_eras() -> Set<EraType> {
    set![EraType::Hot, EraType::Warm, EraType::Cold]
}

/// A digest being updated: consistent but for the listed subintervals and
/// intervals, and for every era checksum.
pub open spec fn in_progress(d: DigestView, ts: Seq<u64>, ti: Seq<u64>) -> bool {
    shaped_except(d, listed(ts), listed(ti), all_eras())
}

proof fn lemma_all_eras(e: EraType)
    ensures
        all_eras().contains(e),
{
}

proof fn lemma_listed_push(s: Seq<u64>, x: u64)
    ensures
        listed(s.push(x)) == listed(s).insert(x),
{
    assert forall|y: u64| listed(s.push(x)).contains(y) <==> listed(s).insert(x).contains(y) by {
        if s.push(x).contains(y) && y != x {
            let k = choose|k: int| 0 <= k < s.push(x).len() && s.push(x)[k] == y;
            assert(s[k] == y);
        }
        if s.contains(y) {
            let k = choose|k: int| 0 <= k < s.len() && s[k] == y;
            assert(s.push(x)[k] == y);
        }
        if y == x {
            assert(s.push(x)[s.len() as int] == y);
        }
    }
    assert(listed(s.push(x)) =~= listed(s).insert(x));
}

/// Adds one entry to the subinterval, interval and era it belongs to.
fn add_one(d: &mut Digest, e: LogEntry, latest: u64, ts: &mut Vec<u64>, ti: &mut Vec<u64>, Ghost(c0): Ghost<Set<u64>>)
    requires
        in_progress(old(d)@, old(ts)@, old(ti)@),
        cold_within(old(d)@, latest, c0),
    ensures
        in_progress(final(d)@, final(ts)@, final(ti)@),
        cold_within(final(d)@, latest, c0),
        entries_of(final(d)@) == entries_of(old(d)@).insert(e@),
        final(d)@.config == old(d)@.config,
        final(d)@.timestamp == old(d)@.timestamp,
{
    let cfg = d.config;
    let s = get_subinterval(&cfg, &e);
    let i = get_interval(&cfg, s);
    let ghost d0 = d@;
    let ghost ev = e@;
    let sub = match d.take_sub(s) {
        Some(mut b) => {
            insert_entry(&mut b.content, e);
            b
        },
        None => {
            let mut c: Vec<LogEntry> = Vec::new();
            c.push(e);
            assert(entry_views(c@) =~= seq![ev]);
            assert(forall|y: EntryView| seq![ev].contains(y) <==> y == ev) by {
                assert(seq![ev][0] == ev);
            }
            SubInterval { checksum: 0, content: c }
        },
    };
    let ghost sv = sub@;
    d.put_sub(s, sub);
    assert(d@.subintervals =~= d0.subintervals.insert(s, sv));
    proof {
        lemma_listed_push(ts@, s);
        lemma_listed_push(ti@, i);
    }
    ts.push(s);
    ti.push(i);
    let ghost d1 = d@;
    let ghost iv;
    let ghost ebv;
    match d.take_interval(i) {
        Some(mut b) => {
            insert_id(&mut b.content, s);
            proof { iv = b@; }
            d.put_interval(i, b);
            assert(d@.intervals =~= d1.intervals.insert(i, iv));
        },
        None => {
            let mut c: Vec<u64> = Vec::new();
            c.push(s);
            assert(c@ =~= seq![s]);
            assert(forall|y: u64| seq![s].contains(y) <==> y == s) by {
                assert(seq![s][0] == s);
            }
            let b = Interval { checksum: 0, content: c };
            proof { iv = b@; }
            d.put_interval(i, b);
            assert(d@.intervals =~= d1.intervals.insert(i, iv));
            let era = get_era(&cfg, latest, i);
            let ghost d15 = d@;
            match d.take_era(era) {
                Some(mut b) => {
                    insert_id(&mut b.content, i);
                    proof { ebv = b@; }
                    d.put_era(era, b);
                },
                None => {
                    let mut c: Vec<u64> = Vec::new();
                    c.push(i);
                    assert(c@ =~= seq![i]);
                    assert(forall|y: u64| seq![i].contains(y) <==> y == i) by {
                        assert(seq![i][0] == i);
                    }
                    let b = Interval { checksum: 0, content: c };
                    proof { ebv = b@; }
                    d.put_era(era, b);
                },
            }
            assert(d@.eras =~= d15.eras.insert(era, ebv));
        },
    }
    let ghost d2 = d@;
    assert(ts@.drop_last() =~= old(ts)@);
    assert(ti@.drop_last() =~= old(ti)@);
    proof { lemma_add_one(d0, d2, ts@, ti@, s, i, ev, latest, sv, iv, ebv); }
}

proof fn lemma_add_one(
    d0: DigestView,
    d2: DigestView,
    ts: Seq<u64>,
    ti: Seq<u64>,
    s: u64,
    i: u64,
    ev: EntryView,
    latest: u64,
    sv: SubView,
    iv: BucketView,
    ebv: BucketView,
)
    requires
        in_progress(d0, ts.drop_last(), ti.drop_last()),
        ts.len() > 0 && ts.last() == s,
        ti.len() > 0 && ti.last() == i,
        s == sub_of(d0.config, ev),
        i == interval_of(d0.config, s),
        d2.config == d0.config,
        d2.subintervals == d0.subintervals.insert(s, sv),
        crate::sorted::entries_increasing(sv.content),
        forall|y: EntryView|
            sv.content.contains(y) <==> (d0.subintervals.contains_key(s)
                && d0.subintervals[s].content.contains(y)) || y == ev,
        d2.intervals == d0.intervals.insert(i, iv),
        crate::sorted::increasing(iv.content),
        forall|y: u64|
            iv.content.contains(y) <==> (d0.intervals.contains_key(i)
                && d0.intervals[i].content.contains(y)) || y == s,
        d0.intervals.contains_key(i) ==> d2.eras == d0.eras,
        !d0.intervals.contains_key(i) ==> {
            let era = era_of(d0.config, latest, i);
            &&& d2.eras == d0.eras.insert(era, ebv)
            &&& crate::sorted::increasing(ebv.content)
            &&& forall|y: u64|
                ebv.content.contains(y) <==> (d0.eras.contains_key(era)
                    && d0.eras[era].content.contains(y)) || y == i
        },
    ensures
        in_progress(d2, ts, ti),
        entries_of(d2) == entries_of(d0).insert(ev),
{
    let cfg = d0.config;
    let (subs0, ints0, eras0) = (d0.subintervals, d0.intervals, d0.eras);
    let (subs2, ints2, eras2) = (d2.subintervals, d2.intervals, d2.eras);
    assert(ts =~= ts.drop_last().push(s));
    assert(ti =~= ti.drop_last().push(i));
    lemma_listed_push(ts.drop_last(), s);
    lemma_listed_push(ti.drop_last(), i);
    let ts0 = listed(ts.drop_last());
    let ti0 = listed(ti.drop_last());
    let tsn = listed(ts);
    let tin = listed(ti);
    assert(shaped_except(d0, ts0, ti0, all_eras()));
    // subintervals
    assert forall|k: u64| #[trigger] subs2.contains_key(k) implies sub_shaped(cfg, k, subs2[k]) && (
    !tsn.contains(k) ==> subs2[k].checksum == sub_checksum(subs2[k].content)) && (tsn.contains(k)
        ==> tin.contains(interval_of(cfg, k))) by {
        if k == s {
            assert(sv.content.contains(ev));
            assert forall|j: int| 0 <= j < sv.content.len() implies sub_of(cfg, #[trigger] sv.content[j]) == k by {
                assert(sv.content.contains(sv.content[j]));
                if sv.content[j] != ev {
                    let c0 = subs0[s].content;
                    let jj = choose|jj: int| 0 <= jj < c0.len() && c0[jj] == sv.content[j];
                    assert(sub_of(cfg, c0[jj]) == s);
                }
            }
        } else {
            assert(subs0.contains_key(k));
        }
    }
    assert forall|k: u64| #[trigger] subs2.contains_key(k) implies ints2.contains_key(interval_of(cfg, k))
        && ints2[interval_of(cfg, k)].content.contains(k) by {
        if k != s {
            assert(subs0.contains_key(k));
            assert(ints0.contains_key(interval_of(cfg, k)));
            assert(ints0[interval_of(cfg, k)].content.contains(k));
        }
    }
    // intervals
    assert forall|k: u64| #[trigger] ints2.contains_key(k) implies interval_shaped(cfg, k, ints2[k], subs2)
        && (!tin.contains(k) ==> ints2[k].checksum == interval_checksum(ints2[k].content, subs2)) by {
        if k == i {
            assert(iv.content.contains(s));
            assert forall|j: int| 0 <= j < iv.content.len() implies subs2.contains_key(#[trigger] iv.content[j])
                && interval_of(cfg, iv.content[j]) == k by {
                assert(iv.content.contains(iv.content[j]));
                if iv.content[j] != s {
                    let c0 = ints0[i].content;
                    let jj = choose|jj: int| 0 <= jj < c0.len() && c0[jj] == iv.content[j];
                    assert(subs0.contains_key(c0[jj]) && interval_of(cfg, c0[jj]) == i);
                }
            }
        } else {
            assert(ints0.contains_key(k));
            let c = ints0[k].content;
            assert(interval_shaped(cfg, k, ints0[k], subs0));
            assert forall|j: int| 0 <= j < c.len() implies subs2.contains_key(#[trigger] c[j])
                && interval_of(cfg, c[j]) == k by {
                assert(subs0.contains_key(c[j]));
            }
            if !tin.contains(k) {
                assert forall|m: u64| c.contains(m) implies (subs0.contains_key(m)
                    <==> subs2.contains_key(m)) && (subs0.contains_key(m) ==> subs0[m].checksum
                    == subs2[m].checksum) by {
                    let jj = choose|jj: int| 0 <= jj < c.len() && c[jj] == m;
                    assert(subs0.contains_key(c[jj]) && interval_of(cfg, c[jj]) == k);
                }
                crate::digest::lemma_sub_sums_frame(c, subs0, subs2);
            }
        }
    }
    // eras
    assert forall|e: EraType| #[trigger] eras2.contains_key(e) implies era_shaped(eras2[e], ints2) by {
        if !ints0.contains_key(i) && e == era_of(cfg, latest, i) {
            assert forall|j: int| 0 <= j < ebv.content.len() implies ints2.contains_key(#[trigger] ebv.content[j]) by {
                assert(ebv.content.contains(ebv.content[j]));
                if ebv.content[j] != i {
                    let c0 = eras0[e].content;
                    let jj = choose|jj: int| 0 <= jj < c0.len() && c0[jj] == ebv.content[j];
                    assert(ints0.contains_key(c0[jj]));
                }
            }
        } else {
            assert(eras0.contains_key(e));
            assert(era_shaped(eras0[e], ints0));
        }
    }
    assert forall|k: u64| #[trigger] ints2.contains_key(k) implies exists|e: EraType| #[trigger]
        eras2.contains_key(e) && eras2[e].content.contains(k) by {
        if ints0.contains_key(k) {
            let e = choose|e: EraType| #[trigger] eras0.contains_key(e) && eras0[e].content.contains(k);
            if !ints0.contains_key(i) && e == era_of(cfg, latest, i) {
                assert(ebv.content.contains(k));
            }
            assert(eras2.contains_key(e) && eras2[e].content.contains(k));
        } else {
            assert(k == i);
            let e = era_of(cfg, latest, i);
            assert(ebv.content.contains(k));
            assert(eras2.contains_key(e) && eras2[e].content.contains(k));
        }
    }
    assert forall|k: u64, e1: EraType, e2: EraType|
        eras2.contains_key(e1) && eras2.contains_key(e2) && #[trigger] eras2[e1].content.contains(k)
            && #[trigger] eras2[e2].content.contains(k) implies e1 == e2 by {
        if !ints0.contains_key(i) {
            let era = era_of(cfg, latest, i);
            if k == i {
                if e1 != era {
                    assert(eras0[e1].content.contains(i));
                    let jj = choose|jj: int| 0 <= jj < eras0[e1].content.len() && eras0[e1].content[jj] == i;
                    assert(era_shaped(eras0[e1], ints0));
                    assert(ints0.contains_key(eras0[e1].content[jj]));
                }
                if e2 != era {
                    assert(eras0[e2].content.contains(i));
                    let jj = choose|jj: int| 0 <= jj < eras0[e2].content.len() && eras0[e2].content[jj] == i;
                    assert(era_shaped(eras0[e2], ints0));
                    assert(ints0.contains_key(eras0[e2].content[jj]));
                }
            } else {
                assert(eras0.contains_key(e1) && eras0[e1].content.contains(k));
                assert(eras0.contains_key(e2) && eras0[e2].content.contains(k));
            }
        }
    }
    // entries
    assert forall|x: EntryView| entries_of(d2).contains(x) <==> entries_of(d0).insert(ev).contains(x) by {
        if entries_of(d2).contains(x) {
            let k = choose|k: u64| #[trigger] subs2.contains_key(k) && subs2[k].content.contains(x);
            if k != s {
                assert(subs0.contains_key(k) && subs0[k].content.contains(x));
            } else if x != ev {
                assert(subs0.contains_key(s) && subs0[s].content.contains(x));
            }
        }
        if x == ev {
            assert(subs2.contains_key(s) && subs2[s].content.contains(x));
        } else if entries_of(d0).contains(x) {
            let k = choose|k: u64| #[trigger] subs0.contains_key(k) && subs0[k].content.contains(x);
            assert(subs2.contains_key(k) && subs2[k].content.contains(x));
        }
    }
    assert(entries_of(d2) =~= entries_of(d0).insert(ev));
}

} // verus!

verus! {

/// An entry can only sit in the subinterval it belongs to.
proof fn lemma_entry_home(d: DigestView, ts: Seq<u64>, ti: Seq<u64>, x: EntryView, k: u64)
    requires
        in_progress(d, ts, ti),
        d.subintervals.contains_key(k),
        d.subintervals[k].content.contains(x),
    ensures
        k == sub_of(d.config, x),
{
    let c = d.subintervals[k].content;
    let j = choose|j: int| 0 <= j < c.len() && c[j] == x;
    assert(sub_shaped(d.config, k, d.subintervals[k]));
    assert(sub_of(d.config, c[j]) == k);
}

/// Removing an entry that leaves its subinterval non-empty.
proof fn lemma_remove_keeps_sub(
    d0: DigestView,
    d2: DigestView,
    ts: Seq<u64>,
    ti: Seq<u64>,
    s: u64,
    i: u64,
    ev: EntryView,
    sv: SubView,
)
    requires
        in_progress(d0, ts.drop_last(), ti.drop_last()),
        ts.len() > 0 && ts.last() == s,
        ti.len() > 0 && ti.last() == i,
        s == sub_of(d0.config, ev),
        i == interval_of(d0.config, s),
        d0.subintervals.contains_key(s),
        d2 == d0.with_subs(d0.subintervals.insert(s, sv)),
        sv.content.len() > 0,
        crate::sorted::entries_increasing(sv.content),
        forall|y: EntryView| sv.content.contains(y) <==> d0.subintervals[s].content.contains(y) && y != ev,
    ensures
        in_progress(d2, ts, ti),
        entries_of(d2) == entries_of(d0).remove(ev),
{
    let cfg = d0.config;
    let (subs0, ints0) = (d0.subintervals, d0.intervals);
    let subs2 = d2.subintervals;
    assert(ts =~= ts.drop_last().push(s));
    assert(ti =~= ti.drop_last().push(i));
    lemma_listed_push(ts.drop_last(), s);
    lemma_listed_push(ti.drop_last(), i);
    let tsn = listed(ts);
    let tin = listed(ti);
    assert forall|k: u64| #[trigger] subs2.contains_key(k) implies sub_shaped(cfg, k, subs2[k]) && (
    !tsn.contains(k) ==> subs2[k].checksum == sub_checksum(subs2[k].content)) && (tsn.contains(k)
        ==> tin.contains(interval_of(cfg, k))) by {
        if k == s {
            assert forall|j: int| 0 <= j < sv.content.len() implies sub_of(cfg, #[trigger] sv.content[j]) == k by {
                assert(sv.content.contains(sv.content[j]));
                let c0 = subs0[s].content;
                let jj = choose|jj: int| 0 <= jj < c0.len() && c0[jj] == sv.content[j];
                assert(sub_shaped(cfg, s, subs0[s]));
                assert(sub_of(cfg, c0[jj]) == s);
            }
        }
    }
    assert forall|k: u64| #[trigger] subs2.contains_key(k) implies ints0.contains_key(interval_of(cfg, k))
        && ints0[interval_of(cfg, k)].content.contains(k) by {
        assert(subs0.contains_key(k));
    }
    assert forall|k: u64| #[trigger] ints0.contains_key(k) implies interval_shaped(cfg, k, ints0[k], subs2)
        && (!tin.contains(k) ==> ints0[k].checksum == interval_checksum(ints0[k].content, subs2)) by {
        let c = ints0[k].content;
        assert(interval_shaped(cfg, k, ints0[k], subs0));
        assert forall|j: int| 0 <= j < c.len() implies subs2.contains_key(#[trigger] c[j])
            && interval_of(cfg, c[j]) == k by {
            assert(subs0.contains_key(c[j]));
        }
        if !tin.contains(k) {
            assert forall|m: u64| c.contains(m) implies (subs0.contains_key(m)
                <==> subs2.contains_key(m)) && (subs0.contains_key(m) ==> subs0[m].checksum
                == subs2[m].checksum) by {
                let jj = choose|jj: int| 0 <= jj < c.len() && c[jj] == m;
                assert(subs0.contains_key(c[jj]) && interval_of(cfg, c[jj]) == k);
            }
            crate::digest::lemma_sub_sums_frame(c, subs0, subs2);
        }
    }
    assert forall|e: EraType| #[trigger] d2.eras.contains_key(e) implies era_shaped(d2.eras[e], d2.intervals) by {
        assert(era_shaped(d0.eras[e], d0.intervals));
    }
    assert forall|k: u64| #[trigger] d2.intervals.contains_key(k) implies exists|e: EraType| #[trigger]
        d2.eras.contains_key(e) && d2.eras[e].content.contains(k) by {
        assert(d0.intervals.contains_key(k));
        let e = choose|e: EraType| #[trigger] d0.eras.contains_key(e) && d0.eras[e].content.contains(k);
        assert(d2.eras.contains_key(e) && d2.eras[e].content.contains(k));
    }
    assert forall|k: u64, e1: EraType, e2: EraType|
        d2.eras.contains_key(e1) && d2.eras.contains_key(e2) && #[trigger] d2.eras[e1].content.contains(k)
            && #[trigger] d2.eras[e2].content.contains(k) implies e1 == e2 by {
        assert(d0.eras[e1].content.contains(k) && d0.eras[e2].content.contains(k));
    }
    assert(shaped_except(d2, listed(ts), listed(ti), all_eras()));
    assert forall|x: EntryView| entries_of(d2).contains(x) <==> entries_of(d0).remove(ev).contains(x) by {
        if entries_of(d2).contains(x) {
            let k = choose|k: u64| #[trigger] subs2.contains_key(k) && subs2[k].content.contains(x);
            if k != s {
                assert(subs0.contains_key(k) && subs0[k].content.contains(x));
                lemma_entry_home(d0, ts.drop_last(), ti.drop_last(), x, k);
                assert(x != ev);
            } else {
                assert(subs0.contains_key(s) && subs0[s].content.contains(x));
            }
        }
        if x != ev && entries_of(d0).contains(x) {
            let k = choose|k: u64| #[trigger] subs0.contains_key(k) && subs0[k].content.contains(x);
            assert(subs2.contains_key(k) && subs2[k].content.contains(x));
        }
    }
    assert(entries_of(d2) =~= entries_of(d0).remove(ev));
}

/// Removing the last entry of a subinterval whose interval keeps others.
proof fn lemma_remove_keeps_interval(
    d0: DigestView,
    d2: DigestView,
    ts: Seq<u64>,
    ti: Seq<u64>,
    s: u64,
    i: u64,
    ev: EntryView,
    iv: BucketView,
)
    requires
        in_progress(d0, ts, ti.drop_last()),
        ti.len() > 0 && ti.last() == i,
        s == sub_of(d0.config, ev),
        i == interval_of(d0.config, s),
        d0.subintervals.contains_key(s),
        forall|y: EntryView| d0.subintervals[s].content.contains(y) ==> y == ev,
        d2 == d0.with_subs(d0.subintervals.remove(s)).with_ints(d0.intervals.insert(i, iv)),
        iv.content.len() > 0,
        crate::sorted::increasing(iv.content),
        forall|y: u64| iv.content.contains(y) <==> d0.intervals[i].content.contains(y) && y != s,
    ensures
        in_progress(d2, ts, ti),
        entries_of(d2) == entries_of(d0).remove(ev),
{
    let cfg = d0.config;
    let (subs0, ints0, eras0) = (d0.subintervals, d0.intervals, d0.eras);
    let (subs2, ints2) = (d2.subintervals, d2.intervals);
    assert(ti =~= ti.drop_last().push(i));
    lemma_listed_push(ti.drop_last(), i);
    let tsn = listed(ts);
    let tin = listed(ti);
    assert forall|k: u64| #[trigger] subs2.contains_key(k) implies sub_shaped(cfg, k, subs2[k]) && (
    !tsn.contains(k) ==> subs2[k].checksum == sub_checksum(subs2[k].content)) && (tsn.contains(k)
        ==> tin.contains(interval_of(cfg, k))) by {
        assert(subs0.contains_key(k));
    }
    assert forall|k: u64| #[trigger] subs2.contains_key(k) implies ints2.contains_key(interval_of(cfg, k))
        && ints2[interval_of(cfg, k)].content.contains(k) by {
        assert(subs0.contains_key(k));
        assert(ints0[interval_of(cfg, k)].content.contains(k));
    }
    assert forall|k: u64| #[trigger] ints2.contains_key(k) implies interval_shaped(cfg, k, ints2[k], subs2)
        && (!tin.contains(k) ==> ints2[k].checksum == interval_checksum(ints2[k].content, subs2)) by {
        if k == i {
            assert forall|j: int| 0 <= j < iv.content.len() implies subs2.contains_key(#[trigger] iv.content[j])
                && interval_of(cfg, iv.content[j]) == k by {
                assert(iv.content.contains(iv.content[j]));
                let c0 = ints0[i].content;
                let jj = choose|jj: int| 0 <= jj < c0.len() && c0[jj] == iv.content[j];
                assert(interval_shaped(cfg, i, ints0[i], subs0));
                assert(subs0.contains_key(c0[jj]) && interval_of(cfg, c0[jj]) == i);
            }
        } else {
            let c = ints0[k].content;
            assert(interval_shaped(cfg, k, ints0[k], subs0));
            assert forall|j: int| 0 <= j < c.len() implies subs2.contains_key(#[trigger] c[j])
                && interval_of(cfg, c[j]) == k by {
                assert(subs0.contains_key(c[j]));
            }
            if !tin.contains(k) {
                assert forall|m: u64| c.contains(m) implies (subs0.contains_key(m)
                    <==> subs2.contains_key(m)) && (subs0.contains_key(m) ==> subs0[m].checksum
                    == subs2[m].checksum) by {
                    let jj = choose|jj: int| 0 <= jj < c.len() && c[jj] == m;
                    assert(subs0.contains_key(c[jj]) && interval_of(cfg, c[jj]) == k);
                }
                crate::digest::lemma_sub_sums_frame(c, subs0, subs2);
            }
        }
    }
    assert forall|e: EraType| #[trigger] eras0.contains_key(e) implies era_shaped(eras0[e], ints2) by {
        assert(era_shaped(eras0[e], ints0));
    }
    assert forall|k: u64| #[trigger] ints2.contains_key(k) implies exists|e: EraType| #[trigger]
        eras0.contains_key(e) && eras0[e].content.contains(k) by {
        assert(ints0.contains_key(k));
    }
    assert forall|e: EraType| #[trigger] d2.eras.contains_key(e) implies era_shaped(d2.eras[e], d2.intervals) by {
        assert(era_shaped(d0.eras[e], d0.intervals));
    }
    assert forall|k: u64| #[trigger] d2.intervals.contains_key(k) implies exists|e: EraType| #[trigger]
        d2.eras.contains_key(e) && d2.eras[e].content.contains(k) by {
        assert(d0.intervals.contains_key(k));
        let e = choose|e: EraType| #[trigger] d0.eras.contains_key(e) && d0.eras[e].content.contains(k);
        assert(d2.eras.contains_key(e) && d2.eras[e].content.contains(k));
    }
    assert forall|k: u64, e1: EraType, e2: EraType|
        d2.eras.contains_key(e1) && d2.eras.contains_key(e2) && #[trigger] d2.eras[e1].content.contains(k)
            && #[trigger] d2.eras[e2].content.contains(k) implies e1 == e2 by {
        assert(d0.eras[e1].content.contains(k) && d0.eras[e2].content.contains(k));
    }
    assert(shaped_except(d2, listed(ts), listed(ti), all_eras()));
    assert forall|x: EntryView| entries_of(d2).contains(x) <==> entries_of(d0).remove(ev).contains(x) by {
        if entries_of(d2).contains(x) {
            let k = choose|k: u64| #[trigger] subs2.contains_key(k) && subs2[k].content.contains(x);
            assert(subs0.contains_key(k) && subs0[k].content.contains(x));
            lemma_entry_home(d0, ts, ti.drop_last(), x, k);
        }
        if x != ev && entries_of(d0).contains(x) {
            let k = choose|k: u64| #[trigger] subs0.contains_key(k) && subs0[k].content.contains(x);
            assert(subs2.contains_key(k) && subs2[k].content.contains(x));
        }
    }
    assert(entries_of(d2) =~= entries_of(d0).remove(ev));
}

/// Removing the last entry of an interval.
proof fn lemma_remove_drops_interval(
    d0: DigestView,
    d2: DigestView,
    ts: Seq<u64>,
    ti: Seq<u64>,
    s: u64,
    i: u64,
    ev: EntryView,
    latest: u64,
    c0: Set<u64>,
)
    requires
        in_progress(d0, ts, ti),
        cold_within(d0, latest, c0),
        s == sub_of(d0.config, ev),
        i == interval_of(d0.config, s),
        d0.subintervals.contains_key(s),
        forall|y: EntryView| d0.subintervals[s].content.contains(y) ==> y == ev,
        forall|y: u64| d0.intervals[i].content.contains(y) ==> y == s,
        d2.config == d0.config,
        d2.subintervals == d0.subintervals.remove(s),
        d2.intervals == d0.intervals.remove(i),
        d2.eras.dom() == d0.eras.dom(),
        forall|e: EraType| #[trigger] d2.eras.contains_key(e) ==> crate::sorted::increasing(d2.eras[e].content)
            && forall|y: u64| d2.eras[e].content.contains(y) <==> d0.eras[e].content.contains(y) && y != i,
    ensures
        in_progress(d2, ts, ti),
        cold_within(d2, latest, c0),
        entries_of(d2) == entries_of(d0).remove(ev),
{
    let cfg = d0.config;
    let (subs0, ints0, eras0) = (d0.subintervals, d0.intervals, d0.eras);
    let (subs2, ints2, eras2) = (d2.subintervals, d2.intervals, d2.eras);
    let tsn = listed(ts);
    let tin = listed(ti);
    assert forall|k: u64| #[trigger] subs2.contains_key(k) implies ints2.contains_key(interval_of(cfg, k))
        && ints2[interval_of(cfg, k)].content.contains(k) by {
        assert(subs0.contains_key(k));
        assert(ints0[interval_of(cfg, k)].content.contains(k));
    }
    assert forall|k: u64| #[trigger] ints2.contains_key(k) implies interval_shaped(cfg, k, ints2[k], subs2)
        && (!tin.contains(k) ==> ints2[k].checksum == interval_checksum(ints2[k].content, subs2)) by {
        let c = ints0[k].content;
        assert(interval_shaped(cfg, k, ints0[k], subs0));
        assert forall|j: int| 0 <= j < c.len() implies subs2.contains_key(#[trigger] c[j])
            && interval_of(cfg, c[j]) == k by {
            assert(subs0.contains_key(c[j]));
        }
        if !tin.contains(k) {
            assert forall|m: u64| c.contains(m) implies (subs0.contains_key(m)
                <==> subs2.contains_key(m)) && (subs0.contains_key(m) ==> subs0[m].checksum
                == subs2[m].checksum) by {
                let jj = choose|jj: int| 0 <= jj < c.len() && c[jj] == m;
                assert(subs0.contains_key(c[jj]) && interval_of(cfg, c[jj]) == k);
            }
            crate::digest::lemma_sub_sums_frame(c, subs0, subs2);
        }
    }
    assert forall|e: EraType| #[trigger] eras2.contains_key(e) implies era_shaped(eras2[e], ints2) by {
        assert(era_shaped(eras0[e], ints0));
        assert forall|j: int| 0 <= j < eras2[e].content.len() implies ints2.contains_key(#[trigger] eras2[e].content[j]) by {
            assert(eras2[e].content.contains(eras2[e].content[j]));
            let c0 = eras0[e].content;
            let jj = choose|jj: int| 0 <= jj < c0.len() && c0[jj] == eras2[e].content[j];
            assert(ints0.contains_key(c0[jj]));
        }
    }
    assert forall|k: u64| #[trigger] ints2.contains_key(k) implies exists|e: EraType| #[trigger]
        eras2.contains_key(e) && eras2[e].content.contains(k) by {
        let e = choose|e: EraType| #[trigger] eras0.contains_key(e) && eras0[e].content.contains(k);
        assert(eras2.contains_key(e) && eras2[e].content.contains(k));
    }
    assert forall|k: u64, e1: EraType, e2: EraType|
        eras2.contains_key(e1) && eras2.contains_key(e2) && #[trigger] eras2[e1].content.contains(k)
            && #[trigger] eras2[e2].content.contains(k) implies e1 == e2 by {
        assert(eras0[e1].content.contains(k) && eras0[e2].content.contains(k));
    }
    assert forall|k: u64|
        eras2.contains_key(EraType::Cold) && #[trigger] eras2[EraType::Cold].content.contains(k)
            implies era_of(cfg, latest, k) == EraType::Cold || c0.contains(k) by {
        assert(eras0[EraType::Cold].content.contains(k));
    }
    assert forall|x: EntryView| entries_of(d2).contains(x) <==> entries_of(d0).remove(ev).contains(x) by {
        if entries_of(d2).contains(x) {
            let k = choose|k: u64| #[trigger] subs2.contains_key(k) && subs2[k].content.contains(x);
            assert(subs0.contains_key(k) && subs0[k].content.contains(x));
            lemma_entry_home(d0, ts, ti, x, k);
        }
        if x != ev && entries_of(d0).contains(x) {
            let k = choose|k: u64| #[trigger] subs0.contains_key(k) && subs0[k].content.contains(x);
            assert(subs2.contains_key(k) && subs2[k].content.contains(x));
        }
    }
    assert(entries_of(d2) =~= entries_of(d0).remove(ev));
}

} // verus!

verus! {

/// Takes interval `i` out of the era of `era`, if that era has a bucket.
fn drop_from_era(d: &mut Digest, era: EraType, i: u64)
    requires
        old(d)@.eras.contains_key(era) ==> crate::sorted::increasing(old(d)@.eras[era].content),
    ensures
        final(d)@.eras.dom() == old(d)@.eras.dom(),
        final(d)@ == old(d)@.with_eras(final(d)@.eras),
        forall|e: EraType| e != era ==> #[trigger] final(d)@.eras[e] == old(d)@.eras[e],
        final(d)@.eras.contains_key(era) ==> crate::sorted::increasing(final(d)@.eras[era].content),
        final(d)@.eras.contains_key(era) ==> forall|y: u64|
            final(d)@.eras[era].content.contains(y) <==> old(d)@.eras[era].content.contains(y)
                && y != i,
{
    let ghost d0 = d@;
    match d.take_era(era) {
        Some(mut b) => {
            remove_id(&mut b.content, i);
            d.put_era(era, b);
            assert(d@.eras.dom() =~= d0.eras.dom());
        },
        None => {
            assert(d@.eras =~= d0.eras);
        },
    }
}

/// Removes one entry from the digest, dropping the buckets it empties.
fn remove_one(d: &mut Digest, e: &LogEntry, latest: u64, ts: &mut Vec<u64>, ti: &mut Vec<u64>, Ghost(c0): Ghost<Set<u64>>)
    requires
        in_progress(old(d)@, old(ts)@, old(ti)@),
        cold_within(old(d)@, latest, c0),
    ensures
        in_progress(final(d)@, final(ts)@, final(ti)@),
        cold_within(final(d)@, latest, c0),
        entries_of(final(d)@) == entries_of(old(d)@).remove(e@),
        final(d)@.config == old(d)@.config,
        final(d)@.timestamp == old(d)@.timestamp,
{
    let cfg = d.config;
    let s = get_subinterval(&cfg, e);
    let i = get_interval(&cfg, s);
    let ghost d0 = d@;
    let ghost ev = e@;
    match d.take_sub(s) {
        None => {
            assert(d@.subintervals =~= d0.subintervals);
            assert(d@ == d0);
            assert forall|x: EntryView| entries_of(d0).contains(x) implies x != ev by {
                let k = choose|k: u64| #[trigger] d0.subintervals.contains_key(k)
                    && d0.subintervals[k].content.contains(x);
                lemma_entry_home(d0, ts@, ti@, x, k);
            }
            assert(entries_of(d0) =~= entries_of(d0).remove(ev));
        },
        Some(mut b) => {
            assert(crate::digest::sub_shaped(cfg, s, d0.subintervals[s]));
            remove_entry(&mut b.content, e);
            if b.content.len() > 0 {
                proof {
                    lemma_listed_push(ts@, s);
                    lemma_listed_push(ti@, i);
                }
                ts.push(s);
                ti.push(i);
                let ghost sv = b@;
                d.put_sub(s, b);
                assert(d@.subintervals =~= d0.subintervals.insert(s, sv));
                assert(ts@.drop_last() =~= old(ts)@);
                assert(ti@.drop_last() =~= old(ti)@);
                proof { lemma_remove_keeps_sub(d0, d@, ts@, ti@, s, i, ev, sv); }
            } else {
                assert forall|y: EntryView| d0.subintervals[s].content.contains(y) implies y == ev by {
                    if y != ev {
                        assert(entry_views(b.content@).contains(y));
                    }
                }
                assert(d0.intervals.contains_key(i));
                let ghost d1 = d@;
                match d.take_interval(i) {
                    None => {},
                    Some(mut ib) => {
                        assert(crate::digest::interval_shaped(cfg, i, d0.intervals[i], d0.subintervals));
                        remove_id(&mut ib.content, s);
                        if ib.content.len() > 0 {
                            proof { lemma_listed_push(ti@, i); }
                            ti.push(i);
                            let ghost iv = ib@;
                            d.put_interval(i, ib);
                            assert(d@.intervals =~= d0.intervals.insert(i, iv));
                            assert(d@ == d0.with_subs(d0.subintervals.remove(s)).with_ints(
                                d0.intervals.insert(i, iv),
                            ));
                            assert(ti@.drop_last() =~= old(ti)@);
                            proof { lemma_remove_keeps_interval(d0, d@, ts@, ti@, s, i, ev, iv); }
                        } else {
                            assert forall|y: u64| d0.intervals[i].content.contains(y) implies y == s by {
                                if y != s {
                                    assert(ib.content@.contains(y));
                                }
                            }
                            proof {
                                assert forall|era: EraType| #[trigger] d0.eras.contains_key(era)
                                    implies crate::sorted::increasing(d0.eras[era].content) by {
                                    assert(crate::digest::era_shaped(d0.eras[era], d0.intervals));
                                }
                            }
                            let ghost d2 = d@;
                            drop_from_era(d, EraType::Hot, i);
                            drop_from_era(d, EraType::Warm, i);
                            drop_from_era(d, EraType::Cold, i);
                            assert(d@.intervals =~= d0.intervals.remove(i));
                            proof { lemma_remove_drops_interval(d0, d@, ts@, ti@, s, i, ev, latest, c0); }
                        }
                    },
                }
            }
        },
    }
}

} // verus!

verus! {

/// Every interval in the bucket of `era`, if any, has that era.
pub open spec fn settled(d: DigestView, era: EraType, latest: u64) -> bool {
    d.eras.contains_key(era) ==> forall|x: u64| #[trigger]
        d.eras[era].content.contains(x) ==> era_of(d.config, latest, x) == era
}

fn copy_ids(v: &Vec<u64>) -> (r: Vec<u64>)
    ensures
        r@ == v@,
{
    let mut r: Vec<u64> = Vec::new();
    let mut k: usize = 0;
    while k < v.len()
        invariant
            k <= v@.len(),
            r@ == v@.subrange(0, k as int),
        decreases v@.len() - k,
    {
        r.push(v[k]);
        k = k + 1;
        assert(r@ =~= v@.subrange(0, k as int));
    }
    assert(v@.subrange(0, k as int) =~= v@);
    r
}

/// Moving interval `x` from the bucket of `from` to the bucket of `to`.
proof fn lemma_move_interval(
    d0: DigestView,
    d2: DigestView,
    ts: Seq<u64>,
    ti: Seq<u64>,
    x: u64,
    from: EraType,
    to: EraType,
    fv: BucketView,
    tv: BucketView,
)
    requires
        in_progress(d0, ts, ti),
        from != to,
        d0.eras.contains_key(from),
        d0.eras[from].content.contains(x),
        d2 == d0.with_eras(d0.eras.insert(from, fv).insert(to, tv)),
        crate::sorted::increasing(fv.content),
        forall|y: u64| fv.content.contains(y) <==> d0.eras[from].content.contains(y) && y != x,
        crate::sorted::increasing(tv.content),
        forall|y: u64|
            tv.content.contains(y) <==> (d0.eras.contains_key(to) && d0.eras[to].content.contains(y))
                || y == x,
    ensures
        in_progress(d2, ts, ti),
{
    let (ints0, eras0, eras2) = (d0.intervals, d0.eras, d2.eras);
    assert(era_shaped(eras0[from], ints0));
    let jx = choose|j: int| 0 <= j < eras0[from].content.len() && eras0[from].content[j] == x;
    assert(ints0.contains_key(eras0[from].content[jx]));
    assert forall|e: EraType| #[trigger] eras2.contains_key(e) implies era_shaped(eras2[e], ints0) by {
        if e == from {
            assert forall|j: int| 0 <= j < fv.content.len() implies ints0.contains_key(#[trigger] fv.content[j]) by {
                assert(fv.content.contains(fv.content[j]));
                let c0 = eras0[from].content;
                let jj = choose|jj: int| 0 <= jj < c0.len() && c0[jj] == fv.content[j];
                assert(ints0.contains_key(c0[jj]));
            }
        } else if e == to {
            assert forall|j: int| 0 <= j < tv.content.len() implies ints0.contains_key(#[trigger] tv.content[j]) by {
                assert(tv.content.contains(tv.content[j]));
                if tv.content[j] != x {
                    let c0 = eras0[to].content;
                    assert(era_shaped(eras0[to], ints0));
                    let jj = choose|jj: int| 0 <= jj < c0.len() && c0[jj] == tv.content[j];
                    assert(ints0.contains_key(c0[jj]));
                }
            }
        } else {
            assert(era_shaped(eras0[e], ints0));
        }
    }
    assert forall|k: u64| #[trigger] ints0.contains_key(k) implies exists|e: EraType| #[trigger]
        eras2.contains_key(e) && eras2[e].content.contains(k) by {
        if k == x {
            assert(eras2.contains_key(to) && eras2[to].content.contains(k));
        } else {
            let e = choose|e: EraType| #[trigger] eras0.contains_key(e) && eras0[e].content.contains(k);
            assert(eras2.contains_key(e) && eras2[e].content.contains(k));
        }
    }
    assert forall|k: u64, e1: EraType, e2: EraType|
        eras2.contains_key(e1) && eras2.contains_key(e2) && #[trigger] eras2[e1].content.contains(k)
            && #[trigger] eras2[e2].content.contains(k) implies e1 == e2 by {
        if k == x {
            if e1 != to {
                assert(eras0[e1].content.contains(x));
            }
            if e2 != to {
                assert(eras0[e2].content.contains(x));
            }
        } else {
            assert(eras0.contains_key(e1) && eras0[e1].content.contains(k));
            assert(eras0.contains_key(e2) && eras0[e2].content.contains(k));
        }
    }
}

/// Moves every interval of the bucket of `from` whose era has changed
/// into the bucket of its new era.
fn realign_era(d: &mut Digest, from: EraType, latest: u64, ts: &Vec<u64>, ti: &Vec<u64>)
    requires
        in_progress(old(d)@, ts@, ti@),
    ensures
        in_progress(final(d)@, ts@, ti@),
        final(d)@.config == old(d)@.config,
        final(d)@.timestamp == old(d)@.timestamp,
        final(d)@.subintervals == old(d)@.subintervals,
        final(d)@.intervals == old(d)@.intervals,
        settled(final(d)@, from, latest),
        forall|e: EraType| settled(old(d)@, e, latest) ==> #[trigger] settled(final(d)@, e, latest),
        from != EraType::Cold ==> forall|c: Set<u64>| cold_within(old(d)@, latest, c) ==> #[trigger] cold_within(final(d)@, latest, c),
{
    let cfg = d.config;
    let list = match d.eras.get(from) {
        Some(b) => copy_ids(&b.content),
        None => {
            return;
        },
    };
    let ghost d0 = d@;
    assert(era_shaped(d0.eras[from], d0.intervals));
    assert forall|k: int| 0 <= k < list@.len() implies d0.eras[from].content.contains(#[trigger] list@[k]) by {}
    assert(list@.subrange(0, list@.len() as int) =~= list@);
    let mut j: usize = 0;
    while j < list.len()
        invariant
            j <= list@.len(),
            cfg == d0.config,
            d0.eras.contains_key(from),
            list@ == d0.eras[from].content,
            in_progress(d@, ts@, ti@),
            d@.config == d0.config,
            d@.timestamp == d0.timestamp,
            d@.subintervals == d0.subintervals,
            d@.intervals == d0.intervals,
            d@.eras.contains_key(from),
            forall|y: u64| #[trigger]
                d@.eras[from].content.contains(y) ==> list@.subrange(j as int, list@.len() as int).contains(y)
                    || era_of(cfg, latest, y) == from,
            forall|e: EraType| settled(d0, e, latest) ==> #[trigger] settled(d@, e, latest),
            from != EraType::Cold ==> forall|x: u64| d@.eras.contains_key(EraType::Cold) && #[trigger] d@.eras[EraType::Cold].content.contains(x)
                ==> (d0.eras.contains_key(EraType::Cold) && d0.eras[EraType::Cold].content.contains(x)) || era_of(cfg, latest, x) == EraType::Cold,
            crate::sorted::increasing(list@),
            forall|k: int| j <= k < list@.len() ==> d@.eras[from].content.contains(#[trigger] list@[k]),
        decreases list@.len() - j,
    {
        let x = list[j];
        let to = get_era(&cfg, latest, x);
        let ghost dj = d@;
        let ghost rest = list@.subrange(j + 1, list@.len() as int);
        assert forall|y: u64| list@.subrange(j as int, list@.len() as int).contains(y) && y != x
            implies rest.contains(y) by {
            let k = choose|k: int| 0 <= k < list@.len() - j && list@.subrange(j as int, list@.len() as int)[k] == y;
            assert(k != 0);
            assert(rest[k - 1] == y);
        }
        assert(dj.eras[from].content.contains(x));
        if to != from {
            assert(era_shaped(dj.eras[from], dj.intervals));
            let mut fb = match d.take_era(from) {
                Some(b) => b,
                None => {
                    return;
                },
            };
            remove_id(&mut fb.content, x);
            let ghost fv = fb@;
            d.put_era(from, fb);
            let ghost dm = d@;
            let tb = match d.take_era(to) {
                Some(mut b) => {
                    assert(era_shaped(dj.eras[to], dj.intervals));
                    insert_id(&mut b.content, x);
                    b
                },
                None => {
                    let mut c: Vec<u64> = Vec::new();
                    c.push(x);
                    assert(c@ =~= seq![x]);
                    assert(forall|y: u64| seq![x].contains(y) <==> y == x) by {
                        assert(seq![x][0] == x);
                    }
                    Interval { checksum: 0, content: c }
                },
            };
            let ghost tv = tb@;
            d.put_era(to, tb);
            assert(d@.eras =~= dj.eras.insert(from, fv).insert(to, tv));
            proof { lemma_move_interval(dj, d@, ts@, ti@, x, from, to, fv, tv); }
            assert forall|e: EraType| settled(d0, e, latest) implies #[trigger] settled(d@, e, latest) by {
                assert(settled(dj, e, latest));
                if d@.eras.contains_key(e) {
                    assert forall|y: u64| #[trigger] d@.eras[e].content.contains(y) implies era_of(cfg, latest, y) == e by {
                        if e == from {
                            assert(dj.eras[from].content.contains(y));
                        } else if e == to {
                            if y != x {
                                assert(dj.eras[to].content.contains(y));
                            }
                        } else {
                            assert(dj.eras[e].content.contains(y));
                        }
                    }
                }
            }
            assert forall|y: u64| from != EraType::Cold && d@.eras.contains_key(EraType::Cold) && #[trigger] d@.eras[EraType::Cold].content.contains(y)
                implies (d0.eras.contains_key(EraType::Cold) && d0.eras[EraType::Cold].content.contains(y)) || era_of(cfg, latest, y) == EraType::Cold by {
                if to == EraType::Cold {
                    if y != x {
                        assert(dj.eras[EraType::Cold].content.contains(y));
                    }
                } else {
                    assert(dj.eras[EraType::Cold].content.contains(y));
                }
            }
            assert forall|k: int| j + 1 <= k < list@.len() implies d@.eras[from].content.contains(#[trigger] list@[k]) by {
                assert(list@[j as int] < list@[k]);
                assert(dj.eras[from].content.contains(list@[k]));
            }
        }
        j = j + 1;
    }
    assert(list@.subrange(j as int, list@.len() as int) =~= Seq::<u64>::empty());
    assert forall|c: Set<u64>| from != EraType::Cold && cold_within(d0, latest, c) implies #[trigger] cold_within(d@, latest, c) by {
        assert forall|y: u64| d@.eras.contains_key(EraType::Cold) && #[trigger] d@.eras[EraType::Cold].content.contains(y)
            implies era_of(d@.config, latest, y) == EraType::Cold || c.contains(y) by {
            if !(era_of(cfg, latest, y) == EraType::Cold) {
                assert(d0.eras[EraType::Cold].content.contains(y));
            }
        }
    }
}

} // verus!

verus! {

/// Brings the checksums of the listed subintervals up to date.
fn refresh_subs(d: &mut Digest, ts: &Vec<u64>, ti: &Vec<u64>)
    requires
        in_progress(old(d)@, ts@, ti@),
    ensures
        in_progress(final(d)@, Seq::empty(), ti@),
        final(d)@.config == old(d)@.config,
        final(d)@.timestamp == old(d)@.timestamp,
        final(d)@.eras == old(d)@.eras,
        final(d)@.intervals == old(d)@.intervals,
        entries_of(final(d)@) == entries_of(old(d)@),
{
    let ghost d0 = d@;
    assert(ts@.subrange(0, ts@.len() as int) =~= ts@);
    let mut k: usize = 0;
    while k < ts.len()
        invariant
            k <= ts@.len(),
            in_progress(d@, ts@.subrange(k as int, ts@.len() as int), ti@),
            d@.config == d0.config,
            d@.timestamp == d0.timestamp,
            d@.eras == d0.eras,
            d@.intervals == d0.intervals,
            d@.subintervals.dom() == d0.subintervals.dom(),
            forall|s: u64| #[trigger] d@.subintervals.contains_key(s) ==> d@.subintervals[s].content
                == d0.subintervals[s].content,
        decreases ts@.len() - k,
    {
        let s = ts[k];
        let ghost dk = d@;
        let ghost rest = ts@.subrange(k + 1, ts@.len() as int);
        let ghost cur = ts@.subrange(k as int, ts@.len() as int);
        assert(cur[0] == s);
        assert forall|y: u64| rest.contains(y) implies cur.contains(y) by {
            let j = choose|j: int| 0 <= j < rest.len() && rest[j] == y;
            assert(cur[j + 1] == y);
        }
        assert forall|y: u64| cur.contains(y) implies rest.contains(y) || y == s by {
            let j = choose|j: int| 0 <= j < cur.len() && cur[j] == y;
            if j > 0 {
                assert(rest[j - 1] == y);
            }
        }
        assert(cur.contains(s));
        match d.take_sub(s) {
            Some(mut b) => {
                b.checksum = get_subinterval_checksum(&b.content);
                let ghost bv = b@;
                d.put_sub(s, b);
                assert(d@.subintervals =~= dk.subintervals.insert(s, bv));
                proof { lemma_refresh_sub(dk, d@, cur, rest, ti@, s, bv); }
            },
            None => {
                assert(d@.subintervals =~= dk.subintervals);
                proof { lemma_refresh_sub(dk, d@, cur, rest, ti@, s, arbitrary()); }
            },
        }
        k = k + 1;
    }
    assert(ts@.subrange(k as int, ts@.len() as int) =~= Seq::<u64>::empty());
    assert(entries_of(d@) =~= entries_of(d0)) by {
        assert forall|x: EntryView| entries_of(d@).contains(x) <==> entries_of(d0).contains(x) by {
            if entries_of(d@).contains(x) {
                let s = choose|s: u64| #[trigger] d@.subintervals.contains_key(s)
                    && d@.subintervals[s].content.contains(x);
                assert(d0.subintervals.contains_key(s) && d0.subintervals[s].content.contains(x));
            }
            if entries_of(d0).contains(x) {
                let s = choose|s: u64| #[trigger] d0.subintervals.contains_key(s)
                    && d0.subintervals[s].content.contains(x);
                assert(d@.subintervals.contains_key(s) && d@.subintervals[s].content.contains(x));
            }
        }
    }
}

proof fn lemma_refresh_sub(
    d0: DigestView,
    d2: DigestView,
    cur: Seq<u64>,
    rest: Seq<u64>,
    ti: Seq<u64>,
    s: u64,
    bv: SubView,
)
    requires
        in_progress(d0, cur, ti),
        cur.contains(s),
        forall|y: u64| rest.contains(y) ==> cur.contains(y),
        forall|y: u64| cur.contains(y) ==> rest.contains(y) || y == s,
        d0.subintervals.contains_key(s) ==> {
            &&& d2 == d0.with_subs(d0.subintervals.insert(s, bv))
            &&& bv.content == d0.subintervals[s].content
            &&& bv.checksum == sub_checksum(bv.content)
        },
        !d0.subintervals.contains_key(s) ==> d2 == d0,
    ensures
        in_progress(d2, rest, ti),
{
    let cfg = d0.config;
    let (subs0, ints0, eras0) = (d0.subintervals, d0.intervals, d0.eras);
    let subs2 = d2.subintervals;
    let tin = listed(ti);
    assert(listed(cur).contains(s));
    if subs0.contains_key(s) {
        assert(tin.contains(interval_of(cfg, s)));
    }
    assert forall|k: u64| #[trigger] subs2.contains_key(k) implies sub_shaped(cfg, k, subs2[k]) && (
    !listed(rest).contains(k) ==> subs2[k].checksum == sub_checksum(subs2[k].content)) && (
    listed(rest).contains(k) ==> tin.contains(interval_of(cfg, k))) by {
        assert(subs0.contains_key(k));
        if listed(rest).contains(k) {
            assert(listed(cur).contains(k));
        }
        if k != s && !listed(rest).contains(k) {
            assert(!cur.contains(k));
            assert(!listed(cur).contains(k));
        }
    }
    assert forall|k: u64| #[trigger] subs2.contains_key(k) implies ints0.contains_key(interval_of(cfg, k))
        && ints0[interval_of(cfg, k)].content.contains(k) by {
        assert(subs0.contains_key(k));
    }
    assert forall|k: u64| #[trigger] ints0.contains_key(k) implies interval_shaped(cfg, k, ints0[k], subs2)
        && (!tin.contains(k) ==> ints0[k].checksum == interval_checksum(ints0[k].content, subs2)) by {
        let c = ints0[k].content;
        assert(interval_shaped(cfg, k, ints0[k], subs0));
        assert forall|j: int| 0 <= j < c.len() implies subs2.contains_key(#[trigger] c[j])
            && interval_of(cfg, c[j]) == k by {
            assert(subs0.contains_key(c[j]));
        }
        if !tin.contains(k) {
            assert forall|m: u64| c.contains(m) implies (subs0.contains_key(m)
                <==> subs2.contains_key(m)) && (subs0.contains_key(m) ==> subs0[m].checksum
                == subs2[m].checksum) by {
                let jj = choose|jj: int| 0 <= jj < c.len() && c[jj] == m;
                assert(subs0.contains_key(c[jj]) && interval_of(cfg, c[jj]) == k);
            }
            crate::digest::lemma_sub_sums_frame(c, subs0, subs2);
        }
    }
    assert forall|e: EraType| #[trigger] eras0.contains_key(e) implies era_shaped(eras0[e], ints0) by {}
    assert forall|k: u64| #[trigger] ints0.contains_key(k) implies exists|e: EraType| #[trigger]
        eras0.contains_key(e) && eras0[e].content.contains(k) by {}
    assert forall|k: u64, e1: EraType, e2: EraType|
        d2.eras.contains_key(e1) && d2.eras.contains_key(e2) && #[trigger] d2.eras[e1].content.contains(k)
            && #[trigger] d2.eras[e2].content.contains(k) implies e1 == e2 by {
        assert(d0.eras[e1].content.contains(k) && d0.eras[e2].content.contains(k));
    }
    assert forall|k: u64, e: EraType|
        d2.eras.contains_key(e) && #[trigger] d2.eras[e].content.contains(k) && listed(ti).contains(k)
            implies all_eras().contains(e) by {
        lemma_all_eras(e);
    }
    assert forall|e: EraType| #[trigger] d2.eras.contains_key(e) implies era_shaped(d2.eras[e], d2.intervals) && (!all_eras().contains(e) ==> d2.eras[e].content.len()
            > 0 && d2.eras[e].checksum == crate::digest::era_checksum(d2.eras[e].content, d2.intervals)) by {
        lemma_all_eras(e);
        assert(era_shaped(d0.eras[e], d0.intervals));
    }
}

/// Brings the checksums of the listed intervals up to date.
fn refresh_intervals(d: &mut Digest, ti: &Vec<u64>)
    requires
        in_progress(old(d)@, Seq::empty(), ti@),
    ensures
        in_progress(final(d)@, Seq::empty(), Seq::empty()),
        final(d)@.config == old(d)@.config,
        final(d)@.timestamp == old(d)@.timestamp,
        final(d)@.eras == old(d)@.eras,
        final(d)@.subintervals == old(d)@.subintervals,
        final(d)@.intervals.dom() == old(d)@.intervals.dom(),
        forall|i: u64| #[trigger] final(d)@.intervals.contains_key(i) ==> final(d)@.intervals[i].content
            == old(d)@.intervals[i].content,
{
    let ghost d0 = d@;
    assert(ti@.subrange(0, ti@.len() as int) =~= ti@);
    let mut k: usize = 0;
    while k < ti.len()
        invariant
            k <= ti@.len(),
            in_progress(d@, Seq::empty(), ti@.subrange(k as int, ti@.len() as int)),
            d@.config == d0.config,
            d@.timestamp == d0.timestamp,
            d@.eras == d0.eras,
            d@.subintervals == d0.subintervals,
            d@.intervals.dom() == d0.intervals.dom(),
            forall|i: u64| #[trigger] d@.intervals.contains_key(i) ==> d@.intervals[i].content
                == d0.intervals[i].content,
        decreases ti@.len() - k,
    {
        let i = ti[k];
        let ghost dk = d@;
        let ghost rest = ti@.subrange(k + 1, ti@.len() as int);
        let ghost cur = ti@.subrange(k as int, ti@.len() as int);
        assert(cur[0] == i);
        assert forall|y: u64| rest.contains(y) implies cur.contains(y) by {
            let j = choose|j: int| 0 <= j < rest.len() && rest[j] == y;
            assert(cur[j + 1] == y);
        }
        assert forall|y: u64| cur.contains(y) implies rest.contains(y) || y == i by {
            let j = choose|j: int| 0 <= j < cur.len() && cur[j] == y;
            if j > 0 {
                assert(rest[j - 1] == y);
            }
        }
        let sum = match d.intervals.get(&i) {
            Some(b) => get_interval_checksum(&b.content, &d.subintervals),
            None => 0,
        };
        match d.take_interval(i) {
            Some(mut b) => {
                b.checksum = sum;
                let ghost bv = b@;
                d.put_interval(i, b);
                assert(d@.intervals =~= dk.intervals.insert(i, bv));
                proof { lemma_refresh_interval(dk, d@, cur, rest, i, bv); }
            },
            None => {
                assert(d@.intervals =~= dk.intervals);
                proof { lemma_refresh_interval(dk, d@, cur, rest, i, arbitrary()); }
            },
        }
        k = k + 1;
    }
    assert(ti@.subrange(k as int, ti@.len() as int) =~= Seq::<u64>::empty());
}

proof fn lemma_refresh_interval(
    d0: DigestView,
    d2: DigestView,
    cur: Seq<u64>,
    rest: Seq<u64>,
    i: u64,
    bv: BucketView,
)
    requires
        in_progress(d0, Seq::empty(), cur),
        forall|y: u64| rest.contains(y) ==> cur.contains(y),
        forall|y: u64| cur.contains(y) ==> rest.contains(y) || y == i,
        d0.intervals.contains_key(i) ==> {
            &&& d2 == d0.with_ints(d0.intervals.insert(i, bv))
            &&& bv.content == d0.intervals[i].content
            &&& bv.checksum == interval_checksum(bv.content, d0.subintervals)
        },
        !d0.intervals.contains_key(i) ==> d2 == d0,
    ensures
        in_progress(d2, Seq::empty(), rest),
{
    let cfg = d0.config;
    let (subs0, ints0, eras0) = (d0.subintervals, d0.intervals, d0.eras);
    let ints2 = d2.intervals;
    assert forall|k: u64| #[trigger] subs0.contains_key(k) implies sub_shaped(cfg, k, subs0[k]) && (
    !listed(Seq::empty()).contains(k) ==> subs0[k].checksum == sub_checksum(subs0[k].content)) && (
    listed(Seq::<u64>::empty()).contains(k) ==> listed(rest).contains(interval_of(cfg, k))) by {
        assert(!Seq::<u64>::empty().contains(k));
    }
    assert forall|k: u64| #[trigger] subs0.contains_key(k) implies ints2.contains_key(interval_of(cfg, k))
        && ints2[interval_of(cfg, k)].content.contains(k) by {}
    assert forall|k: u64| #[trigger] ints2.contains_key(k) implies interval_shaped(cfg, k, ints2[k], subs0)
        && (!listed(rest).contains(k) ==> ints2[k].checksum == interval_checksum(ints2[k].content, subs0)) by {
        assert(ints0.contains_key(k));
        assert(interval_shaped(cfg, k, ints0[k], subs0));
        if k != i && !listed(rest).contains(k) {
            assert(!cur.contains(k));
            assert(!listed(cur).contains(k));
        }
    }
    assert forall|e: EraType| #[trigger] eras0.contains_key(e) implies era_shaped(eras0[e], ints2) by {
        assert(era_shaped(eras0[e], ints0));
    }
    assert forall|k: u64| #[trigger] ints2.contains_key(k) implies exists|e: EraType| #[trigger]
        eras0.contains_key(e) && eras0[e].content.contains(k) by {
        assert(ints0.contains_key(k));
    }
    assert forall|k: u64, e1: EraType, e2: EraType|
        d2.eras.contains_key(e1) && d2.eras.contains_key(e2) && #[trigger] d2.eras[e1].content.contains(k)
            && #[trigger] d2.eras[e2].content.contains(k) implies e1 == e2 by {
        assert(d0.eras[e1].content.contains(k) && d0.eras[e2].content.contains(k));
    }
    assert forall|k: u64, e: EraType|
        d2.eras.contains_key(e) && #[trigger] d2.eras[e].content.contains(k) && listed(rest).contains(k)
            implies all_eras().contains(e) by {
        lemma_all_eras(e);
    }
    assert forall|e: EraType| #[trigger] d2.eras.contains_key(e) implies era_shaped(d2.eras[e], d2.intervals) && (!all_eras().contains(e) ==> d2.eras[e].content.len()
            > 0 && d2.eras[e].checksum == crate::digest::era_checksum(d2.eras[e].content, d2.intervals)) by {
        lemma_all_eras(e);
        assert(era_shaped(d0.eras[e], d0.intervals));
    }
}

} // verus!

verus! {

proof fn lemma_refresh_era(
    d0: DigestView,
    d2: DigestView,
    te: Set<EraType>,
    e: EraType,
    bv: BucketView,
)
    requires
        shaped_except(d0, Set::empty(), Set::empty(), te),
        d0.eras.contains_key(e) && d0.eras[e].content.len() == 0 ==> d2 == d0.with_eras(
            d0.eras.remove(e),
        ),
        d0.eras.contains_key(e) && d0.eras[e].content.len() > 0 ==> {
            &&& d2 == d0.with_eras(d0.eras.insert(e, bv))
            &&& bv.content == d0.eras[e].content
            &&& bv.checksum == era_checksum(bv.content, d0.intervals)
        },
        !d0.eras.contains_key(e) ==> d2 == d0,
    ensures
        shaped_except(d2, Set::empty(), Set::empty(), te.remove(e)),
{
    let (ints0, eras0, eras2) = (d0.intervals, d0.eras, d2.eras);
    assert forall|x: EraType| #[trigger] eras2.contains_key(x) implies era_shaped(eras2[x], ints0) && (
    !te.remove(e).contains(x) ==> eras2[x].content.len() > 0 && eras2[x].checksum == era_checksum(
        eras2[x].content,
        ints0,
    )) by {
        assert(eras0.contains_key(x));
        assert(era_shaped(eras0[x], ints0));
    }
    assert forall|k: u64| #[trigger] ints0.contains_key(k) implies exists|x: EraType| #[trigger]
        eras2.contains_key(x) && eras2[x].content.contains(k) by {
        let x = choose|x: EraType| #[trigger] eras0.contains_key(x) && eras0[x].content.contains(k);
        assert(eras2.contains_key(x) && eras2[x].content.contains(k));
    }
    assert forall|k: u64, e1: EraType, e2: EraType|
        eras2.contains_key(e1) && eras2.contains_key(e2) && #[trigger] eras2[e1].content.contains(k)
            && #[trigger] eras2[e2].content.contains(k) implies e1 == e2 by {
        assert(eras0[e1].content.contains(k) && eras0[e2].content.contains(k));
    }
}

/// Brings the era checksums up to date and drops empty eras.
fn refresh_era(d: &mut Digest, e: EraType, Ghost(te): Ghost<Set<EraType>>)
    requires
        shaped_except(old(d)@, Set::empty(), Set::empty(), te),
    ensures
        shaped_except(final(d)@, Set::empty(), Set::empty(), te.remove(e)),
        final(d)@.config == old(d)@.config,
        final(d)@.timestamp == old(d)@.timestamp,
        final(d)@.subintervals == old(d)@.subintervals,
        final(d)@.intervals == old(d)@.intervals,
        forall|x: u64, era: EraType|
            final(d)@.eras.contains_key(era) && #[trigger] final(d)@.eras[era].content.contains(x)
                ==> old(d)@.eras.contains_key(era) && old(d)@.eras[era].content.contains(x),
{
    let ghost d0 = d@;
    let sum = match d.eras.get(e) {
        Some(b) => get_era_checksum(&b.content, &d.intervals),
        None => 0,
    };
    match d.take_era(e) {
        Some(mut b) => {
            if b.content.len() == 0 {
                proof { lemma_refresh_era(d0, d@, te, e, arbitrary()); }
            } else {
                b.checksum = sum;
                let ghost bv = b@;
                d.put_era(e, b);
                assert(d@.eras =~= d0.eras.insert(e, bv));
                proof { lemma_refresh_era(d0, d@, te, e, bv); }
            }
        },
        None => {
            assert(d@.eras =~= d0.eras);
            proof { lemma_refresh_era(d0, d@, te, e, arbitrary()); }
        },
    }
}

/// The entries of a list, as a set of views.
pub open spec fn entry_set(v: Seq<LogEntry>) -> Set<EntryView> {
    Set::new(|x: EntryView| entry_views(v).contains(x))
}

proof fn lemma_entry_set_prefix(v: Seq<LogEntry>, k: int)
    requires
        0 <= k < v.len(),
    ensures
        entry_set(v.subrange(0, k + 1)) == entry_set(v.subrange(0, k)).insert(v[k]@),
{
    let a = entry_views(v.subrange(0, k + 1));
    let b = entry_views(v.subrange(0, k));
    assert(a =~= b.push(v[k]@));
    assert forall|x: EntryView| a.contains(x) <==> b.contains(x) || x == v[k]@ by {
        if a.contains(x) {
            let j = choose|j: int| 0 <= j < a.len() && a[j] == x;
            if j < k {
                assert(b[j] == x);
            }
        }
        if b.contains(x) {
            let j = choose|j: int| 0 <= j < b.len() && b[j] == x;
            assert(a[j] == x);
        }
        if x == v[k]@ {
            assert(a[k] == x);
        }
    }
    assert(entry_set(v.subrange(0, k + 1)) =~= entry_set(v.subrange(0, k)).insert(v[k]@));
}

proof fn lemma_start(d: DigestView)
    requires
        shaped_except(d, Set::empty(), Set::empty(), Set::empty()),
    ensures
        in_progress(d, Seq::empty(), Seq::empty()),
{
    assert(listed(Seq::empty()) =~= Set::<u64>::empty());
    assert forall|k: u64, e: EraType|
        d.eras.contains_key(e) && #[trigger] d.eras[e].content.contains(k) && listed(Seq::empty()).contains(k)
            implies all_eras().contains(e) by {
        lemma_all_eras(e);
    }
    assert forall|e: EraType| #[trigger] d.eras.contains_key(e) implies era_shaped(d.eras[e], d.intervals)
        && (!all_eras().contains(e) ==> d.eras[e].content.len() > 0 && d.eras[e].checksum
        == era_checksum(d.eras[e].content, d.intervals)) by {
        lemma_all_eras(e);
    }
}

/// Applies removals, then additions, then moves intervals between eras
/// and brings every checksum up to date.
fn apply(
    d: &mut Digest,
    latest: u64,
    added: &Vec<LogEntry>,
    removed: &Vec<LogEntry>,
    Ghost(c0): Ghost<Set<u64>>,
)
    requires
        shaped_except(old(d)@, Set::empty(), Set::empty(), Set::empty()),
        cold_within(old(d)@, latest, c0),
    ensures
        well_formed(final(d)@),
        eras_follow_except(final(d)@, latest, c0),
        entries_of(final(d)@) == entries_of(old(d)@).difference(entry_set(removed@)).union(
            entry_set(added@),
        ),
        final(d)@.config == old(d)@.config,
        final(d)@.timestamp == old(d)@.timestamp,
{
    let ghost d0 = d@;
    let mut ts: Vec<u64> = Vec::new();
    let mut ti: Vec<u64> = Vec::new();
    proof { lemma_start(d0); }
    assert(entry_set(removed@.subrange(0, 0)) =~= Set::empty());
    let mut k: usize = 0;
    while k < removed.len()
        invariant
            k <= removed@.len(),
            in_progress(d@, ts@, ti@),
            cold_within(d@, latest, c0),
            entries_of(d@) == entries_of(d0).difference(entry_set(removed@.subrange(0, k as int))),
            d@.config == d0.config,
            d@.timestamp == d0.timestamp,
        decreases removed@.len() - k,
    {
        remove_one(d, &removed[k], latest, &mut ts, &mut ti, Ghost(c0));
        proof { lemma_entry_set_prefix(removed@, k as int); }
        assert(entries_of(d@) =~= entries_of(d0).difference(entry_set(removed@.subrange(0, k + 1))));
        k = k + 1;
    }
    assert(removed@.subrange(0, k as int) =~= removed@);
    let ghost d1 = d@;
    assert(entry_set(added@.subrange(0, 0)) =~= Set::empty());
    assert(entries_of(d1) =~= entries_of(d1).union(entry_set(added@.subrange(0, 0))));
    let mut k: usize = 0;
    while k < added.len()
        invariant
            k <= added@.len(),
            in_progress(d@, ts@, ti@),
            cold_within(d@, latest, c0),
            entries_of(d@) == entries_of(d1).union(entry_set(added@.subrange(0, k as int))),
            d@.config == d0.config,
            d@.timestamp == d0.timestamp,
        decreases added@.len() - k,
    {
        let e = added[k].duplicate();
        add_one(d, e, latest, &mut ts, &mut ti, Ghost(c0));
        proof { lemma_entry_set_prefix(added@, k as int); }
        assert(entries_of(d@) =~= entries_of(d1).union(entry_set(added@.subrange(0, k + 1))));
        k = k + 1;
    }
    assert(added@.subrange(0, k as int) =~= added@);
    let ghost d2 = d@;
    realign_era(d, EraType::Hot, latest, &ts, &ti);
    assert(settled(d@, EraType::Hot, latest) && cold_within(d@, latest, c0));
    realign_era(d, EraType::Warm, latest, &ts, &ti);
    assert(settled(d@, EraType::Hot, latest) && cold_within(d@, latest, c0) && settled(
        d@,
        EraType::Warm,
        latest,
    ));
    assert(entries_of(d@) =~= entries_of(d2));
    let ghost d3 = d@;
    refresh_subs(d, &ts, &ti);
    refresh_intervals(d, &ti);
    assert(listed(Seq::empty()) =~= Set::<u64>::empty());
    let ghost d4 = d@;
    assert(d4.eras == d3.eras && d4.config == d3.config);
    assert(settled(d4, EraType::Hot, latest) && cold_within(d4, latest, c0) && settled(
        d4,
        EraType::Warm,
        latest,
    ));
    assert(entries_of(d@) =~= entries_of(d3));
    assert(all_eras().remove(EraType::Hot).remove(EraType::Warm).remove(EraType::Cold) =~= Set::empty());
    refresh_era(d, EraType::Hot, Ghost(all_eras()));
    let ghost d5 = d@;
    refresh_era(d, EraType::Warm, Ghost(all_eras().remove(EraType::Hot)));
    let ghost d6 = d@;
    refresh_era(d, EraType::Cold, Ghost(all_eras().remove(EraType::Hot).remove(EraType::Warm)));
    let ghost d7 = d@;
    assert(shaped_except(d7, Set::empty(), Set::empty(), Set::empty()));
    assert(entries_of(d@) =~= entries_of(d4));
    d.checksum = get_digest_checksum(&d.eras);
    assert(d@.subintervals == d7.subintervals);
    assert(d@.intervals == d7.intervals);
    assert(d@.eras == d7.eras);
    assert(d@ == DigestView { checksum: d@.checksum, ..d7 });
    assert forall|i: u64, e: EraType| d@.eras.contains_key(e) && #[trigger] d@.eras[e].content.contains(i)
        implies e == era_of(d@.config, latest, i) || (e == EraType::Cold && c0.contains(i)) by {
        assert(d6.eras.contains_key(e) && d6.eras[e].content.contains(i));
        assert(d5.eras.contains_key(e) && d5.eras[e].content.contains(i));
        assert(d4.eras.contains_key(e) && d4.eras[e].content.contains(i));
        match e {
            EraType::Hot => assert(settled(d4, EraType::Hot, latest)),
            EraType::Warm => assert(settled(d4, EraType::Warm, latest)),
            EraType::Cold => assert(cold_within(d4, latest, c0)),
        }
    }
}

proof fn lemma_retimestamp(a: DigestView, b: DigestView, latest: u64, c: Set<u64>)
    requires
        b == (DigestView { timestamp: b.timestamp, ..a }),
        well_formed(a),
        eras_follow_except(a, latest, c),
    ensures
        well_formed(b),
        entries_of(b) == entries_of(a),
        eras_follow_except(b, latest, c),
{
    assert(b.subintervals == a.subintervals && b.intervals == a.intervals && b.eras == a.eras);
    assert(entries_of(b) =~= entries_of(a));
}

impl Digest {
    /// Builds the digest of a log from scratch: every entry is filed in
    /// its subinterval, interval and era, and every checksum computed.
    pub fn create_digest(
        timestamp: Timestamp,
        config: DigestConfig,
        raw_log: Vec<LogEntry>,
        latest_interval: u64,
    ) -> (r: Digest)
        requires
            config.valid(),
        ensures
            digest_of(r@, config, latest_interval, entry_set(raw_log@)),
            r.timestamp == timestamp,
    {
        let mut d = Digest {
            timestamp,
            config,
            checksum: 0,
            eras: Eras { hot: None, warm: None, cold: None },
            intervals: HashMap::new(),
            subintervals: HashMap::new(),
        };
        assert(d@.eras =~= Map::empty());
        assert(entries_of(d@) =~= Set::empty());
        let none: Vec<LogEntry> = Vec::new();
        apply(&mut d, latest_interval, &raw_log, &none, Ghost(Set::empty()));
        assert(entries_of(d@) =~= entry_set(raw_log@));
        d
    }

    /// Updates a digest: removes `deleted_content`, then adds
    /// `new_content`, moves intervals whose era has changed under
    /// `latest_interval`, and recomputes the checksums that changed. A
    /// digest that is not consistent (see `is_well_formed`: a dangling id,
    /// a misplaced interval, a stale checksum) is rebuilt from the entries
    /// it holds, so the result is always consistent.
    pub fn update_digest(
        current: Digest,
        latest_interval: u64,
        last_snapshot_time: Timestamp,
        new_content: Vec<LogEntry>,
        deleted_content: Vec<LogEntry>,
    ) -> (r: Digest)
        requires
            current@.config.valid(),
        ensures
            well_formed(r@),
            r@.config == current@.config,
            r.timestamp == last_snapshot_time,
            entries_of(r@) == entries_of(current@).difference(entry_set(deleted_content@)).union(
                entry_set(new_content@),
            ),
            well_formed(current@) ==> eras_follow_except(r@, latest_interval, cold_set(current@)),
            well_formed(current@) && cold_stays_cold(current@, latest_interval) ==> digest_of(
                r@,
                current@.config,
                latest_interval,
                entries_of(current@).difference(entry_set(deleted_content@)).union(
                    entry_set(new_content@),
                ),
            ),
            !well_formed(current@) ==> digest_of(
                r@,
                current@.config,
                latest_interval,
                entries_of(current@).difference(entry_set(deleted_content@)).union(
                    entry_set(new_content@),
                ),
            ),
    {
        if !current.is_well_formed() {
            let ghost target = entries_of(current@).difference(entry_set(deleted_content@)).union(
                entry_set(new_content@));
            let held = all_entries(&current);
            let mut log: Vec<LogEntry> = Vec::new();
            let mut k: usize = 0;
            while k < held.len()
                invariant
                    k <= held@.len(),
                    forall|x: EntryView| #[trigger] entry_set(log@).contains(x) <==> entry_set(held@.subrange(0, k as int)).contains(x)
                        && !entry_set(deleted_content@).contains(x),
                decreases held@.len() - k,
            {
                proof { lemma_entry_set_prefix(held@, k as int); }
                if !crate::align::contains_entry(&deleted_content, &held[k]) {
                    let ghost before = log@;
                    log.push(held[k].duplicate());
                    assert(log@.subrange(0, before.len() as int) =~= before);
                    proof { lemma_entry_set_push(before, log@); }
                }
                k = k + 1;
            }
            assert(held@.subrange(0, k as int) =~= held@);
            let mut k: usize = 0;
            let ghost base = entry_set(log@);
            while k < new_content.len()
                invariant
                    k <= new_content@.len(),
                    forall|x: EntryView| #[trigger] entry_set(log@).contains(x) <==> base.contains(x)
                        || entry_set(new_content@.subrange(0, k as int)).contains(x),
                decreases new_content@.len() - k,
            {
                proof { lemma_entry_set_prefix(new_content@, k as int); }
                let ghost before = log@;
                log.push(new_content[k].duplicate());
                assert(log@.subrange(0, before.len() as int) =~= before);
                    proof { lemma_entry_set_push(before, log@); }
                k = k + 1;
            }
            assert(new_content@.subrange(0, k as int) =~= new_content@);
            let r = Digest::create_digest(last_snapshot_time, current.config, log, latest_interval);
            assert(entry_set(log@) =~= target);
            return r;
        }
        let mut d = current;
        apply(&mut d, latest_interval, &new_content, &deleted_content, Ghost(cold_set(current@)));
        let ghost before = d@;
        d.timestamp = last_snapshot_time;
        assert(d@ == (DigestView { timestamp: last_snapshot_time, ..before }));
        proof { lemma_retimestamp(before, d@, latest_interval, cold_set(current@)); }
        proof {
            if cold_stays_cold(current@, latest_interval) {
                assert forall|i: u64, e: EraType| d@.eras.contains_key(e) && #[trigger] d@.eras[e].content.contains(i)
                    implies e == era_of(d@.config, latest_interval, i) by {
                    if !(e == era_of(d@.config, latest_interval, i)) {
                        assert(cold_set(current@).contains(i));
                    }
                }
            }
        }
        d
    }
}

proof fn lemma_entry_set_push(before: Seq<LogEntry>, after: Seq<LogEntry>)
    requires
        after.len() == before.len() + 1,
        after.subrange(0, before.len() as int) == before,
    ensures
        forall|x: EntryView| #[trigger] entry_set(after).contains(x) <==> entry_set(before).contains(x) || x == after.last()@,
{
    assert(entry_views(after) =~= entry_views(before).push(after.last()@));
    assert forall|x: EntryView| #[trigger] entry_set(after).contains(x) <==> entry_set(before).contains(x) || x == after.last()@ by {
        let a = entry_views(after);
        let b = entry_views(before);
        if a.contains(x) {
            let j = choose|j: int| 0 <= j < a.len() && a[j] == x;
            if j < b.len() {
                assert(b[j] == x);
            }
        }
        if b.contains(x) {
            let j = choose|j: int| 0 <= j < b.len() && b[j] == x;
            assert(a[j] == x);
        }
        if x == after.last()@ {
            assert(a[b.len() as int] == x);
        }
    }
}

/// Some subinterval among `ks` holds `x`.
pub open spec fn held_in(d: DigestView, ks: Seq<u64>, x: EntryView) -> bool {
    exists|j: int| 0 <= j < ks.len() && d.subintervals.contains_key(ks[j]) && #[trigger] d.subintervals[ks[j]].content.contains(x)
}

/// Every entry held by the subintervals of a digest, in some order.
fn all_entries(d: &Digest) -> (r: Vec<LogEntry>)
    ensures
        entry_set(r@) == entries_of(d@),
{
    let ks = crate::consistency::keys_of(&d.subintervals);
    let mut r: Vec<LogEntry> = Vec::new();
    let mut k: usize = 0;
    while k < ks.len()
        invariant
            k <= ks@.len(),
            forall|x: EntryView| #[trigger] entry_set(r@).contains(x) <==> held_in(d@, ks@.subrange(0, k as int), x),
        decreases ks@.len() - k,
    {
        let ghost pre = ks@.subrange(0, k as int);
        let ghost next = ks@.subrange(0, k + 1);
        let ghost r0 = r@;
        match d.subintervals.get(&ks[k]) {
            Some(b) => {
                let mut j: usize = 0;
                while j < b.content.len()
                    invariant
                        j <= b.content@.len(),
                        d@.subintervals.contains_key(ks@[k as int]),
                        b@ == d@.subintervals[ks@[k as int]],
                        forall|x: EntryView| #[trigger] entry_set(r@).contains(x) <==> entry_set(r0).contains(x)
                            || entry_views(b.content@).subrange(0, j as int).contains(x),
                    decreases b.content@.len() - j,
                {
                    let ghost before = r@;
                    let dup = b.content[j].duplicate();
                    let ghost dv = dup@;
                    r.push(dup);
                    assert(r@.subrange(0, before.len() as int) =~= before);
                    assert(r@.last()@ == dv);
                    assert(dv == entry_views(b.content@)[j as int]);
                    proof { lemma_entry_set_push(before, r@); }
                    assert forall|x: EntryView| entry_views(b.content@).subrange(0, j + 1).contains(x)
                        <==> entry_views(b.content@).subrange(0, j as int).contains(x) || x == b.content@[j as int]@ by {
                        let s1 = entry_views(b.content@).subrange(0, j + 1);
                        let s0 = entry_views(b.content@).subrange(0, j as int);
                        if s1.contains(x) {
                            let i = choose|i: int| 0 <= i < s1.len() && s1[i] == x;
                            if i < j {
                                assert(s0[i] == x);
                            }
                        }
                        if s0.contains(x) {
                            let i = choose|i: int| 0 <= i < s0.len() && s0[i] == x;
                            assert(s1[i] == x);
                        }
                        if x == b.content@[j as int]@ {
                            assert(s1[j as int] == x);
                        }
                    }
                    assert forall|x: EntryView| #[trigger] entry_set(r@).contains(x) <==> entry_set(r0).contains(x)
                        || entry_views(b.content@).subrange(0, j + 1).contains(x) by {
                        assert(entry_set(before).contains(x) <==> entry_set(r0).contains(x)
                            || entry_views(b.content@).subrange(0, j as int).contains(x));
                    }
                    j = j + 1;
                }
                assert(entry_views(b.content@).subrange(0, j as int) =~= d@.subintervals[ks@[k as int]].content);
            },
            None => {},
        }
        assert forall|x: EntryView| #[trigger] entry_set(r@).contains(x) <==> held_in(d@, next, x) by {
            if held_in(d@, next, x) {
                let j = choose|j: int| 0 <= j < next.len() && d@.subintervals.contains_key(next[j]) && #[trigger] d@.subintervals[next[j]].content.contains(x);
                if j < k {
                    assert(pre[j] == next[j]);
                    assert(held_in(d@, pre, x));
                }
            }
            if held_in(d@, pre, x) {
                let j = choose|j: int| 0 <= j < pre.len() && d@.subintervals.contains_key(pre[j]) && #[trigger] d@.subintervals[pre[j]].content.contains(x);
                assert(next[j] == pre[j]);
            }
            if d@.subintervals.contains_key(ks@[k as int]) && d@.subintervals[ks@[k as int]].content.contains(x) {
                assert(next[k as int] == ks@[k as int]);
            }
        }
        k = k + 1;
    }
    assert(ks@.subrange(0, k as int) =~= ks@);
    assert forall|x: EntryView| entry_set(r@).contains(x) <==> entries_of(d@).contains(x) by {
        if entries_of(d@).contains(x) {
            let s = choose|s: u64| #[trigger] d@.subintervals.contains_key(s) && d@.subintervals[s].content.contains(x);
            assert(ks@.contains(s));
            let j = choose|j: int| 0 <= j < ks@.len() && ks@[j] == s;
            assert(held_in(d@, ks@, x));
        }
        if held_in(d@, ks@, x) {
            let j = choose|j: int| 0 <= j < ks@.len() && d@.subintervals.contains_key(ks@[j]) && #[trigger] d@.subintervals[ks@[j]].content.contains(x);
            assert(d@.subintervals.contains_key(ks@[j]) && d@.subintervals[ks@[j]].content.contains(x));
        }
    }
    assert(entry_set(r@) =~= entries_of(d@));
    r
}

} // verus!
