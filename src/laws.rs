//! Laws of replica digests, stated over the contracts of `create_digest`
//! and `update_digest`.

use crate::digest::{
    digest_of, entries_of, era_of, era_shaped, eras_follow, interval_checksum, interval_of,
    interval_shaped, shaped_except, sub_of, sub_shaped, well_formed, DigestConfig, DigestView,
    EraType,
};
use crate::entry::EntryView;
use crate::sorted::{lemma_entries_increasing_unique, lemma_increasing_unique};
use crate::update::entry_set;
use crate::entry::LogEntry;
use vstd::prelude::*;

verus! {

proof fn lemma_sub_domain(d: DigestView, s: u64)
    requires
        well_formed(d),
    ensures
        d.subintervals.contains_key(s) <==> exists|e: EntryView|
            entries_of(d).contains(e) && #[trigger] sub_of(d.config, e) == s,
{
    if d.subintervals.contains_key(s) {
        assert(sub_shaped(d.config, s, d.subintervals[s]));
        let e = d.subintervals[s].content[0];
        assert(d.subintervals[s].content.contains(e));
        assert(entries_of(d).contains(e));
        assert(sub_of(d.config, e) == s);
    }
    if exists|e: EntryView| entries_of(d).contains(e) && #[trigger] sub_of(d.config, e) == s {
        let e = choose|e: EntryView| entries_of(d).contains(e) && #[trigger] sub_of(d.config, e) == s;
        let k = choose|k: u64| #[trigger] d.subintervals.contains_key(k) && d.subintervals[k].content.contains(e);
        let c = d.subintervals[k].content;
        let j = choose|j: int| 0 <= j < c.len() && c[j] == e;
        assert(sub_shaped(d.config, k, d.subintervals[k]));
        assert(sub_of(d.config, c[j]) == k);
    }
}

proof fn lemma_sub_members(d: DigestView, s: u64, e: EntryView)
    requires
        well_formed(d),
        d.subintervals.contains_key(s),
    ensures
        d.subintervals[s].content.contains(e) <==> entries_of(d).contains(e) && sub_of(d.config, e) == s,
{
    assert(sub_shaped(d.config, s, d.subintervals[s]));
    if d.subintervals[s].content.contains(e) {
        let c = d.subintervals[s].content;
        let j = choose|j: int| 0 <= j < c.len() && c[j] == e;
        assert(sub_of(d.config, c[j]) == s);
    }
    if entries_of(d).contains(e) && sub_of(d.config, e) == s {
        let k = choose|k: u64| #[trigger] d.subintervals.contains_key(k) && d.subintervals[k].content.contains(e);
        let c = d.subintervals[k].content;
        let j = choose|j: int| 0 <= j < c.len() && c[j] == e;
        assert(sub_shaped(d.config, k, d.subintervals[k]));
        assert(sub_of(d.config, c[j]) == k);
    }
}

proof fn lemma_interval_members(d: DigestView, i: u64, s: u64)
    requires
        well_formed(d),
        d.intervals.contains_key(i),
    ensures
        d.intervals[i].content.contains(s) <==> d.subintervals.contains_key(s) && interval_of(d.config, s) == i,
{
    assert(interval_shaped(d.config, i, d.intervals[i], d.subintervals));
    if d.intervals[i].content.contains(s) {
        let c = d.intervals[i].content;
        let j = choose|j: int| 0 <= j < c.len() && c[j] == s;
        assert(d.subintervals.contains_key(c[j]) && interval_of(d.config, c[j]) == i);
    }
}

proof fn lemma_interval_domain(d: DigestView, i: u64)
    requires
        well_formed(d),
    ensures
        d.intervals.contains_key(i) <==> exists|s: u64|
            d.subintervals.contains_key(s) && #[trigger] interval_of(d.config, s) == i,
{
    if d.intervals.contains_key(i) {
        assert(interval_shaped(d.config, i, d.intervals[i], d.subintervals));
        let s = d.intervals[i].content[0];
        assert(d.subintervals.contains_key(s) && interval_of(d.config, s) == i);
    }
}

proof fn lemma_era_members(d: DigestView, latest: u64, e: EraType, i: u64)
    requires
        well_formed(d),
        eras_follow(d, latest),
        d.eras.contains_key(e),
    ensures
        d.eras[e].content.contains(i) <==> d.intervals.contains_key(i) && era_of(d.config, latest, i) == e,
{
    assert(era_shaped(d.eras[e], d.intervals));
    if d.eras[e].content.contains(i) {
        let c = d.eras[e].content;
        let j = choose|j: int| 0 <= j < c.len() && c[j] == i;
        assert(d.intervals.contains_key(c[j]));
    }
    if d.intervals.contains_key(i) && era_of(d.config, latest, i) == e {
        let x = choose|x: EraType| #[trigger] d.eras.contains_key(x) && d.eras[x].content.contains(i);
        assert(x == era_of(d.config, latest, i));
    }
}

proof fn lemma_era_domain(d: DigestView, latest: u64, e: EraType)
    requires
        well_formed(d),
        eras_follow(d, latest),
    ensures
        d.eras.contains_key(e) <==> exists|i: u64|
            d.intervals.contains_key(i) && #[trigger] era_of(d.config, latest, i) == e,
{
    if d.eras.contains_key(e) {
        assert(d.eras[e].content.len() > 0);
        let i = d.eras[e].content[0];
        assert(d.eras[e].content.contains(i));
        lemma_era_members(d, latest, e, i);
    }
    if exists|i: u64| d.intervals.contains_key(i) && #[trigger] era_of(d.config, latest, i) == e {
        let i = choose|i: u64| d.intervals.contains_key(i) && #[trigger] era_of(d.config, latest, i) == e;
        let x = choose|x: EraType| #[trigger] d.eras.contains_key(x) && d.eras[x].content.contains(i);
        assert(x == era_of(d.config, latest, i));
    }
}

/// A digest is determined by its configuration, the latest interval and
/// the entries it summarises: two such digests agree on every bucket and
/// checksum, and can differ only in their timestamps.
pub proof fn lemma_digest_determined(
    d1: DigestView,
    d2: DigestView,
    config: DigestConfig,
    latest: u64,
    entries: Set<EntryView>,
)
    requires
        digest_of(d1, config, latest, entries),
        digest_of(d2, config, latest, entries),
    ensures
        d1.subintervals == d2.subintervals,
        d1.intervals == d2.intervals,
        d1.eras == d2.eras,
        d1.checksum == d2.checksum,
{
    assert forall|s: u64| d1.subintervals.contains_key(s) <==> d2.subintervals.contains_key(s) by {
        lemma_sub_domain(d1, s);
        lemma_sub_domain(d2, s);
    }
    assert forall|s: u64| d1.subintervals.contains_key(s) implies d1.subintervals[s] == d2.subintervals[s] by {
        assert forall|e: EntryView| d1.subintervals[s].content.contains(e) <==> d2.subintervals[s].content.contains(e) by {
            lemma_sub_members(d1, s, e);
            lemma_sub_members(d2, s, e);
        }
        assert(sub_shaped(config, s, d1.subintervals[s]));
        assert(sub_shaped(config, s, d2.subintervals[s]));
        lemma_entries_increasing_unique(d1.subintervals[s].content, d2.subintervals[s].content);
    }
    assert(d1.subintervals =~= d2.subintervals);
    assert forall|i: u64| d1.intervals.contains_key(i) <==> d2.intervals.contains_key(i) by {
        lemma_interval_domain(d1, i);
        lemma_interval_domain(d2, i);
    }
    assert forall|i: u64| d1.intervals.contains_key(i) implies d1.intervals[i] == d2.intervals[i] by {
        assert forall|s: u64| d1.intervals[i].content.contains(s) <==> d2.intervals[i].content.contains(s) by {
            lemma_interval_members(d1, i, s);
            lemma_interval_members(d2, i, s);
        }
        assert(interval_shaped(config, i, d1.intervals[i], d1.subintervals));
        assert(interval_shaped(config, i, d2.intervals[i], d2.subintervals));
        lemma_increasing_unique(d1.intervals[i].content, d2.intervals[i].content);
        assert(d1.intervals[i].checksum == interval_checksum(d1.intervals[i].content, d1.subintervals));
        assert(d2.intervals[i].checksum == interval_checksum(d2.intervals[i].content, d2.subintervals));
    }
    assert(d1.intervals =~= d2.intervals);
    assert forall|e: EraType| d1.eras.contains_key(e) <==> d2.eras.contains_key(e) by {
        lemma_era_domain(d1, latest, e);
        lemma_era_domain(d2, latest, e);
    }
    assert forall|e: EraType| d1.eras.contains_key(e) implies d1.eras[e] == d2.eras[e] by {
        assert forall|i: u64| d1.eras[e].content.contains(i) <==> d2.eras[e].content.contains(i) by {
            lemma_era_members(d1, latest, e, i);
            lemma_era_members(d2, latest, e, i);
        }
        assert(era_shaped(d1.eras[e], d1.intervals));
        assert(era_shaped(d2.eras[e], d2.intervals));
        lemma_increasing_unique(d1.eras[e].content, d2.eras[e].content);
    }
    assert(d1.eras =~= d2.eras);
}

/// The digest of a log does not depend on the order of the log: logs with
/// the same entries give the same digest.
pub proof fn lemma_create_order_independent(
    config: DigestConfig,
    latest_interval: u64,
    log1: Seq<LogEntry>,
    log2: Seq<LogEntry>,
    d1: DigestView,
    d2: DigestView,
)
    requires
        forall|e: EntryView| entry_set(log1).contains(e) <==> entry_set(log2).contains(e),
        digest_of(d1, config, latest_interval, entry_set(log1)),
        digest_of(d2, config, latest_interval, entry_set(log2)),
        d1.timestamp == d2.timestamp,
    ensures
        d1 == d2,
{
    assert(entry_set(log1) =~= entry_set(log2));
    lemma_digest_determined(d1, d2, config, latest_interval, entry_set(log1));
}

/// Adding entries that a digest does not hold and then removing them
/// again gives back the digest, with the timestamp of the last update.
pub proof fn lemma_add_then_remove(
    d: DigestView,
    config: DigestConfig,
    latest_interval: u64,
    added: Seq<LogEntry>,
    after_add: DigestView,
    after_remove: DigestView,
)
    requires
        digest_of(d, config, latest_interval, entries_of(d)),
        entries_of(d).disjoint(entry_set(added)),
        digest_of(after_add, config, latest_interval, entries_of(d).difference(Set::empty()).union(entry_set(added))),
        digest_of(
            after_remove,
            config,
            latest_interval,
            entries_of(after_add).difference(entry_set(added)).union(Set::empty()),
        ),
    ensures
        after_remove == (DigestView { timestamp: after_remove.timestamp, ..d }),
{
    assert(entries_of(after_add).difference(entry_set(added)).union(Set::empty()) =~= entries_of(d));
    lemma_digest_determined(after_remove, d, config, latest_interval, entries_of(d));
}

/// In a digest, every interval sits in exactly one era: the one the
/// latest interval gives it.
pub proof fn lemma_interval_in_one_era(
    d: DigestView,
    config: DigestConfig,
    latest_interval: u64,
    entries: Set<EntryView>,
    i: u64,
)
    requires
        digest_of(d, config, latest_interval, entries),
        d.intervals.contains_key(i),
    ensures
        d.eras.contains_key(era_of(config, latest_interval, i)),
        d.eras[era_of(config, latest_interval, i)].content.contains(i),
        forall|e: EraType|
            d.eras.contains_key(e) && #[trigger] d.eras[e].content.contains(i) ==> (e == era_of(config, latest_interval, i)),
{
    let x = choose|x: EraType| #[trigger] d.eras.contains_key(x) && d.eras[x].content.contains(i);
    assert(x == era_of(config, latest_interval, i));
}

} // verus!
