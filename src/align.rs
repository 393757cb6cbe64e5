//! Over-the-wire compression of digests, and the queries that align two
//! replicas round by round: eras, then intervals, then subintervals, then
//! log entries.

use crate::digest::{BucketView, Digest, DigestView, EraType, Eras, Interval, SubInterval, SubView};
use crate::entry::{EntryView, LogEntry};
use crate::sorted::{entry_views, increasing, insert_id};
use std::collections::HashMap;
use vstd::prelude::*;

verus! {

broadcast use vstd::std_specs::hash::group_hash_axioms;

/// Interval `i` is listed in the bucket of `era`.
pub open spec fn in_era(d: DigestView, era: EraType, i: u64) -> bool {
    d.eras.contains_key(era) && d.eras[era].content.contains(i)
}

/// Eras of a compressed digest: the cold era keeps its checksum only.
pub open spec fn compressed_eras(d: DigestView) -> Map<EraType, BucketView> {
    Map::new(
        |e: EraType| d.eras.contains_key(e),
        |e: EraType|
            if e == EraType::Cold {
                BucketView { checksum: d.eras[e].checksum, content: Seq::empty() }
            } else {
                d.eras[e]
            },
    )
}

/// Intervals of a compressed digest: hot ones whole, warm ones with their
/// checksum only.
pub open spec fn compressed_intervals(d: DigestView) -> Map<u64, BucketView> {
    Map::new(
        |i: u64| (in_era(d, EraType::Hot, i) || in_era(d, EraType::Warm, i)) && d.intervals.contains_key(i),
        |i: u64|
            if in_era(d, EraType::Warm, i) {
                BucketView { checksum: d.intervals[i].checksum, content: Seq::empty() }
            } else {
                d.intervals[i]
            },
    )
}

/// Subinterval `s` belongs to an interval of the hot era.
pub open spec fn hot_sub(d: DigestView, s: u64) -> bool {
    exists|i: u64|
        in_era(d, EraType::Hot, i) && d.intervals.contains_key(i) && #[trigger] d.intervals[i].content.contains(s)
}

/// Subinterval `s` belongs to one of the listed intervals.
pub open spec fn listed_sub(d: DigestView, l: Seq<u64>, s: u64) -> bool {
    exists|y: u64| l.contains(y) && d.intervals.contains_key(y) && #[trigger] d.intervals[y].content.contains(s)
}

proof fn lemma_prefix_step(l: Seq<u64>, k: int)
    requires
        0 <= k < l.len(),
    ensures
        forall|x: u64| #[trigger]
            l.subrange(0, k + 1).contains(x) ==> l.subrange(0, k).contains(x) || x == l[k],
        forall|x: u64| #[trigger]
            l.subrange(0, k).contains(x) ==> l.subrange(0, k + 1).contains(x),
        l.subrange(0, k + 1).contains(l[k]),
{
    let pre = l.subrange(0, k);
    let next = l.subrange(0, k + 1);
    assert forall|x: u64| next.contains(x) implies pre.contains(x) || x == l[k] by {
        let j = choose|j: int| 0 <= j < next.len() && next[j] == x;
        if j < k {
            assert(pre[j] == x);
        }
    }
    assert forall|x: u64| pre.contains(x) || x == l[k] implies next.contains(x) by {
        if x == l[k] {
            assert(next[k] == x);
        } else {
            let j = choose|j: int| 0 <= j < pre.len() && pre[j] == x;
            assert(next[j] == x);
        }
    }
}

/// Subintervals of a compressed digest: those of hot intervals, in full.
pub open spec fn compressed_subs(d: DigestView) -> Map<u64, SubView> {
    Map::new(
        |s: u64| d.subintervals.contains_key(s) && hot_sub(d, s),
        |s: u64| d.subintervals[s],
    )
}

impl Interval {
    /// A copy of this bucket.
    pub fn duplicate(&self) -> (r: Interval)
        ensures
            r@ == self@,
    {
        let mut content: Vec<u64> = Vec::new();
        let mut k: usize = 0;
        while k < self.content.len()
            invariant
                k <= self.content@.len(),
                content@ == self.content@.subrange(0, k as int),
            decreases self.content@.len() - k,
        {
            content.push(self.content[k]);
            k = k + 1;
            assert(content@ =~= self.content@.subrange(0, k as int));
        }
        assert(self.content@.subrange(0, k as int) =~= self.content@);
        Interval { checksum: self.checksum, content }
    }
}

fn copy_entries(v: &Vec<LogEntry>) -> (r: Vec<LogEntry>)
    ensures
        entry_views(r@) == entry_views(v@),
{
    let mut r: Vec<LogEntry> = Vec::new();
    let mut k: usize = 0;
    while k < v.len()
        invariant
            k <= v@.len(),
            entry_views(r@) == entry_views(v@.subrange(0, k as int)),
        decreases v@.len() - k,
    {
        let ghost before = r@;
        r.push(v[k].duplicate());
        assert(entry_views(r@) =~= entry_views(before).push(v@[k as int]@));
        assert(v@.subrange(0, k + 1) =~= v@.subrange(0, k as int).push(v@[k as int]));
        assert(entry_views(v@.subrange(0, k + 1)) =~= entry_views(v@.subrange(0, k as int)).push(
            v@[k as int]@,
        ));
        k = k + 1;
    }
    assert(v@.subrange(0, k as int) =~= v@);
    r
}

impl Digest {
    /// The wire form of this digest: hot intervals in full with their
    /// subintervals and entries, warm intervals by checksum only, and the
    /// cold era by its checksum only.
    pub fn compress(&self) -> (r: Digest)
        ensures
            r@.timestamp == self@.timestamp,
            r@.config == self@.config,
            r@.checksum == self@.checksum,
            r@.eras == compressed_eras(self@),
            r@.intervals == compressed_intervals(self@),
            r@.subintervals == compressed_subs(self@),
    {
        let ghost d = self@;
        let mut ints: HashMap<u64, Interval> = HashMap::new();
        let mut subs: HashMap<u64, SubInterval> = HashMap::new();
        let hot: Vec<u64> = match self.eras.get(EraType::Hot) {
            Some(b) => b.duplicate().content,
            None => Vec::new(),
        };
        let warm: Vec<u64> = match self.eras.get(EraType::Warm) {
            Some(b) => b.duplicate().content,
            None => Vec::new(),
        };
        assert(forall|i: u64| hot@.contains(i) <==> in_era(d, EraType::Hot, i));
        assert(forall|i: u64| warm@.contains(i) <==> in_era(d, EraType::Warm, i));
        let mut k: usize = 0;
        while k < hot.len()
            invariant
                k <= hot@.len(),
                d == self@,
                forall|i: u64| hot@.contains(i) <==> in_era(d, EraType::Hot, i),
                ints@.map_values(|b: Interval| b@) == Map::new(
                    |i: u64| hot@.subrange(0, k as int).contains(i) && d.intervals.contains_key(i),
                    |i: u64| d.intervals[i],
                ),
                subs@.map_values(|b: SubInterval| b@) == Map::new(
                    |s: u64| d.subintervals.contains_key(s) && listed_sub(d, hot@.subrange(0, k as int), s),
                    |s: u64| d.subintervals[s],
                ),
            decreases hot@.len() - k,
        {
            let i = hot[k];
            let ghost pre = hot@.subrange(0, k as int);
            let ghost next = hot@.subrange(0, k + 1);
            proof { lemma_prefix_step(hot@, k as int); }
            match self.intervals.get(&i) {
                Some(b) => {
                    assert(self.intervals@.contains_key(i) && self.intervals@[i] == *b);
                    assert(d.intervals.contains_key(i) && d.intervals[i] == b@);
                    let copy = b.duplicate();
                    let ghost before = ints@.map_values(|b: Interval| b@);
                    ints.insert(i, copy);
                    assert(ints@.map_values(|b: Interval| b@) =~= before.insert(i, d.intervals[i]));
                    assert(ints@.map_values(|b: Interval| b@) =~= Map::new(
                        |x: u64| next.contains(x) && d.intervals.contains_key(x),
                        |x: u64| d.intervals[x],
                    ));
                    let mut j: usize = 0;
                    while j < b.content.len()
                        invariant
                            j <= b.content@.len(),
                            d == self@,
                            d.intervals.contains_key(i),
                            b@ == d.intervals[i],
                            subs@.map_values(|b: SubInterval| b@) == Map::new(
                                |s: u64|
                                    d.subintervals.contains_key(s) && (listed_sub(d, pre, s)
                                        || b.content@.subrange(0, j as int).contains(s)),
                                |s: u64| d.subintervals[s],
                            ),
                        decreases b.content@.len() - j,
                    {
                        let s = b.content[j];
                        proof { lemma_prefix_step(b.content@, j as int); }
                        let ghost before = subs@.map_values(|b: SubInterval| b@);
                        match self.subintervals.get(&s) {
                            Some(sb) => {
                                assert(self.subintervals@.contains_key(s) && self.subintervals@[s] == *sb);
                                assert(d.subintervals.contains_key(s) && d.subintervals[s] == sb@);
                                let fresh = SubInterval { checksum: sb.checksum, content: copy_entries(&sb.content) };
                                subs.insert(s, fresh);
                                assert(subs@.map_values(|b: SubInterval| b@) =~= before.insert(
                                    s,
                                    d.subintervals[s],
                                ));
                            },
                            None => {},
                        }
                        j = j + 1;
                        assert(subs@.map_values(|b: SubInterval| b@) =~= Map::new(
                            |x: u64|
                                d.subintervals.contains_key(x) && (listed_sub(d, pre, x)
                                    || b.content@.subrange(0, j as int).contains(x)),
                            |x: u64| d.subintervals[x],
                        ));
                    }
                    assert(b.content@.subrange(0, j as int) =~= b.content@);
                    proof { lemma_prefix_step(hot@, k as int); }
                    assert forall|x: u64| #[trigger] listed_sub(d, next, x) <==> (listed_sub(d, pre, x)
                        || b.content@.contains(x)) by {
                        if listed_sub(d, next, x) {
                            let y = choose|y: u64|
                                next.contains(y) && d.intervals.contains_key(y)
                                    && #[trigger] d.intervals[y].content.contains(x);
                            if y != i {
                                assert(pre.contains(y));
                            }
                        }
                        if listed_sub(d, pre, x) {
                            let y = choose|y: u64|
                                pre.contains(y) && d.intervals.contains_key(y)
                                    && #[trigger] d.intervals[y].content.contains(x);
                            assert(next.contains(y));
                        }
                        if b.content@.contains(x) {
                            assert(next.contains(i) && d.intervals[i].content.contains(x));
                        }
                    }
                    assert(subs@.map_values(|b: SubInterval| b@) =~= Map::new(
                        |x: u64| d.subintervals.contains_key(x) && listed_sub(d, next, x),
                        |x: u64| d.subintervals[x],
                    ));
                },
                None => {
                    assert(ints@.map_values(|b: Interval| b@) =~= Map::new(
                        |x: u64| next.contains(x) && d.intervals.contains_key(x),
                        |x: u64| d.intervals[x],
                    ));
                    assert forall|x: u64| #[trigger] listed_sub(d, next, x) <==> listed_sub(d, pre, x) by {
                        if listed_sub(d, next, x) {
                            let y = choose|y: u64|
                                next.contains(y) && d.intervals.contains_key(y)
                                    && #[trigger] d.intervals[y].content.contains(x);
                            assert(pre.contains(y));
                        }
                        if listed_sub(d, pre, x) {
                            let y = choose|y: u64|
                                pre.contains(y) && d.intervals.contains_key(y)
                                    && #[trigger] d.intervals[y].content.contains(x);
                            assert(next.contains(y));
                        }
                    }
                    assert(subs@.map_values(|b: SubInterval| b@) =~= Map::new(
                        |x: u64| d.subintervals.contains_key(x) && listed_sub(d, next, x),
                        |x: u64| d.subintervals[x],
                    ));
                },
            }
            k = k + 1;
        }
        assert(hot@.subrange(0, k as int) =~= hot@);
        let mut k: usize = 0;
        while k < warm.len()
            invariant
                k <= warm@.len(),
                d == self@,
                forall|i: u64| hot@.contains(i) <==> in_era(d, EraType::Hot, i),
                forall|i: u64| warm@.contains(i) <==> in_era(d, EraType::Warm, i),
                ints@.map_values(|b: Interval| b@) == Map::new(
                    |i: u64| (hot@.contains(i) || warm@.subrange(0, k as int).contains(i)) && d.intervals.contains_key(i),
                    |i: u64| if warm@.subrange(0, k as int).contains(i) {
                        BucketView { checksum: d.intervals[i].checksum, content: Seq::empty() }
                    } else {
                        d.intervals[i]
                    },
                ),
            decreases warm@.len() - k,
        {
            let i = warm[k];
            let ghost pre = warm@.subrange(0, k as int);
            let ghost next = warm@.subrange(0, k + 1);
            proof { lemma_prefix_step(warm@, k as int); }
            let ghost before = ints@.map_values(|b: Interval| b@);
            match self.intervals.get(&i) {
                Some(b) => {
                    assert(self.intervals@.contains_key(i) && self.intervals@[i] == *b);
                    assert(d.intervals.contains_key(i) && d.intervals[i] == b@);
                    let fresh = Interval { checksum: b.checksum, content: Vec::new() };
                    assert(fresh@.content =~= Seq::<u64>::empty());
                    ints.insert(i, fresh);
                    assert(ints@.map_values(|b: Interval| b@) =~= before.insert(
                        i,
                        BucketView { checksum: d.intervals[i].checksum, content: Seq::empty() },
                    ));
                },
                None => {},
            }
            k = k + 1;
            assert(ints@.map_values(|b: Interval| b@) =~= Map::new(
                |x: u64| (hot@.contains(x) || warm@.subrange(0, k as int).contains(x)) && d.intervals.contains_key(x),
                |x: u64| if warm@.subrange(0, k as int).contains(x) {
                    BucketView { checksum: d.intervals[x].checksum, content: Seq::empty() }
                } else {
                    d.intervals[x]
                },
            ));
        }
        assert(warm@.subrange(0, k as int) =~= warm@);
        let mut eras = Eras { hot: None, warm: None, cold: None };
        if let Some(b) = self.eras.get(EraType::Hot) {
            eras.hot = Some(b.duplicate());
        }
        if let Some(b) = self.eras.get(EraType::Warm) {
            eras.warm = Some(b.duplicate());
        }
        if let Some(b) = self.eras.get(EraType::Cold) {
            eras.cold = Some(Interval { checksum: b.checksum, content: Vec::new() });
        }
        let r = Digest {
            timestamp: self.timestamp,
            config: self.config,
            checksum: self.checksum,
            eras,
            intervals: ints,
            subintervals: subs,
        };
        assert(r@.eras =~= compressed_eras(d));
        assert(r@.intervals =~= compressed_intervals(d));
        assert(r@.subintervals =~= compressed_subs(d));
        r
    }
}

} // verus!

verus! {

/// `(id, checksum)` for each listed interval that exists, in list order.
pub open spec fn interval_pairs(ids: Seq<u64>, ints: Map<u64, BucketView>) -> Seq<(u64, u64)>
    decreases ids.len(),
{
    if ids.len() == 0 {
        Seq::empty()
    } else if ints.contains_key(ids.last()) {
        interval_pairs(ids.drop_last(), ints).push((ids.last(), ints[ids.last()].checksum))
    } else {
        interval_pairs(ids.drop_last(), ints)
    }
}

/// `(id, checksum)` for each listed subinterval that exists, in list order.
pub open spec fn sub_pairs(ids: Seq<u64>, subs: Map<u64, SubView>) -> Seq<(u64, u64)>
    decreases ids.len(),
{
    if ids.len() == 0 {
        Seq::empty()
    } else if subs.contains_key(ids.last()) {
        sub_pairs(ids.drop_last(), subs).push((ids.last(), subs[ids.last()].checksum))
    } else {
        sub_pairs(ids.drop_last(), subs)
    }
}

/// The subintervals, with checksums, of each listed interval that exists.
pub open spec fn interval_content(d: DigestView, ids: Seq<u64>) -> Seq<(u64, u64)>
    decreases ids.len(),
{
    if ids.len() == 0 {
        Seq::empty()
    } else if d.intervals.contains_key(ids.last()) {
        interval_content(d, ids.drop_last()) + sub_pairs(
            d.intervals[ids.last()].content,
            d.subintervals,
        )
    } else {
        interval_content(d, ids.drop_last())
    }
}

/// The listed subintervals that exist, in list order.
pub open spec fn present_subs(ids: Seq<u64>, subs: Map<u64, SubView>) -> Seq<u64>
    decreases ids.len(),
{
    if ids.len() == 0 {
        Seq::empty()
    } else if subs.contains_key(ids.last()) {
        present_subs(ids.drop_last(), subs).push(ids.last())
    } else {
        present_subs(ids.drop_last(), subs)
    }
}

/// The entries of `content` that are not in `have`, in order.
pub open spec fn missing(content: Seq<EntryView>, have: Seq<EntryView>) -> Seq<EntryView>
    decreases content.len(),
{
    if content.len() == 0 {
        Seq::empty()
    } else if have.contains(content.last()) {
        missing(content.drop_last(), have)
    } else {
        missing(content.drop_last(), have).push(content.last())
    }
}

/// What we lack of the other side's entries of subinterval `s`: all of
/// them when we have no such subinterval.
pub open spec fn content_diff(d: DigestView, s: u64, content: Seq<EntryView>) -> Seq<EntryView> {
    if d.subintervals.contains_key(s) {
        missing(content, d.subintervals[s].content)
    } else {
        content
    }
}

/// The other side lists interval `k` with a checksum that differs from
/// ours, or we lack it.
pub open spec fn interval_differs(other: Seq<(u64, u64)>, mine: Map<u64, BucketView>, k: u64) -> bool {
    exists|j: int|
        0 <= j < other.len() && #[trigger] other[j].0 == k && (!mine.contains_key(k)
            || mine[k].checksum != other[j].1)
}

/// The other side lists subinterval `k` with a checksum that differs from
/// ours, or we lack it.
pub open spec fn sub_differs(other: Seq<(u64, u64)>, mine: Map<u64, SubView>, k: u64) -> bool {
    exists|j: int|
        0 <= j < other.len() && #[trigger] other[j].0 == k && (!mine.contains_key(k)
            || mine[k].checksum != other[j].1)
}

/// `r` pairs each listed id with the entries of that subinterval.
pub open spec fn lists_contents(r: Seq<(u64, Vec<LogEntry>)>, ids: Seq<u64>, subs: Map<u64, SubView>) -> bool {
    &&& r.len() == ids.len()
    &&& forall|j: int|
        0 <= j < r.len() ==> #[trigger] r[j].0 == ids[j] && entry_views(r[j].1@) == subs[ids[j]].content
}

pub fn contains_entry(v: &Vec<LogEntry>, e: &LogEntry) -> (r: bool)
    ensures
        r == entry_views(v@).contains(e@),
{
    let mut k: usize = 0;
    while k < v.len()
        invariant
            k <= v@.len(),
            forall|j: int| 0 <= j < k ==> v@[j]@ != e@,
        decreases v@.len() - k,
    {
        if v[k].compare(e) == 0 {
            assert(entry_views(v@)[k as int] == e@);
            return true;
        }
        k = k + 1;
    }
    assert forall|j: int| 0 <= j < entry_views(v@).len() implies entry_views(v@)[j] != e@ by {}
    false
}

impl Digest {
    /// Whether the other side's era is one we lack or has another checksum.
    pub fn era_has_diff(&self, era: EraType, other: &Eras) -> (r: bool)
        ensures
            r == (other@.contains_key(era) && (!self@.eras.contains_key(era)
                || other@[era].checksum != self@.eras[era].checksum)),
    {
        match (other.get(era), self.eras.get(era)) {
            (Some(o), Some(m)) => o.checksum != m.checksum,
            (Some(_), None) => true,
            _ => false,
        }
    }

    /// The intervals of an era with their checksums, in increasing order.
    pub fn get_era_content(&self, era: EraType) -> (r: Vec<(u64, u64)>)
        ensures
            self@.eras.contains_key(era) ==> r@ == interval_pairs(
                self@.eras[era].content,
                self@.intervals,
            ),
            !self@.eras.contains_key(era) ==> r@.len() == 0,
    {
        let mut r: Vec<(u64, u64)> = Vec::new();
        let b = match self.eras.get(era) {
            Some(b) => b,
            None => {
                return r;
            },
        };
        let mut k: usize = 0;
        while k < b.content.len()
            invariant
                k <= b.content@.len(),
                r@ == interval_pairs(b.content@.subrange(0, k as int), self@.intervals),
            decreases b.content@.len() - k,
        {
            let i = b.content[k];
            assert(b.content@.subrange(0, k + 1).drop_last() =~= b.content@.subrange(0, k as int));
            match self.intervals.get(&i) {
                Some(iv) => r.push((i, iv.checksum)),
                None => {},
            }
            k = k + 1;
        }
        assert(b.content@.subrange(0, k as int) =~= b.content@);
        r
    }

    /// The subintervals, with their checksums, of the listed intervals.
    pub fn get_interval_content(&self, intervals: &Vec<u64>) -> (r: Vec<(u64, u64)>)
        ensures
            r@ == interval_content(self@, intervals@),
    {
        let mut r: Vec<(u64, u64)> = Vec::new();
        let mut k: usize = 0;
        while k < intervals.len()
            invariant
                k <= intervals@.len(),
                r@ == interval_content(self@, intervals@.subrange(0, k as int)),
            decreases intervals@.len() - k,
        {
            let i = intervals[k];
            assert(intervals@.subrange(0, k + 1).drop_last() =~= intervals@.subrange(0, k as int));
            match self.intervals.get(&i) {
                Some(b) => {
                    let ghost base = r@;
                    let mut j: usize = 0;
                    while j < b.content.len()
                        invariant
                            j <= b.content@.len(),
                            r@ == base + sub_pairs(b.content@.subrange(0, j as int), self@.subintervals),
                        decreases b.content@.len() - j,
                    {
                        let s = b.content[j];
                        assert(b.content@.subrange(0, j + 1).drop_last() =~= b.content@.subrange(0, j as int));
                        match self.subintervals.get(&s) {
                            Some(sb) => {
                                r.push((s, sb.checksum));
                                assert(r@ =~= base + sub_pairs(b.content@.subrange(0, j + 1), self@.subintervals));
                            },
                            None => {},
                        }
                        j = j + 1;
                    }
                    assert(b.content@.subrange(0, j as int) =~= b.content@);
                },
                None => {},
            }
            k = k + 1;
        }
        assert(intervals@.subrange(0, k as int) =~= intervals@);
        r
    }

    /// The entries of each listed subinterval that exists.
    pub fn get_subinterval_content(&self, subintervals: &Vec<u64>) -> (r: Vec<(u64, Vec<LogEntry>)>)
        ensures
            lists_contents(r@, present_subs(subintervals@, self@.subintervals), self@.subintervals),
    {
        let mut r: Vec<(u64, Vec<LogEntry>)> = Vec::new();
        let mut k: usize = 0;
        while k < subintervals.len()
            invariant
                k <= subintervals@.len(),
                lists_contents(r@, present_subs(subintervals@.subrange(0, k as int), self@.subintervals), self@.subintervals),
            decreases subintervals@.len() - k,
        {
            let s = subintervals[k];
            assert(subintervals@.subrange(0, k + 1).drop_last() =~= subintervals@.subrange(0, k as int));
            match self.subintervals.get(&s) {
                Some(b) => {
                    r.push((s, copy_entries(&b.content)));
                },
                None => {},
            }
            k = k + 1;
        }
        assert(subintervals@.subrange(0, k as int) =~= subintervals@);
        r
    }

    /// The intervals the other side lists with a checksum that differs
    /// from ours, or that we lack; increasing.
    pub fn get_interval_diff(&self, other_intervals: &Vec<(u64, u64)>) -> (r: Vec<u64>)
        ensures
            increasing(r@),
            forall|k: u64|
                r@.contains(k) <==> interval_differs(other_intervals@, self@.intervals, k),
    {
        let mut r: Vec<u64> = Vec::new();
        let mut j: usize = 0;
        while j < other_intervals.len()
            invariant
                j <= other_intervals@.len(),
                increasing(r@),
                forall|k: u64|
                    r@.contains(k) <==> interval_differs(other_intervals@.subrange(0, j as int), self@.intervals, k),
            decreases other_intervals@.len() - j,
        {
            let (key, sum) = other_intervals[j];
            let ghost pre = other_intervals@.subrange(0, j as int);
            let ghost next = other_intervals@.subrange(0, j + 1);
            let miss = match self.intervals.get(&key) {
                Some(b) => b.checksum != sum,
                None => true,
            };
            assert(miss == (!self@.intervals.contains_key(key) || self@.intervals[key].checksum != sum));
            assert(next[j as int] == (key, sum));
            let ghost old_r = r@;
            if miss {
                insert_id(&mut r, key);
            }
            assert(forall|k: u64| r@.contains(k) <==> old_r.contains(k) || (miss && k == key));
            assert forall|k: u64| r@.contains(k) <==> interval_differs(next, self@.intervals, k) by {
                if interval_differs(next, self@.intervals, k) {
                    let jj = choose|jj: int| 0 <= jj < next.len() && #[trigger] next[jj].0 == k && (
                    !self@.intervals.contains_key(k) || self@.intervals[k].checksum != next[jj].1);
                    if jj < j {
                        assert(pre[jj].0 == k);
                    }
                }
                if interval_differs(pre, self@.intervals, k) {
                    let jj = choose|jj: int| 0 <= jj < pre.len() && #[trigger] pre[jj].0 == k && (
                    !self@.intervals.contains_key(k) || self@.intervals[k].checksum != pre[jj].1);
                    assert(next[jj].0 == k);
                }
                if miss && k == key {
                    assert(next[j as int].0 == k);
                }
            }
            j = j + 1;
        }
        assert(other_intervals@.subrange(0, j as int) =~= other_intervals@);
        r
    }

    /// The subintervals the other side lists with a checksum that differs
    /// from ours, or that we lack; increasing.
    pub fn get_subinterval_diff(&self, other_subintervals: &Vec<(u64, u64)>) -> (r: Vec<u64>)
        ensures
            increasing(r@),
            forall|k: u64|
                r@.contains(k) <==> sub_differs(other_subintervals@, self@.subintervals, k),
    {
        let mut r: Vec<u64> = Vec::new();
        let mut j: usize = 0;
        while j < other_subintervals.len()
            invariant
                j <= other_subintervals@.len(),
                increasing(r@),
                forall|k: u64|
                    r@.contains(k) <==> sub_differs(other_subintervals@.subrange(0, j as int), self@.subintervals, k),
            decreases other_subintervals@.len() - j,
        {
            let (key, sum) = other_subintervals[j];
            let ghost pre = other_subintervals@.subrange(0, j as int);
            let ghost next = other_subintervals@.subrange(0, j + 1);
            let miss = match self.subintervals.get(&key) {
                Some(b) => b.checksum != sum,
                None => true,
            };
            assert(miss == (!self@.subintervals.contains_key(key) || self@.subintervals[key].checksum != sum));
            assert(next[j as int] == (key, sum));
            let ghost old_r = r@;
            if miss {
                insert_id(&mut r, key);
            }
            assert(forall|k: u64| r@.contains(k) <==> old_r.contains(k) || (miss && k == key));
            assert forall|k: u64| r@.contains(k) <==> sub_differs(next, self@.subintervals, k) by {
                if sub_differs(next, self@.subintervals, k) {
                    let jj = choose|jj: int| 0 <= jj < next.len() && #[trigger] next[jj].0 == k && (
                    !self@.subintervals.contains_key(k) || self@.subintervals[k].checksum != next[jj].1);
                    if jj < j {
                        assert(pre[jj].0 == k);
                    }
                }
                if sub_differs(pre, self@.subintervals, k) {
                    let jj = choose|jj: int| 0 <= jj < pre.len() && #[trigger] pre[jj].0 == k && (
                    !self@.subintervals.contains_key(k) || self@.subintervals[k].checksum != pre[jj].1);
                    assert(next[jj].0 == k);
                }
                if miss && k == key {
                    assert(next[j as int].0 == k);
                }
            }
            j = j + 1;
        }
        assert(other_subintervals@.subrange(0, j as int) =~= other_subintervals@);
        r
    }

    /// The entries of the other side's subinterval that we lack.
    pub fn get_content_diff(&self, subinterval: u64, content: Vec<LogEntry>) -> (r: Vec<LogEntry>)
        ensures
            entry_views(r@) == content_diff(self@, subinterval, entry_views(content@)),
    {
        let sub = match self.subintervals.get(&subinterval) {
            Some(sub) => sub,
            None => {
                return content;
            },
        };
        let ghost have = self@.subintervals[subinterval].content;
        let ghost cv = entry_views(content@);
        let mut r: Vec<LogEntry> = Vec::new();
        let mut k: usize = 0;
        while k < content.len()
            invariant
                k <= content@.len(),
                have == entry_views(sub.content@),
                cv == entry_views(content@),
                entry_views(r@) == missing(cv.subrange(0, k as int), have),
            decreases content@.len() - k,
        {
            assert(cv.subrange(0, k + 1).drop_last() =~= cv.subrange(0, k as int));
            if !contains_entry(&sub.content, &content[k]) {
                let ghost before = r@;
                r.push(content[k].duplicate());
                assert(entry_views(r@) =~= entry_views(before).push(cv[k as int]));
            }
            k = k + 1;
        }
        assert(cv.subrange(0, k as int) =~= cv);
        r
    }
}

/// The entries we lack of each of the other side's subintervals, in the
/// order the subintervals are listed.
pub open spec fn full_content_diff(d: DigestView, other: Seq<(u64, Seq<EntryView>)>) -> Seq<EntryView>
    decreases other.len(),
{
    if other.len() == 0 {
        Seq::empty()
    } else {
        full_content_diff(d, other.drop_last()) + content_diff(d, other.last().0, other.last().1)
    }
}

/// The views of a list of subintervals with their entries.
pub open spec fn listing_views(v: Seq<(u64, Vec<LogEntry>)>) -> Seq<(u64, Seq<EntryView>)> {
    v.map_values(|p: (u64, Vec<LogEntry>)| (p.0, entry_views(p.1@)))
}

impl Digest {
    /// The entries we lack of each of the other side's subintervals.
    pub fn get_full_content_diff(&self, other_subintervals: Vec<(u64, Vec<LogEntry>)>) -> (r: Vec<LogEntry>)
        ensures
            entry_views(r@) == full_content_diff(self@, listing_views(other_subintervals@)),
    {
        let ghost lv = listing_views(other_subintervals@);
        let mut r: Vec<LogEntry> = Vec::new();
        let mut k: usize = 0;
        while k < other_subintervals.len()
            invariant
                k <= other_subintervals@.len(),
                lv == listing_views(other_subintervals@),
                entry_views(r@) == full_content_diff(self@, lv.subrange(0, k as int)),
            decreases other_subintervals@.len() - k,
        {
            assert(lv.subrange(0, k + 1).drop_last() =~= lv.subrange(0, k as int));
            let (sub, content) = (other_subintervals[k].0, copy_entries(&other_subintervals[k].1));
            let mut more = self.get_content_diff(sub, content);
            let ghost before = r@;
            let ghost extra = more@;
            r.append(&mut more);
            assert(entry_views(r@) =~= entry_views(before) + entry_views(extra));
            k = k + 1;
        }
        assert(lv.subrange(0, k as int) =~= lv);
        r
    }
}

} // verus!
