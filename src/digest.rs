//! The replica digest: a three-level, time-bucketed summary of a
//! replica's log, with checksums at every level.
//!
//! Entries fall into subintervals of `delta / sub_intervals` milliseconds,
//! subintervals into intervals of `sub_intervals` subintervals, and
//! intervals into one of three eras according to their distance from the
//! latest interval.

use crate::entry::{entry_text, millis_of, EntryView, LogEntry, Timestamp};
use crate::sorted::{entries_increasing, entry_views, increasing};
use crate::text::decimal;
use crate::trusted::crc64_ecma;
use std::collections::HashMap;
use vstd::prelude::*;

verus! {

/// Age class of an interval.
#[derive(Clone, Copy, Debug, PartialEq, Eq, Hash, Structural)]
pub enum EraType {
    Hot,
    Warm,
    Cold,
}

/// Bucketing parameters: `delta` is the length of an interval in
/// milliseconds, split into `sub_intervals` subintervals; the `hot` most
/// recent intervals form the hot era, the `warm` before them the warm era.
#[derive(Clone, Copy, Debug, PartialEq, Eq, Structural)]
pub struct DigestConfig {
    pub delta: u64,
    pub sub_intervals: u64,
    pub hot: u64,
    pub warm: u64,
}

/// A bucket of child ids (subintervals of an interval, or intervals of an
/// era), in increasing order, with its checksum.
#[derive(Clone, Debug, PartialEq, Eq)]
pub struct Interval {
    pub checksum: u64,
    pub content: Vec<u64>,
}

/// The log entries of one subinterval, in log order, with their checksum.
#[derive(Clone, Debug, PartialEq, Eq)]
pub struct SubInterval {
    pub checksum: u64,
    pub content: Vec<LogEntry>,
}

/// The era buckets of a digest; an absent era has no interval.
#[derive(Clone, Debug, PartialEq, Eq)]
pub struct Eras {
    pub hot: Option<Interval>,
    pub warm: Option<Interval>,
    pub cold: Option<Interval>,
}

/// The summary of a replica's log.
#[derive(Clone, Debug, PartialEq, Eq)]
pub struct Digest {
    pub timestamp: Timestamp,
    pub config: DigestConfig,
    pub checksum: u64,
    pub eras: Eras,
    pub intervals: HashMap<u64, Interval>,
    pub subintervals: HashMap<u64, SubInterval>,
}

pub struct BucketView {
    pub checksum: u64,
    pub content: Seq<u64>,
}

pub struct SubView {
    pub checksum: u64,
    pub content: Seq<EntryView>,
}

pub struct DigestView {
    pub timestamp: Timestamp,
    pub config: DigestConfig,
    pub checksum: u64,
    pub eras: Map<EraType, BucketView>,
    pub intervals: Map<u64, BucketView>,
    pub subintervals: Map<u64, SubView>,
}

impl View for Interval {
    type V = BucketView;

    open spec fn view(&self) -> BucketView {
        BucketView { checksum: self.checksum, content: self.content@ }
    }
}

impl View for SubInterval {
    type V = SubView;

    open spec fn view(&self) -> SubView {
        SubView { checksum: self.checksum, content: entry_views(self.content@) }
    }
}

impl Eras {
    pub open spec fn slot(&self, era: EraType) -> Option<Interval> {
        match era {
            EraType::Hot => self.hot,
            EraType::Warm => self.warm,
            EraType::Cold => self.cold,
        }
    }
}

impl View for Eras {
    type V = Map<EraType, BucketView>;

    open spec fn view(&self) -> Map<EraType, BucketView> {
        Map::new(|e: EraType| self.slot(e) is Some, |e: EraType| self.slot(e)->Some_0@)
    }
}

impl View for Digest {
    type V = DigestView;

    open spec fn view(&self) -> DigestView {
        DigestView {
            timestamp: self.timestamp,
            config: self.config,
            checksum: self.checksum,
            eras: self.eras@,
            intervals: self.intervals@.map_values(|b: Interval| b@),
            subintervals: self.subintervals@.map_values(|b: SubInterval| b@),
        }
    }
}

impl DigestConfig {
    /// Subintervals are at least one millisecond long.
    pub open spec fn valid(self) -> bool {
        self.sub_intervals > 0 && self.delta >= self.sub_intervals
    }

    /// Length of a subinterval in milliseconds.
    pub open spec fn sub_width(self) -> int {
        self.delta as int / self.sub_intervals as int
    }
}

/// The subinterval an entry falls in.
pub open spec fn sub_of(cfg: DigestConfig, e: EntryView) -> u64 {
    (millis_of(e.time) / cfg.sub_width()) as u64
}

/// The interval a subinterval falls in.
pub open spec fn interval_of(cfg: DigestConfig, s: u64) -> u64 {
    (s as int / cfg.sub_intervals as int) as u64
}

/// The era of interval `i` when `latest` is the latest interval: hot when
/// `i > latest - hot`, else warm when `i > latest - hot - warm`, else cold.
pub open spec fn era_of(cfg: DigestConfig, latest: u64, i: u64) -> EraType {
    if i + cfg.hot > latest {
        EraType::Hot
    } else if i + cfg.hot + cfg.warm > latest {
        EraType::Warm
    } else {
        EraType::Cold
    }
}

/// The concatenated texts of a sequence of entries.
pub open spec fn entries_text(s: Seq<EntryView>) -> Seq<u8>
    decreases s.len(),
{
    if s.len() == 0 {
        Seq::empty()
    } else {
        entries_text(s.drop_last()) + entry_text(s.last())
    }
}

/// The concatenated decimal renderings of a sequence of numbers.
pub open spec fn numbers_text(s: Seq<u64>) -> Seq<u8>
    decreases s.len(),
{
    if s.len() == 0 {
        Seq::empty()
    } else {
        numbers_text(s.drop_last()) + decimal(s.last() as nat)
    }
}

/// The checksums of the listed subintervals that exist, in list order.
pub open spec fn sub_sums(ids: Seq<u64>, subs: Map<u64, SubView>) -> Seq<u64>
    decreases ids.len(),
{
    if ids.len() == 0 {
        Seq::empty()
    } else if subs.contains_key(ids.last()) {
        sub_sums(ids.drop_last(), subs).push(subs[ids.last()].checksum)
    } else {
        sub_sums(ids.drop_last(), subs)
    }
}

/// The checksums of the listed intervals that exist, in list order.
pub open spec fn bucket_sums(ids: Seq<u64>, ints: Map<u64, BucketView>) -> Seq<u64>
    decreases ids.len(),
{
    if ids.len() == 0 {
        Seq::empty()
    } else if ints.contains_key(ids.last()) {
        bucket_sums(ids.drop_last(), ints).push(ints[ids.last()].checksum)
    } else {
        bucket_sums(ids.drop_last(), ints)
    }
}

pub open spec fn era_sum(eras: Map<EraType, BucketView>, e: EraType) -> Seq<u64> {
    if eras.contains_key(e) {
        seq![eras[e].checksum]
    } else {
        Seq::empty()
    }
}

/// The era checksums that make up the digest checksum: cold, warm, hot.
pub open spec fn era_sums(eras: Map<EraType, BucketView>) -> Seq<u64> {
    era_sum(eras, EraType::Cold) + era_sum(eras, EraType::Warm) + era_sum(eras, EraType::Hot)
}

/// Checksum of a subinterval's entries.
pub open spec fn sub_checksum(content: Seq<EntryView>) -> u64 {
    crc64_ecma(entries_text(content))
}

/// Checksum of an interval, from the checksums of its subintervals.
pub open spec fn interval_checksum(content: Seq<u64>, subs: Map<u64, SubView>) -> u64 {
    crc64_ecma(numbers_text(sub_sums(content, subs)))
}

/// Checksum of an era, from the checksums of its intervals.
pub open spec fn era_checksum(content: Seq<u64>, ints: Map<u64, BucketView>) -> u64 {
    crc64_ecma(numbers_text(bucket_sums(content, ints)))
}

/// Checksum of a digest, from the checksums of its eras.
pub open spec fn digest_checksum(eras: Map<EraType, BucketView>) -> u64 {
    crc64_ecma(numbers_text(era_sums(eras)))
}

/// Subinterval `s` holds entries of that subinterval, increasing.
pub open spec fn sub_shaped(cfg: DigestConfig, s: u64, b: SubView) -> bool {
    &&& b.content.len() > 0
    &&& entries_increasing(b.content)
    &&& forall|j: int| 0 <= j < b.content.len() ==> sub_of(cfg, #[trigger] b.content[j]) == s
}

/// Interval `i` lists existing subintervals of that interval, increasing.
pub open spec fn interval_shaped(
    cfg: DigestConfig,
    i: u64,
    b: BucketView,
    subs: Map<u64, SubView>,
) -> bool {
    &&& b.content.len() > 0
    &&& increasing(b.content)
    &&& forall|j: int|
        0 <= j < b.content.len() ==> subs.contains_key(#[trigger] b.content[j]) && interval_of(
            cfg,
            b.content[j],
        ) == i
}

/// An era lists existing intervals, increasing.
pub open spec fn era_shaped(b: BucketView, ints: Map<u64, BucketView>) -> bool {
    &&& increasing(b.content)
    &&& forall|j: int| 0 <= j < b.content.len() ==> ints.contains_key(#[trigger] b.content[j])
}

/// The structure of a digest whose checksums are up to date except at
/// the listed subintervals, intervals and eras.
pub open spec fn shaped_except(
    d: DigestView,
    ts: Set<u64>,
    ti: Set<u64>,
    te: Set<EraType>,
) -> bool {
    let cfg = d.config;
    let subs = d.subintervals;
    let ints = d.intervals;
    let eras = d.eras;
    &&& cfg.valid()
    &&& forall|s: u64| #[trigger]
        subs.contains_key(s) ==> sub_shaped(cfg, s, subs[s]) && (!ts.contains(s)
            ==> subs[s].checksum == sub_checksum(subs[s].content)) && (ts.contains(s)
            ==> ti.contains(interval_of(cfg, s)))
    &&& forall|s: u64| #[trigger]
        subs.contains_key(s) ==> ints.contains_key(interval_of(cfg, s)) && ints[interval_of(
            cfg,
            s,
        )].content.contains(s)
    &&& forall|i: u64| #[trigger]
        ints.contains_key(i) ==> interval_shaped(cfg, i, ints[i], subs) && (!ti.contains(i)
            ==> ints[i].checksum == interval_checksum(ints[i].content, subs))
    &&& forall|e: EraType| #[trigger]
        eras.contains_key(e) ==> era_shaped(eras[e], ints) && (!te.contains(e) ==> eras[e].content.len()
            > 0 && eras[e].checksum == era_checksum(eras[e].content, ints))
    &&& forall|i: u64| #[trigger]
        ints.contains_key(i) ==> exists|e: EraType| #[trigger]
            eras.contains_key(e) && eras[e].content.contains(i)
    &&& forall|i: u64, e1: EraType, e2: EraType|
        eras.contains_key(e1) && eras.contains_key(e2) && #[trigger] eras[e1].content.contains(i)
            && #[trigger] eras[e2].content.contains(i) ==> e1 == e2
    &&& forall|i: u64, e: EraType|
        eras.contains_key(e) && #[trigger] eras[e].content.contains(i) && ti.contains(i)
            ==> te.contains(e)
}

/// A digest whose structure and checksums are all consistent.
pub open spec fn well_formed(d: DigestView) -> bool {
    &&& shaped_except(d, Set::empty(), Set::empty(), Set::empty())
    &&& d.checksum == digest_checksum(d.eras)
}

/// The log entries a digest summarises.
pub open spec fn entries_of(d: DigestView) -> Set<EntryView> {
    Set::new(
        |e: EntryView|
            exists|s: u64| #[trigger]
                d.subintervals.contains_key(s) && d.subintervals[s].content.contains(e),
    )
}

/// Every interval sits in the era that `latest` gives it.
pub open spec fn eras_follow(d: DigestView, latest: u64) -> bool {
    forall|i: u64, e: EraType|
        d.eras.contains_key(e) && #[trigger] d.eras[e].content.contains(i) ==> e == era_of(
            d.config,
            latest,
            i,
        )
}

/// Every interval of the cold era is still cold when `latest` is the
/// latest interval.
pub open spec fn cold_stays_cold(d: DigestView, latest: u64) -> bool {
    forall|i: u64|
        d.eras.contains_key(EraType::Cold) && #[trigger] d.eras[EraType::Cold].content.contains(i)
            ==> era_of(d.config, latest, i) == EraType::Cold
}

/// The intervals of the cold era of `d`.
pub open spec fn cold_set(d: DigestView) -> Set<u64> {
    Set::new(|i: u64| d.eras.contains_key(EraType::Cold) && d.eras[EraType::Cold].content.contains(i))
}

/// Every interval of the cold era is cold under `latest`, or is one of
/// `c`.
pub open spec fn cold_within(d: DigestView, latest: u64, c: Set<u64>) -> bool {
    forall|i: u64|
        d.eras.contains_key(EraType::Cold) && #[trigger] d.eras[EraType::Cold].content.contains(i)
            ==> era_of(d.config, latest, i) == EraType::Cold || c.contains(i)
}

/// Every interval sits in the era that `latest` gives it, but the
/// intervals of `c` that stayed in the cold era.
pub open spec fn eras_follow_except(d: DigestView, latest: u64, c: Set<u64>) -> bool {
    forall|i: u64, e: EraType|
        d.eras.contains_key(e) && #[trigger] d.eras[e].content.contains(i) ==> e == era_of(d.config, latest, i)
            || (e == EraType::Cold && c.contains(i))
}

/// `d` is the digest of the entry set `entries` under `cfg`, with eras
/// taken relative to the interval `latest`.
pub open spec fn digest_of(d: DigestView, cfg: DigestConfig, latest: u64, entries: Set<EntryView>) -> bool {
    &&& well_formed(d)
    &&& d.config == cfg
    &&& entries_of(d) == entries
    &&& eras_follow(d, latest)
}

} // verus!

verus! {

broadcast use vstd::std_specs::hash::group_hash_axioms;

impl DigestView {
    pub open spec fn with_subs(self, m: Map<u64, SubView>) -> DigestView {
        DigestView { subintervals: m, ..self }
    }

    pub open spec fn with_ints(self, m: Map<u64, BucketView>) -> DigestView {
        DigestView { intervals: m, ..self }
    }

    pub open spec fn with_eras(self, m: Map<EraType, BucketView>) -> DigestView {
        DigestView { eras: m, ..self }
    }
}

impl Eras {
    /// The bucket of `era`, if it has one.
    pub fn get(&self, era: EraType) -> (r: Option<&Interval>)
        ensures
            r matches Some(b) ==> self@.contains_key(era) && b@ == self@[era],
            r is None ==> !self@.contains_key(era),
    {
        match era {
            EraType::Hot => self.hot.as_ref(),
            EraType::Warm => self.warm.as_ref(),
            EraType::Cold => self.cold.as_ref(),
        }
    }

    fn take(&mut self, era: EraType) -> (r: Option<Interval>)
        ensures
            final(self)@ == old(self)@.remove(era),
            r matches Some(b) ==> old(self)@.contains_key(era) && b@ == old(self)@[era],
            r is None ==> !old(self)@.contains_key(era),
    {
        let r = match era {
            EraType::Hot => self.hot.take(),
            EraType::Warm => self.warm.take(),
            EraType::Cold => self.cold.take(),
        };
        assert(self@ =~= old(self)@.remove(era));
        r
    }

    fn put(&mut self, era: EraType, b: Interval)
        ensures
            final(self)@ == old(self)@.insert(era, b@),
    {
        let ghost bv = b@;
        match era {
            EraType::Hot => self.hot = Some(b),
            EraType::Warm => self.warm = Some(b),
            EraType::Cold => self.cold = Some(b),
        }
        assert(self@ =~= old(self)@.insert(era, bv));
    }
}

impl Digest {
    pub(crate) fn take_sub(&mut self, s: u64) -> (r: Option<SubInterval>)
        ensures
            final(self)@ == old(self)@.with_subs(old(self)@.subintervals.remove(s)),
            r matches Some(b) ==> old(self)@.subintervals.contains_key(s) && b@
                == old(self)@.subintervals[s],
            r is None ==> !old(self)@.subintervals.contains_key(s),
    {
        let r = self.subintervals.remove(&s);
        assert(self@.subintervals =~= old(self)@.subintervals.remove(s));
        r
    }

    pub(crate) fn put_sub(&mut self, s: u64, b: SubInterval)
        ensures
            final(self)@ == old(self)@.with_subs(old(self)@.subintervals.insert(s, b@)),
    {
        let ghost bv = b@;
        self.subintervals.insert(s, b);
        assert(self@.subintervals =~= old(self)@.subintervals.insert(s, bv));
    }

    pub(crate) fn take_interval(&mut self, i: u64) -> (r: Option<Interval>)
        ensures
            final(self)@ == old(self)@.with_ints(old(self)@.intervals.remove(i)),
            r matches Some(b) ==> old(self)@.intervals.contains_key(i) && b@
                == old(self)@.intervals[i],
            r is None ==> !old(self)@.intervals.contains_key(i),
    {
        let r = self.intervals.remove(&i);
        assert(self@.intervals =~= old(self)@.intervals.remove(i));
        r
    }

    pub(crate) fn put_interval(&mut self, i: u64, b: Interval)
        ensures
            final(self)@ == old(self)@.with_ints(old(self)@.intervals.insert(i, b@)),
    {
        let ghost bv = b@;
        self.intervals.insert(i, b);
        assert(self@.intervals =~= old(self)@.intervals.insert(i, bv));
    }

    pub(crate) fn take_era(&mut self, e: EraType) -> (r: Option<Interval>)
        ensures
            final(self)@ == old(self)@.with_eras(old(self)@.eras.remove(e)),
            r matches Some(b) ==> old(self)@.eras.contains_key(e) && b@ == old(self)@.eras[e],
            r is None ==> !old(self)@.eras.contains_key(e),
    {
        self.eras.take(e)
    }

    pub(crate) fn put_era(&mut self, e: EraType, b: Interval)
        ensures
            final(self)@ == old(self)@.with_eras(old(self)@.eras.insert(e, b@)),
    {
        self.eras.put(e, b)
    }
}

/// The subinterval of an entry.
pub fn get_subinterval(config: &DigestConfig, entry: &LogEntry) -> (r: u64)
    requires
        config.valid(),
    ensures
        r == sub_of(*config, entry@),
{
    assert(config.delta / config.sub_intervals > 0) by (nonlinear_arith)
        requires
            config.delta >= config.sub_intervals,
            config.sub_intervals > 0,
    ;
    entry.timestamp.millis() / (config.delta / config.sub_intervals)
}

/// The interval of a subinterval.
pub fn get_interval(config: &DigestConfig, sub: u64) -> (r: u64)
    requires
        config.valid(),
    ensures
        r == interval_of(*config, sub),
{
    sub / config.sub_intervals
}

/// The era of an interval relative to the latest interval.
pub fn get_era(config: &DigestConfig, latest_interval: u64, interval: u64) -> (r: EraType)
    ensures
        r == era_of(*config, latest_interval, interval),
{
    let i = interval as u128;
    if i + config.hot as u128 > latest_interval as u128 {
        EraType::Hot
    } else if i + config.hot as u128 + config.warm as u128 > latest_interval as u128 {
        EraType::Warm
    } else {
        EraType::Cold
    }
}

pub proof fn lemma_sub_sums_frame(ids: Seq<u64>, m1: Map<u64, SubView>, m2: Map<u64, SubView>)
    requires
        forall|k: u64|
            ids.contains(k) ==> (m1.contains_key(k) <==> m2.contains_key(k)) && (m1.contains_key(k)
                ==> m1[k].checksum == m2[k].checksum),
    ensures
        sub_sums(ids, m1) == sub_sums(ids, m2),
    decreases ids.len(),
{
    if ids.len() > 0 {
        assert(ids.contains(ids.last()));
        assert forall|k: u64| ids.drop_last().contains(k) implies (m1.contains_key(k)
            <==> m2.contains_key(k)) && (m1.contains_key(k) ==> m1[k].checksum
            == m2[k].checksum) by {
            let j = choose|j: int| 0 <= j < ids.drop_last().len() && ids.drop_last()[j] == k;
            assert(ids[j] == k);
            assert(ids.contains(k));
        }
        lemma_sub_sums_frame(ids.drop_last(), m1, m2);
    }
}

proof fn lemma_numbers_text_push(s: Seq<u64>, x: u64)
    ensures
        numbers_text(s.push(x)) == numbers_text(s) + decimal(x as nat),
{
    assert(s.push(x).drop_last() =~= s);
}

/// Checksum of the entries of a subinterval.
pub(crate) fn get_subinterval_checksum(content: &Vec<LogEntry>) -> (r: u64)
    ensures
        r == sub_checksum(entry_views(content@)),
{
    let mut buf: Vec<u8> = Vec::new();
    let ghost views = entry_views(content@);
    let mut k: usize = 0;
    while k < content.len()
        invariant
            k <= content@.len(),
            views == entry_views(content@),
            buf@ == entries_text(views.subrange(0, k as int)),
        decreases content@.len() - k,
    {
        content[k].push_text(&mut buf);
        assert(views.subrange(0, k + 1).drop_last() =~= views.subrange(0, k as int));
        k = k + 1;
    }
    assert(views.subrange(0, k as int) =~= views);
    crate::trusted::crc64(buf.as_slice())
}

/// Checksum of an interval from the checksums of its subintervals.
pub(crate) fn get_interval_checksum(content: &Vec<u64>, subs: &HashMap<u64, SubInterval>) -> (r: u64)
    ensures
        r == interval_checksum(content@, subs@.map_values(|b: SubInterval| b@)),
{
    let ghost m = subs@.map_values(|b: SubInterval| b@);
    let mut buf: Vec<u8> = Vec::new();
    let mut k: usize = 0;
    while k < content.len()
        invariant
            k <= content@.len(),
            m == subs@.map_values(|b: SubInterval| b@),
            buf@ == numbers_text(sub_sums(content@.subrange(0, k as int), m)),
        decreases content@.len() - k,
    {
        let ghost pre = content@.subrange(0, k as int);
        let ghost next = content@.subrange(0, k + 1);
        assert(next.drop_last() =~= pre);
        assert(next.last() == content@[k as int]);
        match subs.get(&content[k]) {
            Some(b) => {
                proof { lemma_numbers_text_push(sub_sums(pre, m), b.checksum); }
                crate::text::push_decimal(b.checksum, &mut buf);
            },
            None => {},
        }
        k = k + 1;
    }
    assert(content@.subrange(0, k as int) =~= content@);
    crate::trusted::crc64(buf.as_slice())
}

/// Checksum of an era from the checksums of its intervals.
pub(crate) fn get_era_checksum(content: &Vec<u64>, ints: &HashMap<u64, Interval>) -> (r: u64)
    ensures
        r == era_checksum(content@, ints@.map_values(|b: Interval| b@)),
{
    let ghost m = ints@.map_values(|b: Interval| b@);
    let mut buf: Vec<u8> = Vec::new();
    let mut k: usize = 0;
    while k < content.len()
        invariant
            k <= content@.len(),
            m == ints@.map_values(|b: Interval| b@),
            buf@ == numbers_text(bucket_sums(content@.subrange(0, k as int), m)),
        decreases content@.len() - k,
    {
        let ghost pre = content@.subrange(0, k as int);
        let ghost next = content@.subrange(0, k + 1);
        assert(next.drop_last() =~= pre);
        assert(next.last() == content@[k as int]);
        match ints.get(&content[k]) {
            Some(b) => {
                proof { lemma_numbers_text_push(bucket_sums(pre, m), b.checksum); }
                crate::text::push_decimal(b.checksum, &mut buf);
            },
            None => {},
        }
        k = k + 1;
    }
    assert(content@.subrange(0, k as int) =~= content@);
    crate::trusted::crc64(buf.as_slice())
}

/// Checksum of a digest from the checksums of its eras.
pub(crate) fn get_digest_checksum(eras: &Eras) -> (r: u64)
    ensures
        r == digest_checksum(eras@),
{
    let mut buf: Vec<u8> = Vec::new();
    let mut sums: Vec<u64> = Vec::new();
    if let Some(b) = eras.get(EraType::Cold) {
        crate::text::push_decimal(b.checksum, &mut buf);
        sums.push(b.checksum);
    }
    if let Some(b) = eras.get(EraType::Warm) {
        crate::text::push_decimal(b.checksum, &mut buf);
        sums.push(b.checksum);
    }
    if let Some(b) = eras.get(EraType::Hot) {
        crate::text::push_decimal(b.checksum, &mut buf);
        sums.push(b.checksum);
    }
    proof {
        let m = eras@;
        assert(sums@ =~= era_sums(m));
        let c = era_sum(m, EraType::Cold);
        let w = era_sum(m, EraType::Warm);
        let h = era_sum(m, EraType::Hot);
        if c.len() > 0 {
            lemma_numbers_text_push(Seq::empty(), c[0]);
            assert(Seq::<u64>::empty().push(c[0]) =~= c);
        }
        assert(numbers_text(c) == numbers_text(Seq::empty()) + (if c.len() > 0 { decimal(c[0] as nat) } else { Seq::empty() }));
        if w.len() > 0 {
            lemma_numbers_text_push(c, w[0]);
            assert(c.push(w[0]) =~= c + w);
        } else {
            assert(c + w =~= c);
        }
        if h.len() > 0 {
            lemma_numbers_text_push(c + w, h[0]);
            assert((c + w).push(h[0]) =~= c + w + h);
        } else {
            assert(c + w + h =~= c + w);
        }
        assert(buf@ =~= numbers_text(sums@));
    }
    crate::trusted::crc64(buf.as_slice())
}

} // verus!

verus! {

/// The era a lower-case name stands for (its UTF-8 bytes): `hot`, `warm`,
/// and anything else, `cold` included, for the cold era.
pub open spec fn era_named(b: Seq<u8>) -> EraType {
    if b == seq![104u8, 111u8, 116u8] {
        EraType::Hot
    } else if b == seq![119u8, 97u8, 114u8, 109u8] {
        EraType::Warm
    } else {
        EraType::Cold
    }
}

fn bytes_equal(a: &[u8], b: &Vec<u8>) -> (r: bool)
    ensures
        r == (a@ == b@),
{
    if a.len() != b.len() {
        return false;
    }
    let mut k: usize = 0;
    while k < a.len()
        invariant
            k <= a@.len(),
            a@.len() == b@.len(),
            forall|j: int| 0 <= j < k ==> a@[j] == b@[j],
        decreases a@.len() - k,
    {
        if a[k] != b[k] {
            return false;
        }
        k = k + 1;
    }
    assert(a@ =~= b@);
    true
}

/// The era named by an already lower-case name.
pub fn era_from_lowercase(name: &str) -> (r: EraType)
    ensures
        r == era_named(vstd::utf8::encode_utf8(name@)),
{
    let b = name.as_bytes();
    let hot: Vec<u8> = vec![104u8, 111u8, 116u8];
    let warm: Vec<u8> = vec![119u8, 97u8, 114u8, 109u8];
    assert(hot@ =~= seq![104u8, 111u8, 116u8]);
    assert(warm@ =~= seq![119u8, 97u8, 114u8, 109u8]);
    if bytes_equal(b, &hot) {
        EraType::Hot
    } else if bytes_equal(b, &warm) {
        EraType::Warm
    } else {
        EraType::Cold
    }
}

impl EraType {
    /// Parses an era name in any case; a name that is not `hot` or `warm`
    /// stands for the cold era.
    pub fn from_str(s: &str) -> (r: EraType)
        ensures
            r == era_named(vstd::utf8::encode_utf8(crate::trusted::lowercase_of(s@))),
    {
        let lower = crate::trusted::lowercase(s);
        era_from_lowercase(lower.as_str())
    }
}

} // verus!
