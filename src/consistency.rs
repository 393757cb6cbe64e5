//! Testing a digest for consistency: every bucket is well shaped, every
//! id it lists exists, every interval sits in exactly one era, and every
//! stored checksum is the checksum of what it summarises.

use crate::digest::{
    era_checksum, era_shaped, get_digest_checksum, get_era_checksum, get_interval,
    get_interval_checksum, get_subinterval, get_subinterval_checksum, interval_checksum,
    interval_of, interval_shaped, shaped_except, sub_checksum, sub_of, sub_shaped, well_formed,
    Digest, DigestView, EraType, digest_checksum,
};
use crate::entry::{entry_lt, lemma_entry_lt_transitive, LogEntry};
use crate::sorted::{entries_increasing, entry_views, increasing};
use std::collections::HashMap;
use vstd::prelude::*;

verus! {

broadcast use vstd::std_specs::hash::group_hash_axioms;

/// The keys of a map, in some order.
pub fn keys_of<V>(m: &HashMap<u64, V>) -> (r: Vec<u64>)
    ensures
        forall|k: u64| r@.contains(k) <==> m@.contains_key(k),
{
    let mut r: Vec<u64> = Vec::new();
    for k in it: m.keys()
        invariant
            forall|j: int| 0 <= j < r@.len() ==> r@[j] == *it.seq()[j],
            r@.len() == it.index(),
            it.seq().unref().to_set() == m@.dom(),
            it.index() == it.seq().len() ==> forall|x: u64| r@.contains(x) <==> m@.contains_key(x),
    {
        r.push(*k);
        assert(r@.len() == it.index() + 1 && r@.len() == it.seq().len() ==> r@ =~= it.seq().unref());
        assert(forall|x: u64| r@.contains(x) <==> #[trigger] r@.to_set().contains(x));
    }
    r
}

fn has_id(v: &Vec<u64>, x: u64) -> (r: bool)
    ensures
        r == v@.contains(x),
{
    let mut k: usize = 0;
    while k < v.len()
        invariant
            k <= v@.len(),
            forall|j: int| 0 <= j < k ==> v@[j] != x,
        decreases v@.len() - k,
    {
        if v[k] == x {
            assert(v@[k as int] == x);
            return true;
        }
        k = k + 1;
    }
    false
}

fn ids_increasing(v: &Vec<u64>) -> (r: bool)
    ensures
        r == increasing(v@),
{
    let mut k: usize = 1;
    if v.len() == 0 {
        return true;
    }
    while k < v.len()
        invariant
            1 <= k <= v@.len(),
            forall|a: int, b: int| 0 <= a < b < k ==> v@[a] < v@[b],
        decreases v@.len() - k,
    {
        if v[k - 1] >= v[k] {
            return false;
        }
        k = k + 1;
    }
    true
}

fn entries_sorted(v: &Vec<LogEntry>) -> (r: bool)
    ensures
        r == entries_increasing(entry_views(v@)),
{
    let ghost e = entry_views(v@);
    if v.len() == 0 {
        return true;
    }
    let mut k: usize = 1;
    while k < v.len()
        invariant
            1 <= k <= v@.len(),
            e == entry_views(v@),
            forall|a: int, b: int| 0 <= a < b < k ==> entry_lt(e[a], e[b]),
        decreases v@.len() - k,
    {
        if v[k - 1].compare(&v[k]) >= 0 {
            assert(!entry_lt(e[k - 1], e[k as int]));
            return false;
        }
        assert forall|a: int, b: int| 0 <= a < b < k + 1 implies entry_lt(e[a], e[b]) by {
            if b == k && a < k - 1 {
                lemma_entry_lt_transitive(e[a], e[k - 1], e[k as int]);
            }
        }
        k = k + 1;
    }
    true
}

/// Interval `i` is in the bucket of era `e`.
pub open spec fn in_era(d: DigestView, e: EraType, i: u64) -> bool {
    d.eras.contains_key(e) && d.eras[e].content.contains(i)
}

/// How many eras list interval `i`.
pub open spec fn era_count(d: DigestView, i: u64) -> int {
    (if in_era(d, EraType::Hot, i) { 1int } else { 0int }) + (if in_era(d, EraType::Warm, i) { 1int } else { 0int })
        + (if in_era(d, EraType::Cold, i) { 1int } else { 0int })
}

/// Subinterval `s` is well shaped, correctly checksummed, and listed by
/// its interval.
pub open spec fn sub_ok(d: DigestView, s: u64) -> bool {
    &&& sub_shaped(d.config, s, d.subintervals[s])
    &&& d.subintervals[s].checksum == sub_checksum(d.subintervals[s].content)
    &&& d.intervals.contains_key(interval_of(d.config, s))
    &&& d.intervals[interval_of(d.config, s)].content.contains(s)
}

/// Interval `i` is well shaped, correctly checksummed, and in exactly one
/// era.
pub open spec fn interval_ok(d: DigestView, i: u64) -> bool {
    &&& interval_shaped(d.config, i, d.intervals[i], d.subintervals)
    &&& d.intervals[i].checksum == interval_checksum(d.intervals[i].content, d.subintervals)
    &&& era_count(d, i) == 1
}

/// The bucket of era `e`, if any, is non-empty, lists existing intervals
/// in increasing order, and is correctly checksummed.
pub open spec fn era_ok(d: DigestView, e: EraType) -> bool {
    d.eras.contains_key(e) ==> {
        &&& era_shaped(d.eras[e], d.intervals)
        &&& d.eras[e].content.len() > 0
        &&& d.eras[e].checksum == era_checksum(d.eras[e].content, d.intervals)
    }
}

proof fn lemma_well_formed_parts(d: DigestView)
    ensures
        well_formed(d) <==> {
            &&& d.config.valid()
            &&& (forall|s: u64| #[trigger] d.subintervals.contains_key(s) ==> sub_ok(d, s))
            &&& (forall|i: u64| #[trigger] d.intervals.contains_key(i) ==> interval_ok(d, i))
            &&& era_ok(d, EraType::Hot)
            &&& era_ok(d, EraType::Warm)
            &&& era_ok(d, EraType::Cold)
            &&& d.checksum == digest_checksum(d.eras)
        },
{
    let parts = d.config.valid() && (forall|s: u64| #[trigger] d.subintervals.contains_key(s) ==> sub_ok(d, s))
        && (forall|i: u64| #[trigger] d.intervals.contains_key(i) ==> interval_ok(d, i))
        && era_ok(d, EraType::Hot) && era_ok(d, EraType::Warm) && era_ok(d, EraType::Cold)
        && d.checksum == digest_checksum(d.eras);
    if well_formed(d) {
        assert(shaped_except(d, Set::empty(), Set::empty(), Set::empty()));
        assert forall|i: u64| #[trigger] d.intervals.contains_key(i) implies interval_ok(d, i) by {
            let e = choose|e: EraType| #[trigger] d.eras.contains_key(e) && d.eras[e].content.contains(i);
            if in_era(d, EraType::Hot, i) && e != EraType::Hot {
                assert(d.eras[EraType::Hot].content.contains(i));
            }
            if in_era(d, EraType::Warm, i) && e != EraType::Warm {
                assert(d.eras[EraType::Warm].content.contains(i));
            }
            if in_era(d, EraType::Cold, i) && e != EraType::Cold {
                assert(d.eras[EraType::Cold].content.contains(i));
            }
            match e {
                EraType::Hot => assert(in_era(d, EraType::Hot, i)),
                EraType::Warm => assert(in_era(d, EraType::Warm, i)),
                EraType::Cold => assert(in_era(d, EraType::Cold, i)),
            }
        }
        assert(era_ok(d, EraType::Hot));
        assert(era_ok(d, EraType::Warm));
        assert(era_ok(d, EraType::Cold));
    }
    if parts {
        assert forall|e: EraType| #[trigger] d.eras.contains_key(e) implies era_shaped(d.eras[e], d.intervals)
            && (!Set::<EraType>::empty().contains(e) ==> d.eras[e].content.len() > 0
            && d.eras[e].checksum == era_checksum(d.eras[e].content, d.intervals)) by {
            match e {
                EraType::Hot => assert(era_ok(d, EraType::Hot)),
                EraType::Warm => assert(era_ok(d, EraType::Warm)),
                EraType::Cold => assert(era_ok(d, EraType::Cold)),
            }
        }
        assert forall|i: u64| #[trigger] d.intervals.contains_key(i) implies exists|e: EraType| #[trigger]
            d.eras.contains_key(e) && d.eras[e].content.contains(i) by {
            assert(interval_ok(d, i));
            if in_era(d, EraType::Hot, i) {
                assert(d.eras.contains_key(EraType::Hot) && d.eras[EraType::Hot].content.contains(i));
            } else if in_era(d, EraType::Warm, i) {
                assert(d.eras.contains_key(EraType::Warm) && d.eras[EraType::Warm].content.contains(i));
            } else {
                assert(d.eras.contains_key(EraType::Cold) && d.eras[EraType::Cold].content.contains(i));
            }
        }
        assert forall|i: u64, e1: EraType, e2: EraType|
            d.eras.contains_key(e1) && d.eras.contains_key(e2) && #[trigger] d.eras[e1].content.contains(i)
                && #[trigger] d.eras[e2].content.contains(i) implies e1 == e2 by {
            assert(era_ok(d, e1));
            let c = d.eras[e1].content;
            let j = choose|j: int| 0 <= j < c.len() && c[j] == i;
            match e1 {
                EraType::Hot => assert(era_ok(d, EraType::Hot)),
                EraType::Warm => assert(era_ok(d, EraType::Warm)),
                EraType::Cold => assert(era_ok(d, EraType::Cold)),
            }
            assert(d.intervals.contains_key(c[j]));
            assert(interval_ok(d, i));
            assert(in_era(d, e1, i) && in_era(d, e2, i));
        }
        assert(shaped_except(d, Set::empty(), Set::empty(), Set::empty()));
    }
}

impl Digest {
    fn check_sub(&self, s: u64) -> (r: bool)
        requires
            self@.subintervals.contains_key(s),
            self@.config.valid(),
        ensures
            r == sub_ok(self@, s),
    {
        let b = match self.subintervals.get(&s) {
            Some(b) => b,
            None => {
                return false;
            },
        };
        assert(b@ == self@.subintervals[s]);
        if b.content.len() == 0 || !entries_sorted(&b.content) {
            return false;
        }
        let mut j: usize = 0;
        while j < b.content.len()
            invariant
                j <= b.content@.len(),
                self@.config.valid(),
                b@ == self@.subintervals[s],
                forall|k: int| 0 <= k < j ==> sub_of(self@.config, #[trigger] entry_views(b.content@)[k]) == s,
            decreases b.content@.len() - j,
        {
            if get_subinterval(&self.config, &b.content[j]) != s {
                assert(sub_of(self@.config, entry_views(b.content@)[j as int]) != s);
                return false;
            }
            j = j + 1;
        }
        if get_subinterval_checksum(&b.content) != b.checksum {
            return false;
        }
        let i = get_interval(&self.config, s);
        match self.intervals.get(&i) {
            Some(ib) => has_id(&ib.content, s),
            None => false,
        }
    }

    fn check_interval(&self, i: u64) -> (r: bool)
        requires
            self@.intervals.contains_key(i),
            self@.config.valid(),
        ensures
            r == interval_ok(self@, i),
    {
        let b = match self.intervals.get(&i) {
            Some(b) => b,
            None => {
                return false;
            },
        };
        assert(b@ == self@.intervals[i]);
        if b.content.len() == 0 || !ids_increasing(&b.content) {
            return false;
        }
        let mut j: usize = 0;
        while j < b.content.len()
            invariant
                j <= b.content@.len(),
                self@.config.valid(),
                b@ == self@.intervals[i],
                forall|k: int| 0 <= k < j ==> self@.subintervals.contains_key(#[trigger] b.content@[k])
                    && interval_of(self@.config, b.content@[k]) == i,
            decreases b.content@.len() - j,
        {
            let m = b.content[j];
            if self.subintervals.get(&m).is_none() || get_interval(&self.config, m) != i {
                return false;
            }
            j = j + 1;
        }
        if get_interval_checksum(&b.content, &self.subintervals) != b.checksum {
            return false;
        }
        let mut count: u8 = 0;
        if let Some(e) = self.eras.get(EraType::Hot) {
            if has_id(&e.content, i) {
                count = count + 1;
            }
        }
        if let Some(e) = self.eras.get(EraType::Warm) {
            if has_id(&e.content, i) {
                count = count + 1;
            }
        }
        if let Some(e) = self.eras.get(EraType::Cold) {
            if has_id(&e.content, i) {
                count = count + 1;
            }
        }
        count == 1
    }

    fn check_era(&self, e: EraType) -> (r: bool)
        ensures
            r == era_ok(self@, e),
    {
        let b = match self.eras.get(e) {
            Some(b) => b,
            None => {
                return true;
            },
        };
        if b.content.len() == 0 || !ids_increasing(&b.content) {
            return false;
        }
        let mut j: usize = 0;
        while j < b.content.len()
            invariant
                j <= b.content@.len(),
                self@.eras.contains_key(e),
                b@ == self@.eras[e],
                forall|k: int| 0 <= k < j ==> self@.intervals.contains_key(#[trigger] b.content@[k]),
            decreases b.content@.len() - j,
        {
            if self.intervals.get(&b.content[j]).is_none() {
                return false;
            }
            j = j + 1;
        }
        get_era_checksum(&b.content, &self.intervals) == b.checksum
    }

    /// Whether this digest is consistent: every bucket well shaped, every
    /// listed id present, every interval in exactly one era, and every
    /// checksum up to date.
    pub fn is_well_formed(&self) -> (r: bool)
        ensures
            r == well_formed(self@),
    {
        proof { lemma_well_formed_parts(self@); }
        if !(self.config.sub_intervals > 0 && self.config.delta >= self.config.sub_intervals) {
            return false;
        }
        let subs = keys_of(&self.subintervals);
        let mut k: usize = 0;
        while k < subs.len()
            invariant
                k <= subs@.len(),
                self@.config.valid(),
                forall|x: u64| subs@.contains(x) <==> self@.subintervals.contains_key(x),
                forall|j: int| 0 <= j < k ==> sub_ok(self@, #[trigger] subs@[j]),
            decreases subs@.len() - k,
        {
            assert(subs@.contains(subs@[k as int]));
            if !self.check_sub(subs[k]) {
                proof { lemma_well_formed_parts(self@); }
                assert(self@.subintervals.contains_key(subs@[k as int]));
                return false;
            }
            k = k + 1;
        }
        assert forall|s: u64| #[trigger] self@.subintervals.contains_key(s) implies sub_ok(self@, s) by {
            assert(subs@.contains(s));
            let j = choose|j: int| 0 <= j < subs@.len() && subs@[j] == s;
        }
        let ints = keys_of(&self.intervals);
        let mut k: usize = 0;
        while k < ints.len()
            invariant
                k <= ints@.len(),
                self@.config.valid(),
                forall|x: u64| ints@.contains(x) <==> self@.intervals.contains_key(x),
                forall|j: int| 0 <= j < k ==> interval_ok(self@, #[trigger] ints@[j]),
            decreases ints@.len() - k,
        {
            assert(ints@.contains(ints@[k as int]));
            if !self.check_interval(ints[k]) {
                proof { lemma_well_formed_parts(self@); }
                assert(self@.intervals.contains_key(ints@[k as int]));
                return false;
            }
            k = k + 1;
        }
        assert forall|i: u64| #[trigger] self@.intervals.contains_key(i) implies interval_ok(self@, i) by {
            assert(ints@.contains(i));
            let j = choose|j: int| 0 <= j < ints@.len() && ints@[j] == i;
        }
        if !self.check_era(EraType::Hot) || !self.check_era(EraType::Warm) || !self.check_era(EraType::Cold) {
            return false;
        }
        get_digest_checksum(&self.eras) == self.checksum
    }
}

} // verus!
