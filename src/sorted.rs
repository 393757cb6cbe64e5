//! Strictly increasing vectors used as ordered sets.

use crate::entry::{
    entry_lt, lemma_entry_lt_asymmetric, lemma_entry_lt_irreflexive, lemma_entry_lt_total,
    lemma_entry_lt_transitive, EntryView, LogEntry,
};
use vstd::prelude::*;

verus! {

/// Each element is strictly smaller than the next.
pub open spec fn increasing(s: Seq<u64>) -> bool {
    forall|a: int, b: int| 0 <= a < b < s.len() ==> s[a] < s[b]
}

/// Each entry comes strictly before the next in log order.
pub open spec fn entries_increasing(s: Seq<EntryView>) -> bool {
    forall|a: int, b: int| 0 <= a < b < s.len() ==> entry_lt(s[a], s[b])
}

/// The views of a vector of log entries.
pub open spec fn entry_views(v: Seq<LogEntry>) -> Seq<EntryView> {
    v.map_values(|e: LogEntry| e@)
}

/// Two increasing sequences with the same elements are equal.
pub proof fn lemma_increasing_unique(a: Seq<u64>, b: Seq<u64>)
    requires
        increasing(a),
        increasing(b),
        forall|x: u64| a.contains(x) <==> b.contains(x),
    ensures
        a == b,
    decreases a.len(),
{
    if a.len() == 0 {
        if b.len() > 0 {
            assert(b.contains(b[0]));
        }
        assert(a =~= b);
    } else if b.len() == 0 {
        assert(a.contains(a[0]));
    } else {
        assert(a.contains(a[0]));
        assert(b.contains(b[0]));
        let ia = choose|k: int| 0 <= k < a.len() && a[k] == b[0];
        let ib = choose|k: int| 0 <= k < b.len() && b[k] == a[0];
        assert(a[0] == b[0]) by {
            if a[0] < b[0] {
                assert(b[ib] == a[0]);
                assert(ib == 0 || b[0] < b[ib]);
            } else if a[0] > b[0] {
                assert(a[ia] == b[0]);
                assert(ia == 0 || a[0] < a[ia]);
            }
        }
        let a1 = a.drop_first();
        let b1 = b.drop_first();
        assert forall|x: u64| a1.contains(x) <==> b1.contains(x) by {
            if a1.contains(x) {
                let k = choose|k: int| 0 <= k < a1.len() && a1[k] == x;
                assert(a[k + 1] == x);
                assert(b.contains(x));
                let j = choose|j: int| 0 <= j < b.len() && b[j] == x;
                assert(j != 0);
                assert(b1[j - 1] == x);
            }
            if b1.contains(x) {
                let k = choose|k: int| 0 <= k < b1.len() && b1[k] == x;
                assert(b[k + 1] == x);
                assert(a.contains(x));
                let j = choose|j: int| 0 <= j < a.len() && a[j] == x;
                assert(j != 0);
                assert(a1[j - 1] == x);
            }
        }
        lemma_increasing_unique(a1, b1);
        assert(a =~= seq![a[0]] + a1);
        assert(b =~= seq![b[0]] + b1);
    }
}

/// Two sequences increasing in log order with the same entries are equal.
pub proof fn lemma_entries_increasing_unique(a: Seq<EntryView>, b: Seq<EntryView>)
    requires
        entries_increasing(a),
        entries_increasing(b),
        forall|x: EntryView| a.contains(x) <==> b.contains(x),
    ensures
        a == b,
    decreases a.len(),
{
    if a.len() == 0 {
        if b.len() > 0 {
            assert(b.contains(b[0]));
        }
        assert(a =~= b);
    } else if b.len() == 0 {
        assert(a.contains(a[0]));
    } else {
        assert(a.contains(a[0]));
        assert(b.contains(b[0]));
        let ia = choose|k: int| 0 <= k < a.len() && a[k] == b[0];
        let ib = choose|k: int| 0 <= k < b.len() && b[k] == a[0];
        assert(a[0] == b[0]) by {
            lemma_entry_lt_total(a[0], b[0]);
            if entry_lt(a[0], b[0]) {
                assert(b[ib] == a[0]);
                if ib != 0 {
                    assert(entry_lt(b[0], b[ib]));
                    lemma_entry_lt_asymmetric(a[0], b[0]);
                }
            } else if entry_lt(b[0], a[0]) {
                assert(a[ia] == b[0]);
                if ia != 0 {
                    assert(entry_lt(a[0], a[ia]));
                    lemma_entry_lt_asymmetric(b[0], a[0]);
                }
            }
        }
        let a1 = a.drop_first();
        let b1 = b.drop_first();
        assert forall|x: EntryView| a1.contains(x) <==> b1.contains(x) by {
            if a1.contains(x) {
                let k = choose|k: int| 0 <= k < a1.len() && a1[k] == x;
                assert(a[k + 1] == x);
                assert(b.contains(x));
                let j = choose|j: int| 0 <= j < b.len() && b[j] == x;
                if j == 0 {
                    assert(entry_lt(a[0], a[k + 1]));
                    lemma_entry_lt_irreflexive(x);
                }
                assert(b1[j - 1] == x);
            }
            if b1.contains(x) {
                let k = choose|k: int| 0 <= k < b1.len() && b1[k] == x;
                assert(b[k + 1] == x);
                assert(a.contains(x));
                let j = choose|j: int| 0 <= j < a.len() && a[j] == x;
                if j == 0 {
                    assert(entry_lt(b[0], b[k + 1]));
                    lemma_entry_lt_irreflexive(x);
                }
                assert(a1[j - 1] == x);
            }
        }
        lemma_entries_increasing_unique(a1, b1);
        assert(a =~= seq![a[0]] + a1);
        assert(b =~= seq![b[0]] + b1);
    }
}

/// Adds `x` to an increasing vector, keeping it increasing.
pub fn insert_id(v: &mut Vec<u64>, x: u64)
    requires
        increasing(old(v)@),
    ensures
        increasing(final(v)@),
        forall|y: u64| final(v)@.contains(y) <==> (old(v)@.contains(y) || y == x),
{
    let mut i: usize = 0;
    while i < v.len() && v[i] < x
        invariant
            0 <= i <= v@.len(),
            v@ == old(v)@,
            forall|k: int| 0 <= k < i ==> v@[k] < x,
        decreases v@.len() - i,
    {
        i = i + 1;
    }
    if i < v.len() && v[i] == x {
        assert(v@[i as int] == x);
        assert(v@.contains(x));
        assert(v@ == old(v)@);
        return;
    }
    let ghost before = v@;
    assert(before == old(v)@);
    assert(i < before.len() ==> x < before[i as int]);
    v.insert(i, x);
    assert forall|a: int, b: int| 0 <= a < b < v@.len() implies v@[a] < v@[b] by {
        if a < i && b > i {
            assert(v@[b] == before[b - 1]);
            assert(before[a] < x);
            assert(b - 1 == i || before[i as int] < before[b - 1]);
        } else if a == i && b > i {
            assert(b - 1 == i || before[i as int] < before[b - 1]);
        }
    }
    assert forall|y: u64| v@.contains(y) <==> (before.contains(y) || y == x) by {
        if v@.contains(y) {
            let k = choose|k: int| 0 <= k < v@.len() && v@[k] == y;
            if k < i {
                assert(before[k] == y);
            } else if k > i {
                assert(before[k - 1] == y);
            }
        }
        if before.contains(y) {
            let k = choose|k: int| 0 <= k < before.len() && before[k] == y;
            if k < i {
                assert(v@[k] == y);
            } else {
                assert(v@[k + 1] == y);
            }
        }
        if y == x {
            assert(v@[i as int] == y);
        }
    }
}

/// Removes `x` from an increasing vector, if it is there.
pub fn remove_id(v: &mut Vec<u64>, x: u64)
    requires
        increasing(old(v)@),
    ensures
        increasing(final(v)@),
        forall|y: u64| final(v)@.contains(y) <==> (old(v)@.contains(y) && y != x),
{
    let mut i: usize = 0;
    while i < v.len() && v[i] != x
        invariant
            0 <= i <= v@.len(),
            v@ == old(v)@,
            forall|k: int| 0 <= k < i ==> v@[k] != x,
        decreases v@.len() - i,
    {
        i = i + 1;
    }
    if i == v.len() {
        return;
    }
    let ghost before = v@;
    v.remove(i);
    assert forall|y: u64| v@.contains(y) <==> (before.contains(y) && y != x) by {
        if v@.contains(y) {
            let k = choose|k: int| 0 <= k < v@.len() && v@[k] == y;
            if k < i {
                assert(before[k] == y);
            } else {
                assert(before[k + 1] == y);
            }
        }
        if before.contains(y) && y != x {
            let k = choose|k: int| 0 <= k < before.len() && before[k] == y;
            if k < i {
                assert(v@[k] == y);
            } else {
                assert(k != i);
                assert(v@[k - 1] == y);
            }
        }
    }
}

impl LogEntry {
    /// A copy of this entry.
    pub fn duplicate(&self) -> (r: LogEntry)
        ensures
            r@ == self@,
    {
        LogEntry { timestamp: self.timestamp, key: self.key.clone() }
    }
}

/// Adds `e` to a vector of entries increasing in log order.
pub fn insert_entry(v: &mut Vec<LogEntry>, e: LogEntry)
    requires
        entries_increasing(entry_views(old(v)@)),
    ensures
        entries_increasing(entry_views(final(v)@)),
        forall|y: EntryView|
            entry_views(final(v)@).contains(y) <==> (entry_views(old(v)@).contains(y) || y
                == e@),
{
    let ghost before = entry_views(v@);
    let mut i: usize = 0;
    while i < v.len() && v[i].compare(&e) < 0
        invariant
            0 <= i <= v@.len(),
            v@ == old(v)@,
            before == entry_views(v@),
            forall|k: int| 0 <= k < i ==> entry_lt(before[k], e@),
        decreases v@.len() - i,
    {
        i = i + 1;
    }
    if i < v.len() && v[i].compare(&e) == 0 {
        assert(before[i as int] == e@);
        return;
    }
    proof {
        if i < v@.len() {
            lemma_entry_lt_total(before[i as int], e@);
        }
    }
    let ghost ev = e@;
    v.insert(i, e);
    let ghost after = entry_views(v@);
    assert(after.len() == before.len() + 1);
    assert forall|k: int| 0 <= k < after.len() implies after[k] == (if k < i {
        before[k]
    } else if k == i {
        ev
    } else {
        before[k - 1]
    }) by {}
    assert forall|a: int, b: int| 0 <= a < b < after.len() implies entry_lt(after[a], after[b]) by {
        if b > i + 1 {
            assert(entry_lt(ev, before[b - 1])) by {
                if b - 1 > i {
                    lemma_entry_lt_transitive(ev, before[i as int], before[b - 1]);
                }
            }
        }
        if a < i && b > i {
            lemma_entry_lt_transitive(before[a], ev, before[b - 1]);
        }
    }
    assert forall|y: EntryView| after.contains(y) <==> (before.contains(y) || y == ev) by {
        if after.contains(y) {
            let k = choose|k: int| 0 <= k < after.len() && after[k] == y;
            if k < i {
                assert(before[k] == y);
            } else if k > i {
                assert(before[k - 1] == y);
            }
        }
        if before.contains(y) {
            let k = choose|k: int| 0 <= k < before.len() && before[k] == y;
            if k < i {
                assert(after[k] == y);
            } else {
                assert(after[k + 1] == y);
            }
        }
        if y == ev {
            assert(after[i as int] == y);
        }
    }
}

/// Removes the entry equal to `e` from a vector of entries increasing in
/// log order, if it is there.
pub fn remove_entry(v: &mut Vec<LogEntry>, e: &LogEntry)
    requires
        entries_increasing(entry_views(old(v)@)),
    ensures
        entries_increasing(entry_views(final(v)@)),
        forall|y: EntryView|
            entry_views(final(v)@).contains(y) <==> (entry_views(old(v)@).contains(y) && y
                != e@),
{
    let ghost before = entry_views(v@);
    let mut i: usize = 0;
    while i < v.len()
        invariant
            0 <= i <= v@.len(),
            v@ == old(v)@,
            before == entry_views(v@),
            forall|k: int| 0 <= k < i ==> before[k] != e@,
        ensures
            0 <= i <= v@.len(),
            v@ == old(v)@,
            forall|k: int| 0 <= k < i ==> before[k] != e@,
            i < v@.len() ==> before[i as int] == e@,
        decreases v@.len() - i,
    {
        if v[i].compare(e) == 0 {
            break;
        }
        i = i + 1;
    }
    if i == v.len() {
        return;
    }
    v.remove(i);
    let ghost after = entry_views(v@);
    assert forall|k: int| 0 <= k < after.len() implies after[k] == (if k < i {
        before[k]
    } else {
        before[k + 1]
    }) by {}
    assert forall|y: EntryView| after.contains(y) <==> (before.contains(y) && y != e@) by {
        if after.contains(y) {
            let k = choose|k: int| 0 <= k < after.len() && after[k] == y;
            if k < i {
                assert(before[k] == y);
            } else {
                assert(before[k + 1] == y);
                assert(entry_lt(before[i as int], before[k + 1]));
                lemma_entry_lt_irreflexive(y);
            }
        }
        if before.contains(y) && y != e@ {
            let k = choose|k: int| 0 <= k < before.len() && before[k] == y;
            if k < i {
                assert(after[k] == y);
            } else {
                assert(k != i);
                assert(after[k - 1] == y);
            }
        }
    }
}

} // verus!
