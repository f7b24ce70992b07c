//! The frequency table: each distinct unit with the number of times it
//! occurred.
//!
//! The table is a sequence of unit/count pairs with pairwise distinct units,
//! viewed as a map from the unit's characters to its count. The stored total
//! is the sum of all counts.

use vstd::string::StringExecFns;
use vstd::prelude::*;

verus! {

/// The map a sequence of entries stands for; a later entry would win, but a
/// well-formed table holds each unit once.
pub open spec fn entries_map(s: Seq<(String, usize)>) -> Map<Seq<char>, nat>
    decreases s.len(),
{
    if s.len() == 0 {
        Map::empty()
    } else {
        entries_map(s.drop_last()).insert(s.last().0@, s.last().1 as nat)
    }
}

/// Sum of the counts of a sequence of entries.
pub open spec fn entries_total(s: Seq<(String, usize)>) -> int
    decreases s.len(),
{
    if s.len() == 0 {
        0
    } else {
        entries_total(s.drop_last()) + s.last().1
    }
}

/// No two entries name the same unit.
pub open spec fn distinct_keys(s: Seq<(String, usize)>) -> bool {
    forall|a: int, b: int| 0 <= a < b < s.len() ==> s[a].0@ != s[b].0@
}

/// One more occurrence of `u`: its count grows by one, or starts at one.
pub open spec fn bump(m: Map<Seq<char>, nat>, u: Seq<char>) -> Map<Seq<char>, nat> {
    if m.contains_key(u) {
        m.insert(u, (m[u] + 1) as nat)
    } else {
        m.insert(u, 1 as nat)
    }
}

/// A unit is in the map exactly when some entry names it.
pub proof fn lemma_entries_map_contains(s: Seq<(String, usize)>, k: Seq<char>)
    ensures
        entries_map(s).contains_key(k) <==> exists|i: int| 0 <= i < s.len() && s[i].0@ == k,
    decreases s.len(),
{
    if s.len() == 0 {
    } else {
        lemma_entries_map_contains(s.drop_last(), k);
        if s.last().0@ == k {
            assert(s[s.len() - 1].0@ == k);
        } else if entries_map(s).contains_key(k) {
            let i = choose|i: int| 0 <= i < s.drop_last().len() && s.drop_last()[i].0@ == k;
            assert(s[i].0@ == k);
        } else {
            assert forall|i: int| 0 <= i < s.len() implies s[i].0@ != k by {
                if i < s.len() - 1 {
                    assert(s.drop_last()[i].0@ == s[i].0@);
                }
            }
        }
    }
}

/// With distinct units, the map gives each entry its own count.
pub proof fn lemma_entries_map_value_at(s: Seq<(String, usize)>, i: int)
    requires
        distinct_keys(s),
        0 <= i < s.len(),
    ensures
        entries_map(s).contains_key(s[i].0@),
        entries_map(s)[s[i].0@] == s[i].1 as nat,
    decreases s.len(),
{
    if i == s.len() - 1 {
    } else {
        assert(distinct_keys(s.drop_last())) by {
            assert(forall|a: int, b: int|
                0 <= a < b < s.len() - 1 ==> s.drop_last()[a].0@ == s[a].0@
                    && s.drop_last()[b].0@ == s[b].0@);
        }
        lemma_entries_map_value_at(s.drop_last(), i);
        assert(s.drop_last()[i] == s[i]);
        assert(s[i].0@ != s.last().0@);
    }
}

/// Replacing the entry at `i` by one with the same unit replaces its count in
/// the map.
pub proof fn lemma_entries_map_update(s: Seq<(String, usize)>, i: int, p: (String, usize))
    requires
        distinct_keys(s),
        0 <= i < s.len(),
        p.0@ == s[i].0@,
    ensures
        entries_map(s.update(i, p)) == entries_map(s).insert(p.0@, p.1 as nat),
    decreases s.len(),
{
    let t = s.update(i, p);
    if i == s.len() - 1 {
        assert(t.drop_last() =~= s.drop_last());
        assert(t.last() == p);
        assert(entries_map(s).insert(p.0@, p.1 as nat) =~= entries_map(s.drop_last()).insert(
            p.0@,
            p.1 as nat,
        ));
    } else {
        assert(t.drop_last() =~= s.drop_last().update(i, p));
        assert(t.last() == s.last());
        assert(distinct_keys(s.drop_last())) by {
            assert(forall|a: int, b: int|
                0 <= a < b < s.len() - 1 ==> s.drop_last()[a].0@ == s[a].0@
                    && s.drop_last()[b].0@ == s[b].0@);
        }
        assert(s.drop_last()[i] == s[i]);
        lemma_entries_map_update(s.drop_last(), i, p);
        assert(p.0@ != s.last().0@);
        assert(entries_map(s.drop_last()).insert(p.0@, p.1 as nat).insert(
            s.last().0@,
            s.last().1 as nat,
        ) =~= entries_map(s.drop_last()).insert(s.last().0@, s.last().1 as nat).insert(
            p.0@,
            p.1 as nat,
        ));
    }
}

/// With distinct units the map has exactly one key per entry.
pub proof fn lemma_entries_map_dom(s: Seq<(String, usize)>)
    requires
        distinct_keys(s),
    ensures
        entries_map(s).dom().finite(),
        entries_map(s).dom().len() == s.len(),
    decreases s.len(),
{
    if s.len() == 0 {
        assert(entries_map(s).dom() =~= Set::<Seq<char>>::empty());
    } else {
        assert(distinct_keys(s.drop_last())) by {
            assert(forall|a: int, b: int|
                0 <= a < b < s.len() - 1 ==> s.drop_last()[a].0@ == s[a].0@
                    && s.drop_last()[b].0@ == s[b].0@);
        }
        lemma_entries_map_dom(s.drop_last());
        lemma_entries_map_contains(s.drop_last(), s.last().0@);
        assert forall|i: int| 0 <= i < s.drop_last().len() implies s.drop_last()[i].0@
            != s.last().0@ by {
            assert(s.drop_last()[i].0@ == s[i].0@);
        }
        assert(!entries_map(s.drop_last()).contains_key(s.last().0@));
        assert(entries_map(s).dom() =~= entries_map(s.drop_last()).dom().insert(s.last().0@));
    }
}

/// The sum of counts is never negative.
pub proof fn lemma_entries_total_nonneg(s: Seq<(String, usize)>)
    ensures
        entries_total(s) >= 0,
    decreases s.len(),
{
    if s.len() == 0 {
    } else {
        lemma_entries_total_nonneg(s.drop_last());
    }
}

/// Each count is at most the sum of all counts.
pub proof fn lemma_entries_total_at(s: Seq<(String, usize)>, i: int)
    requires
        0 <= i < s.len(),
    ensures
        s[i].1 <= entries_total(s),
    decreases s.len(),
{
    if i == s.len() - 1 {
        lemma_entries_total_nonneg(s.drop_last());
    } else {
        assert(s.drop_last()[i] == s[i]);
        lemma_entries_total_at(s.drop_last(), i);
    }
}

/// Replacing the entry at `i` changes the sum by the difference of the counts.
pub proof fn lemma_entries_total_update(s: Seq<(String, usize)>, i: int, p: (String, usize))
    requires
        0 <= i < s.len(),
    ensures
        entries_total(s.update(i, p)) == entries_total(s) - s[i].1 + p.1,
    decreases s.len(),
{
    let t = s.update(i, p);
    if i == s.len() - 1 {
        assert(t.drop_last() =~= s.drop_last());
        assert(t.last() == p);
    } else {
        assert(t.drop_last() =~= s.drop_last().update(i, p));
        assert(t.last() == s.last());
        assert(s.drop_last()[i] == s[i]);
        lemma_entries_total_update(s.drop_last(), i, p);
    }
}

/// A frequency table: each distinct observed unit with its occurrence count.
pub struct FrequencyTable {
    /// The unit/count pairs, each unit held once.
    pub entries: Vec<(String, usize)>,
    /// The sum of all counts: how many units were tallied in all.
    pub total: usize,
}

impl View for FrequencyTable {
    type V = Map<Seq<char>, nat>;

    open spec fn view(&self) -> Map<Seq<char>, nat> {
        entries_map(self.entries@)
    }
}

impl FrequencyTable {
    /// Well-formed: units are pairwise distinct, every count is at least one,
    /// and `total` is the sum of all counts.
    pub open spec fn wf(&self) -> bool {
        &&& distinct_keys(self.entries@)
        &&& forall|i: int| 0 <= i < self.entries@.len() ==> self.entries@[i].1 >= 1
        &&& self.total == entries_total(self.entries@)
    }

    /// The empty table.
    pub fn new() -> (t: Self)
        ensures
            t.wf(),
            t@ == Map::<Seq<char>, nat>::empty(),
            t.total == 0,
            t.entries@.len() == 0,
    {
        FrequencyTable { entries: Vec::new(), total: 0 }
    }

    /// Records one more occurrence of `unit`.
    pub fn increment(&mut self, unit: String)
        requires
            old(self).wf(),
            old(self).total < usize::MAX,
        ensures
            final(self).wf(),
            final(self)@ == bump(old(self)@, unit@),
            final(self).total == old(self).total + 1,
    {
        let ghost s0 = self.entries@;
        let n = self.entries.len();
        let mut i: usize = 0;
        while i < n
            invariant
                i <= n,
                *self == *old(self),
                old(self).wf(),
                old(self).total < usize::MAX,
                s0 == self.entries@,
                n == self.entries@.len(),
                forall|j: int| 0 <= j < i ==> self.entries@[j].0@ != unit@,
            decreases n - i,
        {
            if self.entries[i].0 == unit {
                proof {
                    lemma_entries_total_at(s0, i as int);
                }
                let pair = self.entries.remove(i);
                let key = pair.0;
                let cnt = pair.1;
                self.entries.insert(i, (key, cnt + 1));
                self.total = self.total + 1;
                proof {
                    let p = self.entries@[i as int];
                    assert(self.entries@ =~= s0.update(i as int, p));
                    assert(p.0@ == unit@ && p.1 == cnt + 1);
                    lemma_entries_map_update(s0, i as int, p);
                    lemma_entries_map_value_at(s0, i as int);
                    assert(entries_map(s0)[unit@] == cnt as nat);
                    assert(self@ =~= bump(old(self)@, unit@));
                    lemma_entries_total_update(s0, i as int, p);
                    assert(distinct_keys(self.entries@)) by {
                        assert(forall|a: int|
                            0 <= a < s0.len() && a != i ==> self.entries@[a].0@ == s0[a].0@);
                    }
                }
                return;
            }
            i = i + 1;
        }
        proof {
            lemma_entries_map_contains(s0, unit@);
            assert(!old(self)@.contains_key(unit@));
        }
        self.entries.push((unit, 1));
        self.total = self.total + 1;
        proof {
            assert(self.entries@.drop_last() =~= s0);
            assert(self@ == entries_map(s0).insert(self.entries@.last().0@, 1 as nat));
            assert(self@ =~= bump(old(self)@, self.entries@.last().0@));
            assert(distinct_keys(self.entries@)) by {
                assert(forall|a: int| 0 <= a < s0.len() ==> self.entries@[a].0@ == s0[a].0@);
            }
        }
    }

    /// The count recorded for `unit`, or `None` when it was never seen.
    pub fn get(&self, unit: &str) -> (r: Option<usize>)
        requires
            self.wf(),
        ensures
            r matches Some(c) ==> self@.contains_key(unit@) && self@[unit@] == c,
            r is None ==> !self@.contains_key(unit@),
    {
        let sought = String::from_str(unit);
        let n = self.entries.len();
        let mut i: usize = 0;
        while i < n
            invariant
                i <= n,
                self.wf(),
                sought@ == unit@,
                n == self.entries@.len(),
                forall|j: int| 0 <= j < i ==> self.entries@[j].0@ != unit@,
            decreases n - i,
        {
            if self.entries[i].0 == sought {
                proof {
                    lemma_entries_map_value_at(self.entries@, i as int);
                }
                return Some(self.entries[i].1);
            }
            i = i + 1;
        }
        proof {
            lemma_entries_map_contains(self.entries@, unit@);
        }
        None
    }

    /// How many distinct units the table holds.
    pub fn len(&self) -> (r: usize)
        ensures
            r == self.entries@.len(),
            self.wf() ==> r == self@.dom().len(),
    {
        proof {
            if self.wf() {
                lemma_entries_map_dom(self.entries@);
            }
        }
        self.entries.len()
    }

    /// The sum of all counts: how many units were tallied in all.
    pub fn total(&self) -> (r: usize)
        ensures
            r == self.total,
    {
        self.total
    }
}

} // verus!
