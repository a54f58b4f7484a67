use vstd::prelude::*;

use crate::loadgen::LoadTestMonitoringData;
use crate::tasks::{MonitoringData, MonitoringDataView};

verus! {

/// An association table from string keys to values: the executable form of a
/// `Map<Seq<char>, _>`, holding at most one entry per key.
pub struct StrTable<V> {
    entries: Vec<(String, V)>,
}

/// The map a list of keyed entries stands for.
pub open spec fn entries_map<V: View>(s: Seq<(String, V)>) -> Map<Seq<char>, V::V>
    decreases s.len(),
{
    if s.len() == 0 {
        Map::empty()
    } else {
        entries_map(s.drop_last()).insert(s.last().0@, s.last().1@)
    }
}

/// A key is in the map exactly when some entry carries it.
proof fn lemma_entries_map_contains<V: View>(s: Seq<(String, V)>, k: Seq<char>)
    ensures
        entries_map(s).contains_key(k) <==> exists|i: int| 0 <= i < s.len() && s[i].0@ == k,
    decreases s.len(),
{
    if s.len() > 0 {
        let pre = s.drop_last();
        lemma_entries_map_contains(pre, k);
        assert(s.last() == s[s.len() - 1]);
        if entries_map(s).contains_key(k) {
            if k == s.last().0@ {
                assert(s[s.len() - 1].0@ == k);
            } else {
                let i = choose|i: int| 0 <= i < pre.len() && pre[i].0@ == k;
                assert(s[i].0@ == k);
            }
        }
        if exists|i: int| 0 <= i < s.len() && s[i].0@ == k {
            let i = choose|i: int| 0 <= i < s.len() && s[i].0@ == k;
            if i < s.len() - 1 {
                assert(pre[i].0@ == k);
            }
        }
    }
}

/// With distinct keys, the map sends each entry's key to its value.
proof fn lemma_entries_map_at<V: View>(s: Seq<(String, V)>, i: int)
    requires
        0 <= i < s.len(),
        forall|p: int, q: int| 0 <= p < q < s.len() ==> s[p].0@ != s[q].0@,
    ensures
        entries_map(s).contains_key(s[i].0@),
        entries_map(s)[s[i].0@] == s[i].1@,
    decreases s.len(),
{
    let pre = s.drop_last();
    assert(s.last() == s[s.len() - 1]);
    if i < s.len() - 1 {
        assert(forall|p: int, q: int| 0 <= p < q < pre.len() ==> pre[p].0@ != pre[q].0@);
        lemma_entries_map_at(pre, i);
        assert(s[i].0@ != s[s.len() - 1].0@);
    }
}

/// Replacing the value of the entry at `i`, its key kept, inserts into the
/// map.
proof fn lemma_entries_map_update<V: View>(s: Seq<(String, V)>, i: int, pair: (String, V))
    requires
        0 <= i < s.len(),
        forall|p: int, q: int| 0 <= p < q < s.len() ==> s[p].0@ != s[q].0@,
        pair.0@ == s[i].0@,
    ensures
        entries_map(s.update(i, pair)) == entries_map(s).insert(pair.0@, pair.1@),
    decreases s.len(),
{
    let pre = s.drop_last();
    let su = s.update(i, pair);
    assert(s.last() == s[s.len() - 1]);
    if i == s.len() - 1 {
        assert(su.drop_last() =~= pre);
        assert(su.last() == pair);
        assert(entries_map(pre).insert(s.last().0@, s.last().1@).insert(pair.0@, pair.1@)
            =~= entries_map(pre).insert(pair.0@, pair.1@));
    } else {
        assert(forall|p: int, q: int| 0 <= p < q < pre.len() ==> pre[p].0@ != pre[q].0@);
        lemma_entries_map_update(pre, i, pair);
        assert(su.drop_last() =~= pre.update(i, pair));
        assert(su.last() == s.last());
        assert(pair.0@ != s.last().0@);
        assert(entries_map(pre).insert(pair.0@, pair.1@).insert(s.last().0@, s.last().1@)
            =~= entries_map(pre).insert(s.last().0@, s.last().1@).insert(pair.0@, pair.1@));
    }
}

/// Appending an entry inserts its binding into the map.
proof fn lemma_entries_map_push<V: View>(s: Seq<(String, V)>, pair: (String, V))
    ensures
        entries_map(s.push(pair)) == entries_map(s).insert(pair.0@, pair.1@),
{
    assert(s.push(pair).drop_last() =~= s);
    assert(s.push(pair).last() == pair);
}

impl<V: View> View for StrTable<V> {
    type V = Map<Seq<char>, V::V>;

    closed spec fn view(&self) -> Map<Seq<char>, V::V> {
        entries_map(self.entries@)
    }
}

impl<V: View> StrTable<V> {
    /// Keys are pairwise distinct.
    pub closed spec fn wf(self) -> bool {
        forall|p: int, q: int|
            0 <= p < q < self.entries@.len() ==> self.entries@[p].0@ != self.entries@[q].0@
    }

    /// The empty table.
    pub fn new() -> (t: Self)
        ensures
            t@ == Map::<Seq<char>, V::V>::empty(),
            t.wf(),
    {
        StrTable { entries: Vec::new() }
    }

    /// Binds `key` to `value`, overwriting any earlier binding.
    pub fn insert(&mut self, key: &String, value: V)
        requires
            old(self).wf(),
        ensures
            final(self).wf(),
            (*final(self))@ == (*old(self))@.insert(key@, value@),
    {
        let n = self.entries.len();
        let mut i: usize = 0;
        while i < n
            invariant
                n == self.entries.len(),
                i <= n,
                (*old(self)).wf(),
                *self == *old(self),
                forall|p: int| 0 <= p < i ==> self.entries@[p].0@ != key@,
            decreases n - i,
        {
            if self.entries[i].0 == *key {
                let ghost pre = self.entries@;
                let k = self.entries[i].0.clone();
                self.entries[i] = (k, value);
                proof {
                    assert(self.entries@ =~= pre.update(i as int, self.entries@[i as int]));
                    lemma_entries_map_update(pre, i as int, self.entries@[i as int]);
                    assert(forall|p: int, q: int|
                        0 <= p < q < self.entries@.len() ==> self.entries@[p].0@
                            != self.entries@[q].0@);
                }
                return ;
            }
            i += 1;
        }
        let ghost pre = self.entries@;
        self.entries.push((key.clone(), value));
        proof {
            lemma_entries_map_push(pre, self.entries@.last());
            assert(forall|p: int, q: int|
                0 <= p < q < self.entries@.len() ==> self.entries@[p].0@ != self.entries@[q].0@);
        }
    }

    /// Runtime check matching `wf`: whether all keys are pairwise distinct.
    pub fn check_wf(&self) -> (r: bool)
        ensures
            r == self.wf(),
    {
        let n = self.entries.len();
        let mut p: usize = 0;
        while p < n
            invariant
                n == self.entries.len(),
                p <= n,
                forall|i: int, j: int|
                    0 <= i < j < n && i < p ==> self.entries@[i].0@ != self.entries@[j].0@,
            decreases n - p,
        {
            let mut q: usize = p + 1;
            while q < n
                invariant
                    n == self.entries.len(),
                    p < n,
                    p < q <= n,
                    forall|j: int| p < j < q ==> self.entries@[p as int].0@ != self.entries@[j].0@,
                decreases n - q,
            {
                if self.entries[p].0 == self.entries[q].0 {
                    assert(self.entries@[p as int].0@ == self.entries@[q as int].0@);
                    assert(!self.wf());
                    return false;
                }
                q += 1;
            }
            p += 1;
        }
        true
    }

    /// The value bound to `key`, if any.
    pub fn get(&self, key: &String) -> (r: Option<&V>)
        requires
            self.wf(),
        ensures
            match r {
                Some(v) => self@.contains_key(key@) && self@[key@] == v@,
                None => !self@.contains_key(key@),
            },
    {
        let n = self.entries.len();
        let mut i: usize = 0;
        while i < n
            invariant
                n == self.entries.len(),
                i <= n,
                self.wf(),
                forall|p: int| 0 <= p < i ==> self.entries@[p].0@ != key@,
            decreases n - i,
        {
            if self.entries[i].0 == *key {
                proof {
                    lemma_entries_map_at(self.entries@, i as int);
                }
                return Some(&self.entries[i].1);
            }
            i += 1;
        }
        proof {
            lemma_entries_map_contains(self.entries@, key@);
        }
        None
    }

    /// The entries themselves, for read-only walks; each pair is a binding
    /// of the map, and every binding appears exactly once.
    pub fn items(&self) -> (r: &Vec<(String, V)>)
        requires
            self.wf(),
        ensures
            forall|i: int|
                0 <= i < r@.len() ==> self@.contains_key(#[trigger] r@[i].0@) && self@[r@[i].0@]
                    == r@[i].1@,
            forall|k: Seq<char>|
                self@.contains_key(k) ==> exists|i: int| 0 <= i < r@.len() && r@[i].0@ == k,
            forall|p: int, q: int| 0 <= p < q < r@.len() ==> r@[p].0@ != r@[q].0@,
    {
        proof {
            assert forall|i: int| 0 <= i < self.entries@.len() implies self@.contains_key(
                #[trigger] self.entries@[i].0@,
            ) && self@[self.entries@[i].0@] == self.entries@[i].1@ by {
                lemma_entries_map_at(self.entries@, i);
            }
            assert forall|k: Seq<char>| self@.contains_key(k) implies exists|i: int|
                0 <= i < self.entries@.len() && self.entries@[i].0@ == k by {
                lemma_entries_map_contains(self.entries@, k);
            }
        }
        &self.entries
    }
}

/// The map after a value is filed under an outer and an inner key: the inner
/// binding is added to the outer key's sub-map, an absent sub-map taken as
/// empty.
pub open spec fn nested_insert<X>(
    m: Map<Seq<char>, Map<Seq<char>, X>>,
    outer: Seq<char>,
    inner: Seq<char>,
    v: X,
) -> Map<Seq<char>, Map<Seq<char>, X>> {
    let sub = if m.contains_key(outer) {
        m[outer]
    } else {
        Map::empty()
    };
    m.insert(outer, sub.insert(inner, v))
}

impl<V: View> StrTable<StrTable<V>> {
    /// Every sub-table is well formed too.
    pub closed spec fn wf_nested(self) -> bool {
        &&& self.wf()
        &&& forall|i: int|
            0 <= i < self.entries@.len() ==> (#[trigger] self.entries@[i]).1.wf()
    }

    /// Runtime check matching `wf_nested`.
    pub fn check_wf_nested(&self) -> (r: bool)
        ensures
            r == self.wf_nested(),
    {
        if !self.check_wf() {
            return false;
        }
        let n = self.entries.len();
        let mut i: usize = 0;
        while i < n
            invariant
                n == self.entries.len(),
                i <= n,
                self.wf(),
                forall|k: int| 0 <= k < i ==> (#[trigger] self.entries@[k]).1.wf(),
            decreases n - i,
        {
            if !self.entries[i].1.check_wf() {
                assert(!(#[trigger] self.entries@[i as int]).1.wf());
                return false;
            }
            i += 1;
        }
        true
    }

    /// Binds `value` to `inner_key` inside the sub-table of `outer_key`,
    /// creating that sub-table when it is absent.
    pub fn insert_nested(&mut self, outer_key: &String, inner_key: &String, value: V)
        requires
            old(self).wf_nested(),
        ensures
            final(self).wf_nested(),
            (*final(self))@ == nested_insert((*old(self))@, outer_key@, inner_key@, value@),
    {
        let n = self.entries.len();
        let mut i: usize = 0;
        while i < n
            invariant
                n == self.entries.len(),
                i <= n,
                (*old(self)).wf_nested(),
                *self == *old(self),
                forall|p: int| 0 <= p < i ==> self.entries@[p].0@ != outer_key@,
            decreases n - i,
        {
            if self.entries[i].0 == *outer_key {
                let ghost pre = self.entries@;
                proof {
                    lemma_entries_map_at(pre, i as int);
                }
                self.entries[i].1.insert(inner_key, value);
                proof {
                    assert(self.entries@ =~= pre.update(i as int, self.entries@[i as int]));
                    assert(self.entries@[i as int].0@ == pre[i as int].0@);
                    lemma_entries_map_update(pre, i as int, self.entries@[i as int]);
                    assert(forall|p: int, q: int|
                        0 <= p < q < self.entries@.len() ==> self.entries@[p].0@
                            != self.entries@[q].0@);
                }
                return ;
            }
            i += 1;
        }
        proof {
            lemma_entries_map_contains(self.entries@, outer_key@);
            assert(!self@.contains_key(outer_key@));
        }
        let ghost pre = self.entries@;
        let mut sub: StrTable<V> = StrTable::new();
        sub.insert(inner_key, value);
        self.entries.push((outer_key.clone(), sub));
        proof {
            lemma_entries_map_push(pre, self.entries@.last());
            assert(forall|p: int, q: int|
                0 <= p < q < self.entries@.len() ==> self.entries@[p].0@ != self.entries@[q].0@);
            assert(self@ =~= nested_insert((*old(self))@, outer_key@, inner_key@, value@));
        }
    }

    /// The value filed under the two keys, if any.
    pub fn get_nested(&self, outer_key: &String, inner_key: &String) -> (r: Option<&V>)
        requires
            self.wf_nested(),
        ensures
            match r {
                Some(v) => self@.contains_key(outer_key@) && self@[outer_key@].contains_key(
                    inner_key@,
                ) && self@[outer_key@][inner_key@] == v@,
                None => !self@.contains_key(outer_key@) || !self@[outer_key@].contains_key(
                    inner_key@,
                ),
            },
    {
        let n = self.entries.len();
        let mut i: usize = 0;
        while i < n
            invariant
                n == self.entries.len(),
                i <= n,
                self.wf_nested(),
                forall|p: int| 0 <= p < i ==> self.entries@[p].0@ != outer_key@,
            decreases n - i,
        {
            if self.entries[i].0 == *outer_key {
                proof {
                    lemma_entries_map_at(self.entries@, i as int);
                }
                return self.entries[i].1.get(inner_key);
            }
            i += 1;
        }
        proof {
            lemma_entries_map_contains(self.entries@, outer_key@);
        }
        None
    }
}

/// The shared application state: the latest result of every monitored
/// endpoint, keyed by workflow name and then by endpoint URL, health checks
/// and load tests in separate tables.
pub struct AppState {
    /// Latest load-test aggregate per (workflow, endpoint URL).
    pub load_test_monitoring_data: StrTable<StrTable<LoadTestMonitoringData>>,
    /// Latest health-check result per (workflow, endpoint URL).
    pub task_monitoring_data: StrTable<StrTable<MonitoringData>>,
}

impl AppState {
    /// Both tables are well formed.
    pub open spec fn wf(self) -> bool {
        &&& self.load_test_monitoring_data.wf_nested()
        &&& self.task_monitoring_data.wf_nested()
    }

    /// Runtime check matching `wf`.
    pub fn check_wf(&self) -> (r: bool)
        ensures
            r == self.wf(),
    {
        self.load_test_monitoring_data.check_wf_nested()
            && self.task_monitoring_data.check_wf_nested()
    }

    /// The empty state every process starts from.
    pub fn new() -> (s: AppState)
        ensures
            s.wf(),
            s.load_test_monitoring_data@ == Map::<Seq<char>, Map<Seq<char>, LoadTestMonitoringData>>::empty(),
            s.task_monitoring_data@ == Map::<Seq<char>, Map<Seq<char>, MonitoringDataView>>::empty(),
    {
        let state = AppState {
            load_test_monitoring_data: StrTable { entries: Vec::new() },
            task_monitoring_data: StrTable { entries: Vec::new() },
        };
        proof {
            assert(state.load_test_monitoring_data@ =~= Map::<
                Seq<char>,
                Map<Seq<char>, LoadTestMonitoringData>,
            >::empty());
            assert(state.task_monitoring_data@ =~= Map::<
                Seq<char>,
                Map<Seq<char>, MonitoringDataView>,
            >::empty());
        }
        state
    }
}

} // verus!
