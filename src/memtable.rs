//! The ordered in-memory indexes: primary and secondary.

use vstd::prelude::*;
use crate::key_order::{compare_keys, key_lt, lemma_key_lt_irreflexive, lemma_key_lt_transitive};
use crate::log_key::{LogKey, LogKeySet};
use crate::record::{IndexKey, IndexableValue};

verus! {

/// One end of a key range.
#[derive(Debug, Clone, PartialEq, Eq)]
pub enum Bound<T> {
    Included(T),
    Excluded(T),
    Unbounded,
}

impl<T: View> View for Bound<T> {
    type V = Bound<T::V>;

    open spec fn view(&self) -> Bound<T::V> {
        match self {
            Bound::Included(x) => Bound::Included(x@),
            Bound::Excluded(x) => Bound::Excluded(x@),
            Bound::Unbounded => Bound::Unbounded,
        }
    }
}

/// Whether `k` lies between the two bounds.
pub open spec fn in_range(k: IndexKey, lo: Bound<IndexKey>, hi: Bound<IndexKey>) -> bool {
    &&& match lo {
        Bound::Included(x) => x == k || key_lt(x, k),
        Bound::Excluded(x) => key_lt(x, k),
        Bound::Unbounded => true,
    }
    &&& match hi {
        Bound::Included(x) => x == k || key_lt(k, x),
        Bound::Excluded(x) => key_lt(k, x),
        Bound::Unbounded => true,
    }
}

fn bounds_contain(k: &IndexableValue, lo: &Bound<IndexableValue>, hi: &Bound<IndexableValue>) -> (r:
    bool)
    ensures
        r == in_range(k@, lo@, hi@),
{
    let above = match lo {
        Bound::Included(x) => compare_keys(x, k) <= 0,
        Bound::Excluded(x) => compare_keys(x, k) < 0,
        Bound::Unbounded => true,
    };
    let below = match hi {
        Bound::Included(x) => compare_keys(k, x) <= 0,
        Bound::Excluded(x) => compare_keys(k, x) < 0,
        Bound::Unbounded => true,
    };
    above && below
}

/// Keys strictly increasing along `s`.
pub open spec fn sorted_by_key<V>(s: Seq<(IndexKey, V)>) -> bool {
    forall|i: int, j: int| 0 <= i < j < s.len() ==> key_lt(#[trigger] s[i].0, #[trigger] s[j].0)
}

/// A row of `s` that holds `k`, if there is one.
pub open spec fn row_of<V>(s: Seq<(IndexKey, V)>, k: IndexKey) -> int {
    choose|i: int| 0 <= i < s.len() && s[i].0 == k
}

/// The map that an association list holds.
pub open spec fn map_of<V>(s: Seq<(IndexKey, V)>) -> Map<IndexKey, V> {
    Map::new(
        |k: IndexKey| exists|i: int| 0 <= i < s.len() && s[i].0 == k,
        |k: IndexKey| s[row_of(s, k)].1,
    )
}

pub proof fn lemma_map_of_at<V>(s: Seq<(IndexKey, V)>, i: int)
    requires
        sorted_by_key(s),
        0 <= i < s.len(),
    ensures
        map_of(s).contains_key(s[i].0),
        map_of(s)[s[i].0] == s[i].1,
{
    let k = s[i].0;
    assert(exists|j: int| 0 <= j < s.len() && s[j].0 == k);
    let j = row_of(s, k);
    assert(j == i) by {
        lemma_key_lt_irreflexive(k);
        if j < i {
            assert(key_lt(s[j].0, s[i].0));
        } else if j > i {
            assert(key_lt(s[i].0, s[j].0));
        }
    }
    assert(map_of(s)[k] == s[j].1);
}

/// `map_of` on a sorted list: a key is present exactly where a row holds it.
pub proof fn lemma_map_of_sorted<V>(s: Seq<(IndexKey, V)>)
    requires
        sorted_by_key(s),
    ensures
        forall|i: int|
            0 <= i < s.len() ==> map_of(s).contains_key(#[trigger] s[i].0) && map_of(s)[s[i].0]
                == s[i].1,
        forall|k: IndexKey|
            #[trigger] map_of(s).contains_key(k) ==> exists|i: int| 0 <= i < s.len() && s[i].0 == k,
{
    assert forall|i: int| 0 <= i < s.len() implies map_of(s).contains_key(#[trigger] s[i].0)
        && map_of(s)[s[i].0] == s[i].1 by {
        lemma_map_of_at(s, i);
    }
}

/// Finds where `key` stands in a sorted list, or where it would be inserted.
fn locate<V, W>(entries: &Vec<(IndexableValue, V)>, key: &IndexableValue, Ghost(s): Ghost<
    Seq<(IndexKey, W)>,
>) -> (r: (usize, bool))
    requires
        s.len() == entries@.len(),
        forall|i: int| 0 <= i < s.len() ==> #[trigger] s[i].0 == entries@[i].0@,
        sorted_by_key(s),
    ensures
        r.0 <= s.len(),
        forall|i: int| 0 <= i < r.0 ==> key_lt(#[trigger] s[i].0, key@),
        r.1 ==> r.0 < s.len() && s[r.0 as int].0 == key@,
        !r.1 ==> forall|i: int| r.0 <= i < s.len() ==> key_lt(key@, #[trigger] s[i].0),
{
    let mut i: usize = 0;
    while i < entries.len()
        invariant
            i <= s.len(),
            s.len() == entries@.len(),
            forall|j: int| 0 <= j < s.len() ==> #[trigger] s[j].0 == entries@[j].0@,
            sorted_by_key(s),
            forall|j: int| 0 <= j < i ==> key_lt(#[trigger] s[j].0, key@),
        decreases s.len() - i,
    {
        let c = compare_keys(&entries[i].0, key);
        if c == 0 {
            return (i, true);
        }
        if c > 0 {
            assert forall|j: int| i <= j < s.len() implies key_lt(key@, #[trigger] s[j].0) by {
                if j > i {
                    lemma_key_lt_transitive(key@, s[i as int].0, s[j].0);
                }
            }
            return (i, false);
        }
        i = i + 1;
    }
    (i, false)
}

/// Replacing the row that holds `k` keeps the list sorted and updates its map.
proof fn lemma_sorted_update<V>(s: Seq<(IndexKey, V)>, pos: int, k: IndexKey, v: V)
    requires
        sorted_by_key(s),
        0 <= pos < s.len(),
        s[pos].0 == k,
    ensures
        sorted_by_key(s.update(pos, (k, v))),
        map_of(s.update(pos, (k, v))) == map_of(s).insert(k, v),
{
    let t = s.update(pos, (k, v));
    assert(t.len() == s.len());
    assert forall|i: int| 0 <= i < t.len() implies #[trigger] t[i] == (if i == pos {
        (k, v)
    } else {
        s[i]
    }) by {}
    assert forall|i: int, j: int| 0 <= i < j < t.len() implies key_lt(
        #[trigger] t[i].0,
        #[trigger] t[j].0,
    ) by {
        assert(t[i].0 == s[i].0 && t[j].0 == s[j].0);
    }
    lemma_map_of_sorted(s);
    lemma_map_of_sorted(t);
    assert forall|x: IndexKey| #[trigger] map_of(t).contains_key(x) <==> map_of(s).insert(
        k,
        v,
    ).contains_key(x) by {
        if map_of(t).contains_key(x) {
            let i = choose|i: int| 0 <= i < t.len() && t[i].0 == x;
            assert(s[i].0 == x);
        }
        if map_of(s).contains_key(x) {
            let i = choose|i: int| 0 <= i < s.len() && s[i].0 == x;
            assert(t[i].0 == x);
        }
        if x == k {
            assert(t[pos].0 == x);
        }
    }
    assert forall|x: IndexKey| #[trigger] map_of(t).contains_key(x) implies map_of(t)[x] == map_of(
        s,
    ).insert(k, v)[x] by {
        let i = choose|i: int| 0 <= i < t.len() && t[i].0 == x;
        assert(map_of(t)[x] == t[i].1);
        if i != pos {
            assert(s[i].0 == x);
            lemma_key_lt_irreflexive(k);
            if i < pos {
                assert(key_lt(s[i].0, s[pos].0));
            } else {
                assert(key_lt(s[pos].0, s[i].0));
            }
            assert(map_of(s)[x] == s[i].1);
        }
    }
    assert(map_of(t) =~= map_of(s).insert(k, v));
}

/// Inserting a row for a new key at its place keeps the list sorted and
/// updates its map.
proof fn lemma_sorted_insert<V>(s: Seq<(IndexKey, V)>, pos: int, k: IndexKey, v: V)
    requires
        sorted_by_key(s),
        0 <= pos <= s.len(),
        forall|i: int| 0 <= i < pos ==> key_lt(#[trigger] s[i].0, k),
        forall|i: int| pos <= i < s.len() ==> key_lt(k, #[trigger] s[i].0),
    ensures
        sorted_by_key(s.insert(pos, (k, v))),
        map_of(s.insert(pos, (k, v))) == map_of(s).insert(k, v),
{
    let t = s.insert(pos, (k, v));
    assert(t.len() == s.len() + 1);
    assert forall|i: int| 0 <= i < t.len() implies #[trigger] t[i] == (if i < pos {
        s[i]
    } else if i == pos {
        (k, v)
    } else {
        s[i - 1]
    }) by {}
    assert forall|i: int, j: int| 0 <= i < j < t.len() implies key_lt(
        #[trigger] t[i].0,
        #[trigger] t[j].0,
    ) by {
        if j < pos {
        } else if i < pos && j == pos {
        } else if i < pos && j > pos {
            assert(key_lt(s[i].0, s[j - 1].0));
        } else if i == pos {
        } else {
            assert(key_lt(s[i - 1].0, s[j - 1].0));
        }
    }
    lemma_map_of_sorted(s);
    lemma_map_of_sorted(t);
    lemma_key_lt_irreflexive(k);
    assert forall|x: IndexKey| #[trigger] map_of(t).contains_key(x) <==> map_of(s).insert(
        k,
        v,
    ).contains_key(x) by {
        if map_of(t).contains_key(x) {
            let i = choose|i: int| 0 <= i < t.len() && t[i].0 == x;
            if i < pos {
                assert(s[i].0 == x);
            } else if i > pos {
                assert(s[i - 1].0 == x);
            }
        }
        if map_of(s).contains_key(x) {
            let i = choose|i: int| 0 <= i < s.len() && s[i].0 == x;
            if i < pos {
                assert(t[i].0 == x);
            } else {
                assert(t[i + 1].0 == x);
            }
        }
        if x == k {
            assert(t[pos].0 == x);
        }
    }
    assert forall|x: IndexKey| #[trigger] map_of(t).contains_key(x) implies map_of(t)[x] == map_of(
        s,
    ).insert(k, v)[x] by {
        let i = choose|i: int| 0 <= i < t.len() && t[i].0 == x;
        if i < pos {
            assert(s[i].0 == x);
            assert(key_lt(x, k));
        } else if i > pos {
            assert(s[i - 1].0 == x);
            assert(key_lt(k, x));
        }
    }
    assert(map_of(t) =~= map_of(s).insert(k, v));
}

/// Removing the row at a position keeps the list sorted and drops its key from the map.
proof fn lemma_sorted_remove<V>(s: Seq<(IndexKey, V)>, pos: int)
    requires
        sorted_by_key(s),
        0 <= pos < s.len(),
    ensures
        sorted_by_key(s.remove(pos)),
        map_of(s.remove(pos)) == map_of(s).remove(s[pos].0),
{
    let t = s.remove(pos);
    let k = s[pos].0;
    assert forall|i: int, j: int| 0 <= i < j < t.len() implies key_lt(
        #[trigger] t[i].0,
        #[trigger] t[j].0,
    ) by {
        if j < pos {
        } else if i < pos {
            assert(key_lt(s[i].0, s[j + 1].0));
        } else {
            assert(key_lt(s[i + 1].0, s[j + 1].0));
        }
    }
    lemma_map_of_sorted(s);
    lemma_map_of_sorted(t);
    lemma_key_lt_irreflexive(k);
    assert forall|x: IndexKey| #[trigger] map_of(t).contains_key(x) <==> map_of(s).remove(
        k,
    ).contains_key(x) by {
        if map_of(t).contains_key(x) {
            let i = choose|i: int| 0 <= i < t.len() && t[i].0 == x;
            if i < pos {
                assert(s[i].0 == x);
                assert(key_lt(s[i].0, s[pos].0));
            } else {
                assert(s[i + 1].0 == x);
                assert(key_lt(s[pos].0, s[i + 1].0));
            }
        }
        if map_of(s).remove(k).contains_key(x) {
            let i = choose|i: int| 0 <= i < s.len() && s[i].0 == x;
            if i < pos {
                assert(t[i].0 == x);
            } else {
                assert(t[i - 1].0 == x);
            }
        }
    }
    assert forall|x: IndexKey| #[trigger] map_of(t).contains_key(x) implies map_of(t)[x] == map_of(
        s,
    ).remove(k)[x] by {
        let i = choose|i: int| 0 <= i < t.len() && t[i].0 == x;
        if i < pos {
            assert(s[i].0 == x);
        } else {
            assert(s[i + 1].0 == x);
        }
    }
    assert(map_of(t) =~= map_of(s).remove(k));
}

/// The values of the rows whose keys lie in the range, in key order.
pub open spec fn range_values(s: Seq<(IndexKey, u64)>, lo: Bound<IndexKey>, hi: Bound<IndexKey>) -> Seq<
    u64,
>
    decreases s.len(),
{
    if s.len() == 0 {
        Seq::empty()
    } else {
        let r = range_values(s.drop_last(), lo, hi);
        if in_range(s.last().0, lo, hi) {
            r.push(s.last().1)
        } else {
            r
        }
    }
}

/// A value in a range result comes from a row whose key lies in the range.
pub proof fn lemma_range_values_member(s: Seq<(IndexKey, u64)>, lo: Bound<IndexKey>, hi: Bound<IndexKey>, x: u64)
    requires
        range_values(s, lo, hi).contains(x),
    ensures
        exists|i: int| 0 <= i < s.len() && s[i].1 == x && in_range(s[i].0, lo, hi),
    decreases s.len(),
{
    if s.len() == 0 {
        assert(range_values(s, lo, hi) =~= Seq::<u64>::empty());
    } else {
        let d = s.drop_last();
        let r = range_values(d, lo, hi);
        if r.contains(x) {
            lemma_range_values_member(d, lo, hi, x);
            let i = choose|i: int| 0 <= i < d.len() && d[i].1 == x && in_range(d[i].0, lo, hi);
            assert(s[i] == d[i]);
        } else {
            assert(in_range(s.last().0, lo, hi));
            let j = choose|j: int| 0 <= j < range_values(s, lo, hi).len() && range_values(s, lo, hi)[j] == x;
            assert(j == r.len());
            assert(s[s.len() - 1] == s.last());
        }
    }
}

/// A log key in a range result comes from a row whose key lies in the range.
pub proof fn lemma_range_sets_member(s: Seq<(IndexKey, Seq<u64>)>, lo: Bound<IndexKey>, hi: Bound<IndexKey>, x: u64)
    requires
        range_sets(s, lo, hi).contains(x),
    ensures
        exists|i: int| 0 <= i < s.len() && s[i].1.contains(x) && in_range(s[i].0, lo, hi),
    decreases s.len(),
{
    if s.len() == 0 {
        assert(range_sets(s, lo, hi) =~= Seq::<u64>::empty());
    } else {
        let d = s.drop_last();
        let r = range_sets(d, lo, hi);
        if r.contains(x) {
            lemma_range_sets_member(d, lo, hi, x);
            let i = choose|i: int| 0 <= i < d.len() && d[i].1.contains(x) && in_range(d[i].0, lo, hi);
            assert(s[i] == d[i]);
        } else {
            assert(in_range(s.last().0, lo, hi));
            let full = range_sets(s, lo, hi);
            assert(full == r + s.last().1);
            let j = choose|j: int| 0 <= j < full.len() && full[j] == x;
            assert(j >= r.len());
            assert(s.last().1[j - r.len()] == x);
            assert(s[s.len() - 1] == s.last());
        }
    }
}

/// The primary index: each key maps to the log key of its latest record.
#[derive(Debug, Clone)]
pub struct PrimaryMemtable {
    entries: Vec<(IndexableValue, LogKey)>,
}

impl PrimaryMemtable {
    /// The rows, in key order.
    pub closed spec fn rows(&self) -> Seq<(IndexKey, u64)> {
        self.entries@.map_values(|e: (IndexableValue, LogKey)| (e.0@, e.1@))
    }

    pub closed spec fn wf(&self) -> bool {
        sorted_by_key(self.rows())
    }

    pub open spec fn spec_map(&self) -> Map<IndexKey, u64> {
        map_of(self.rows())
    }

    /// Each row is an entry of the map.
    pub proof fn lemma_rows_in_map(&self)
        requires
            self.wf(),
        ensures
            forall|i: int|
                0 <= i < self.rows().len() ==> self.spec_map().contains_key(#[trigger] self.rows()[i].0)
                    && self.spec_map()[self.rows()[i].0] == self.rows()[i].1,
    {
        lemma_map_of_sorted(self.rows());
    }

    pub fn new() -> (r: Self)
        ensures
            r.wf(),
            r.spec_map() == Map::<IndexKey, u64>::empty(),
            r.rows().len() == 0,
    {
        let r = PrimaryMemtable { entries: Vec::new() };
        assert(r.spec_map() =~= Map::<IndexKey, u64>::empty());
        r
    }

    /// The log key stored for `key`.
    pub fn get(&self, key: &IndexableValue) -> (r: Option<LogKey>)
        requires
            self.wf(),
        ensures
            match r {
                Some(lk) => self.spec_map().contains_key(key@) && self.spec_map()[key@] == lk@,
                None => !self.spec_map().contains_key(key@),
            },
    {
        let ghost s = self.rows();
        proof {
            lemma_map_of_sorted(s);
            lemma_key_lt_irreflexive(key@);
        }
        let (pos, found) = locate::<LogKey, u64>(&self.entries, key, Ghost(s));
        if found {
            Some(self.entries[pos].1)
        } else {
            proof {
                if self.spec_map().contains_key(key@) {
                    let i = choose|i: int| 0 <= i < s.len() && s[i].0 == key@;
                    if i < pos {
                        assert(key_lt(s[i].0, key@));
                    } else {
                        assert(key_lt(key@, s[i].0));
                    }
                }
            }
            None
        }
    }

    /// Makes `key` map to `log_key`.
    pub fn set(&mut self, key: IndexableValue, log_key: LogKey)
        requires
            old(self).wf(),
        ensures
            final(self).wf(),
            final(self).spec_map() == old(self).spec_map().insert(key@, log_key@),
    {
        let ghost s = self.rows();
        let (pos, found) = locate::<LogKey, u64>(&self.entries, &key, Ghost(s));
        proof {
            if found {
                lemma_sorted_update(s, pos as int, key@, log_key@);
            } else {
                lemma_sorted_insert(s, pos as int, key@, log_key@);
            }
        }
        let ghost k = key@;
        if found {
            self.entries.set(pos, (key, log_key));
            assert(self.rows() =~= s.update(pos as int, (k, log_key@)));
        } else {
            self.entries.insert(pos, (key, log_key));
            assert(self.rows() =~= s.insert(pos as int, (k, log_key@)));
        }
    }

    /// Removes `key`; returns the log key it mapped to.
    pub fn remove(&mut self, key: &IndexableValue) -> (r: Option<LogKey>)
        requires
            old(self).wf(),
        ensures
            final(self).wf(),
            final(self).spec_map() == old(self).spec_map().remove(key@),
            match r {
                Some(lk) => old(self).spec_map().contains_key(key@) && old(self).spec_map()[key@]
                    == lk@,
                None => !old(self).spec_map().contains_key(key@),
            },
    {
        let ghost s = self.rows();
        proof {
            lemma_map_of_sorted(s);
            lemma_key_lt_irreflexive(key@);
        }
        let (pos, found) = locate::<LogKey, u64>(&self.entries, key, Ghost(s));
        if found {
            proof {
                lemma_sorted_remove(s, pos as int);
            }
            let (_, lk) = self.entries.remove(pos);
            assert(self.rows() =~= s.remove(pos as int));
            Some(lk)
        } else {
            proof {
                if old(self).spec_map().contains_key(key@) {
                    let i = choose|i: int| 0 <= i < s.len() && s[i].0 == key@;
                    if i < pos {
                        assert(key_lt(s[i].0, key@));
                    } else {
                        assert(key_lt(key@, s[i].0));
                    }
                }
                assert(old(self).spec_map().remove(key@) =~= old(self).spec_map());
            }
            None
        }
    }

    /// The log keys of the keys in the range, in key order.
    pub fn range(&self, lo: &Bound<IndexableValue>, hi: &Bound<IndexableValue>) -> (r: Vec<LogKey>)
        ensures
            r@.map_values(|k: LogKey| k@) == range_values(self.rows(), lo@, hi@),
    {
        let ghost s = self.rows();
        let mut out: Vec<LogKey> = Vec::new();
        let mut i: usize = 0;
        while i < self.entries.len()
            invariant
                i <= s.len(),
                s == self.rows(),
                out@.map_values(|k: LogKey| k@) == range_values(s.take(i as int), lo@, hi@),
            decreases s.len() - i,
        {
            assert(s.take(i + 1).drop_last() =~= s.take(i as int));
            let e = &self.entries[i];
            if bounds_contain(&e.0, lo, hi) {
                out.push(e.1);
            }
            i = i + 1;
            assert(out@.map_values(|k: LogKey| k@) =~= range_values(s.take(i as int), lo@, hi@));
        }
        assert(s.take(i as int) =~= s);
        out
    }
}

/// The log keys of the rows whose keys lie in the range: each row's keys in
/// increasing order, rows in key order.
pub open spec fn range_sets(s: Seq<(IndexKey, Seq<u64>)>, lo: Bound<IndexKey>, hi: Bound<IndexKey>) -> Seq<u64>
    decreases s.len(),
{
    if s.len() == 0 {
        Seq::empty()
    } else {
        let r = range_sets(s.drop_last(), lo, hi);
        if in_range(s.last().0, lo, hi) {
            r + s.last().1
        } else {
            r
        }
    }
}

/// A secondary index: each key maps to the non-empty set of log keys of the
/// records that hold it.
#[derive(Debug, Clone)]
pub struct SecondaryMemtable {
    entries: Vec<(IndexableValue, LogKeySet)>,
}

impl SecondaryMemtable {
    /// The rows, in key order, each with its set.
    pub closed spec fn rows(&self) -> Seq<(IndexKey, Set<u64>)> {
        self.entries@.map_values(|e: (IndexableValue, LogKeySet)| (e.0@, e.1@))
    }

    /// The rows, in key order, each with its log keys in increasing order.
    pub closed spec fn ordered_rows(&self) -> Seq<(IndexKey, Seq<u64>)> {
        self.entries@.map_values(
            |e: (IndexableValue, LogKeySet)| (e.0@, e.1.ordered().map_values(|k: LogKey| k@)),
        )
    }

    pub closed spec fn wf(&self) -> bool {
        &&& sorted_by_key(self.rows())
        &&& forall|i: int| 0 <= i < self.entries@.len() ==> (#[trigger] self.entries@[i]).1.wf()
    }

    pub open spec fn spec_map(&self) -> Map<IndexKey, Set<u64>> {
        map_of(self.rows())
    }

    /// The log keys stored for `k`, in increasing order; empty when `k` is absent.
    pub closed spec fn keys_of(&self, k: IndexKey) -> Seq<u64> {
        let s = self.ordered_rows();
        if exists|i: int| 0 <= i < s.len() && s[i].0 == k {
            s[row_of(s, k)].1
        } else {
            Seq::empty()
        }
    }

    /// Each ordered row lists the log keys of its key.
    pub proof fn lemma_ordered_rows(&self)
        requires
            self.wf(),
        ensures
            forall|i: int|
                0 <= i < self.ordered_rows().len() ==> (#[trigger] self.ordered_rows()[i]).1 == self.keys_of(
                    self.ordered_rows()[i].0,
                ),
    {
        let o = self.ordered_rows();
        let s = self.rows();
        assert forall|i: int| 0 <= i < o.len() implies (#[trigger] o[i]).1 == self.keys_of(o[i].0) by {
            let k = o[i].0;
            let r = row_of(o, k);
            assert(s[i].0 == k);
            assert(s[r].0 == k);
            assert(r == i) by {
                lemma_key_lt_irreflexive(k);
                if r < i {
                    assert(key_lt(s[r].0, s[i].0));
                } else if r > i {
                    assert(key_lt(s[i].0, s[r].0));
                }
            }
        }
    }

    /// A log key listed for `k` is in the set of `k`, and back.
    pub proof fn lemma_keys_of(&self, k: IndexKey)
        requires
            self.wf(),
        ensures
            forall|x: u64|
                self.keys_of(k).contains(x) ==> self.spec_map().contains_key(k) && self.spec_map()[k].contains(x),
            forall|x: u64|
                self.spec_map().contains_key(k) && self.spec_map()[k].contains(x) ==> self.keys_of(k).contains(x),
    {
        let o0 = self.ordered_rows();
        let s0 = self.rows();
        lemma_map_of_sorted(s0);
        assert forall|x: u64| self.spec_map().contains_key(k) && self.spec_map()[k].contains(x) implies self.keys_of(k).contains(x) by {
            let i = choose|i: int| 0 <= i < s0.len() && s0[i].0 == k;
            assert(o0[i].0 == k);
            let r = row_of(o0, k);
            assert(s0[r].0 == k);
            assert(r == i) by {
                lemma_key_lt_irreflexive(k);
                if r < i {
                    assert(key_lt(s0[r].0, s0[i].0));
                } else if r > i {
                    assert(key_lt(s0[i].0, s0[r].0));
                }
            }
            let set = self.entries@[i].1;
            assert(set.wf());
            set.lemma_ordered();
            assert(self.spec_map()[k] == set@);
            let idx = choose|idx: int| 0 <= idx < set.ordered().len() && #[trigger] set.ordered()[idx]@ == x;
            let m = set.ordered().map_values(|lk: LogKey| lk@);
            assert(o0[i].1 == m);
            assert(m[idx] == x);
        }
        let o = self.ordered_rows();
        let s = self.rows();
        lemma_map_of_sorted(s);
        assert forall|x: u64| self.keys_of(k).contains(x) implies self.spec_map().contains_key(k)
            && self.spec_map()[k].contains(x) by {
            let i = row_of(o, k);
            assert(0 <= i < o.len() && o[i].0 == k);
            assert(s[i].0 == k);
            let set = self.entries@[i].1;
            assert(set.wf());
            set.lemma_ordered();
            let m = set.ordered().map_values(|lk: LogKey| lk@);
            assert(o[i].1 == m);
            let idx = choose|idx: int| 0 <= idx < m.len() && m[idx] == x;
            assert(set.ordered()[idx]@ == x);
            assert(self.spec_map()[k] == s[i].1);
        }
    }

    pub fn new() -> (r: Self)
        ensures
            r.wf(),
            r.spec_map() == Map::<IndexKey, Set<u64>>::empty(),
    {
        let r = SecondaryMemtable { entries: Vec::new() };
        assert(r.spec_map() =~= Map::<IndexKey, Set<u64>>::empty());
        r
    }

    /// The log keys stored for `key`, in increasing order.
    pub fn find_by(&self, key: &IndexableValue) -> (r: Vec<LogKey>)
        requires
            self.wf(),
        ensures
            r@.map_values(|k: LogKey| k@).to_set() == (if self.spec_map().contains_key(key@) {
                self.spec_map()[key@]
            } else {
                Set::<u64>::empty()
            }),
            r@.map_values(|k: LogKey| k@).no_duplicates(),
            r@.map_values(|k: LogKey| k@) == self.keys_of(key@),
    {
        let ghost s = self.rows();
        proof {
            lemma_map_of_sorted(s);
            lemma_key_lt_irreflexive(key@);
        }
        let (pos, found) = locate::<LogKeySet, Set<u64>>(&self.entries, key, Ghost(s));
        if found {
            let set = &self.entries[pos].1;
            proof {
                set.lemma_ordered();
                assert(s[pos as int].1 == set@);
            }
            let keys = set.log_keys();
            let mut out: Vec<LogKey> = Vec::new();
            let mut i: usize = 0;
            while i < keys.len()
                invariant
                    i <= keys@.len(),
                    keys@ == set.ordered(),
                    out@ == keys@.take(i as int),
                decreases keys@.len() - i,
            {
                out.push(keys[i]);
                i = i + 1;
                assert(out@ =~= keys@.take(i as int));
            }
            proof {
                assert(out@ =~= set.ordered());
                let m = out@.map_values(|k: LogKey| k@);
                assert forall|a: int, b: int| 0 <= a < m.len() && 0 <= b < m.len() && a != b implies m[a] != m[b] by {
                    if a < b {
                        assert(set.ordered()[a]@ < set.ordered()[b]@);
                    } else {
                        assert(set.ordered()[b]@ < set.ordered()[a]@);
                    }
                }
                assert forall|x: u64| m.to_set().contains(x) <==> set@.contains(x) by {
                    if m.to_set().contains(x) {
                        let j = choose|j: int| 0 <= j < m.len() && m[j] == x;
                        assert(set.ordered()[j]@ == x);
                    }
                    if set@.contains(x) {
                        let j = choose|j: int| 0 <= j < set.ordered().len() && #[trigger] set.ordered()[j]@ == x;
                        assert(m[j] == x);
                    }
                }
                assert(m.to_set() =~= set@);
                let o = self.ordered_rows();
                assert(o[pos as int].0 == key@);
                let j = row_of(o, key@);
                assert(j == pos) by {
                    if j < pos {
                        assert(key_lt(s[j].0, s[pos as int].0));
                    } else if j > pos {
                        assert(key_lt(s[pos as int].0, s[j].0));
                    }
                }
                assert(m =~= self.keys_of(key@));
            }
            out
        } else {
            proof {
                if self.spec_map().contains_key(key@) {
                    let i = choose|i: int| 0 <= i < s.len() && s[i].0 == key@;
                    if i < pos {
                        assert(key_lt(s[i].0, key@));
                    } else {
                        assert(key_lt(key@, s[i].0));
                    }
                }
                let e: Seq<LogKey> = Seq::empty();
                assert(e.map_values(|k: LogKey| k@).to_set() =~= Set::<u64>::empty());
                let o = self.ordered_rows();
                if exists|i: int| 0 <= i < o.len() && o[i].0 == key@ {
                    let i = choose|i: int| 0 <= i < o.len() && o[i].0 == key@;
                    assert(s[i].0 == key@);
                    if i < pos {
                        assert(key_lt(s[i].0, key@));
                    } else {
                        assert(key_lt(key@, s[i].0));
                    }
                }
                assert(e.map_values(|k: LogKey| k@) =~= self.keys_of(key@));
            }
            Vec::new()
        }
    }

    /// Adds `log_key` to the set of `key`, creating the set if needed.
    pub fn set(&mut self, key: IndexableValue, log_key: LogKey)
        requires
            old(self).wf(),
        ensures
            final(self).wf(),
            final(self).spec_map() == old(self).spec_map().insert(
                key@,
                if old(self).spec_map().contains_key(key@) {
                    old(self).spec_map()[key@].insert(log_key@)
                } else {
                    set![log_key@]
                },
            ),
    {
        let ghost s = self.rows();
        proof {
            lemma_map_of_sorted(s);
        }
        let (pos, found) = locate::<LogKeySet, Set<u64>>(&self.entries, &key, Ghost(s));
        let ghost k = key@;
        if found {
            let ghost old_set = s[pos as int].1;
            let mut e = self.entries.remove(pos);
            assert(e.1@ == old_set);
            assert(e.1.wf());
            e.1.insert(log_key);
            let ghost new_set = e.1@;
            proof {
                lemma_sorted_update(s, pos as int, k, new_set);
            }
            self.entries.insert(pos, e);
            assert(self.rows() =~= s.update(pos as int, (k, new_set)));
            assert forall|i: int| 0 <= i < self.entries@.len() implies (
            #[trigger] self.entries@[i]).1.wf() by {
                if i != pos {
                    assert(self.entries@[i] == old(self).entries@[i]);
                }
            }
        } else {
            let set = LogKeySet::new_with_initial(&log_key);
            proof {
                lemma_sorted_insert(s, pos as int, k, set@);
                if map_of(s).contains_key(k) {
                    let i = choose|i: int| 0 <= i < s.len() && s[i].0 == k;
                    lemma_key_lt_irreflexive(k);
                    if i < pos {
                        assert(key_lt(s[i].0, k));
                    } else {
                        assert(key_lt(k, s[i].0));
                    }
                }
            }
            self.entries.insert(pos, (key, set));
            assert(self.rows() =~= s.insert(pos as int, (k, set![log_key@])));
            assert forall|i: int| 0 <= i < self.entries@.len() implies (
            #[trigger] self.entries@[i]).1.wf() by {
                if i < pos {
                    assert(self.entries@[i] == old(self).entries@[i]);
                } else if i > pos {
                    assert(self.entries@[i] == old(self).entries@[i - 1]);
                }
            }
        }
    }

    /// Removes `log_key` from the set of `key`; a set left empty is removed
    /// with its key. Nothing changes when the key or the log key is absent.
    pub fn remove(&mut self, key: &IndexableValue, log_key: &LogKey)
        requires
            old(self).wf(),
        ensures
            final(self).wf(),
            final(self).spec_map() == (if !old(self).spec_map().contains_key(key@) {
                old(self).spec_map()
            } else if old(self).spec_map()[key@] == set![log_key@] {
                old(self).spec_map().remove(key@)
            } else {
                old(self).spec_map().insert(key@, old(self).spec_map()[key@].remove(log_key@))
            }),
    {
        let ghost s = self.rows();
        proof {
            lemma_map_of_sorted(s);
            lemma_key_lt_irreflexive(key@);
        }
        let (pos, found) = locate::<LogKeySet, Set<u64>>(&self.entries, key, Ghost(s));
        if !found {
            proof {
                if map_of(s).contains_key(key@) {
                    let i = choose|i: int| 0 <= i < s.len() && s[i].0 == key@;
                    if i < pos {
                        assert(key_lt(s[i].0, key@));
                    } else {
                        assert(key_lt(key@, s[i].0));
                    }
                }
            }
            return;
        }
        let ghost k = s[pos as int].0;
        let ghost old_set = s[pos as int].1;
        assert(self.entries@[pos as int].1.wf());
        proof {
            self.entries@[pos as int].1.lemma_ordered();
        }
        if self.entries[pos].1.len() == 1 {
            let only = self.entries[pos].1.max_key();
            if only == *log_key {
                proof {
                    LogKey::lemma_view_eq(only, *log_key);
                    lemma_sorted_remove(s, pos as int);
                    assert(old_set =~= set![log_key@]) by {
                        assert forall|x: u64| old_set.contains(x) implies x == log_key@ by {
                            if x != log_key@ {
                                assert(old_set.remove(only@).contains(x));
                                assert(old_set.remove(only@).len() == 0);
                            }
                        }
                    }
                }
                self.entries.remove(pos);
                assert(self.rows() =~= s.remove(pos as int));
                assert forall|i: int| 0 <= i < self.entries@.len() implies (
                #[trigger] self.entries@[i]).1.wf() by {
                    if i < pos {
                        assert(self.entries@[i] == old(self).entries@[i]);
                    } else {
                        assert(self.entries@[i] == old(self).entries@[i + 1]);
                    }
                }
            } else {
                proof {
                    assert(old_set.contains(only@));
                    LogKey::lemma_view_eq(only, *log_key);
                    assert(old_set != set![log_key@]) by {
                        if old_set == set![log_key@] {
                            assert(set![log_key@].contains(only@));
                        }
                    }
                    assert(!old_set.contains(log_key@)) by {
                        if old_set.contains(log_key@) {
                            assert(old_set.remove(only@).len() == 0);
                            assert(old_set.remove(only@).contains(log_key@));
                            assert(old_set.remove(only@).remove(log_key@).len() + 1 == 0);
                        }
                    }
                    assert(old_set.remove(log_key@) =~= old_set);
                    assert(map_of(s)[key@] == old_set);
                    assert(map_of(s).insert(key@, old_set) =~= map_of(s));
                }
            }
            return;
        }
        let mut e = self.entries.remove(pos);
        let res = e.1.remove(log_key);
        let ghost new_set = e.1@;
        proof {
            lemma_sorted_update(s, pos as int, k, new_set);
            assert(old_set.len() != 1);
            assert(old_set != set![log_key@]) by {
                if old_set == set![log_key@] {
                    assert(set![log_key@].len() == 1);
                }
            }
            if res is Err {
                assert(!old_set.contains(log_key@));
                assert(old_set.remove(log_key@) =~= old_set);
            }
        }
        self.entries.insert(pos, e);
        assert(self.rows() =~= s.update(pos as int, (k, new_set)));
        assert forall|i: int| 0 <= i < self.entries@.len() implies (
        #[trigger] self.entries@[i]).1.wf() by {
            if i != pos {
                assert(self.entries@[i] == old(self).entries@[i]);
            }
        }
    }

    /// Removes `key` with its whole set.
    pub fn remove_key(&mut self, key: &IndexableValue)
        requires
            old(self).wf(),
        ensures
            final(self).wf(),
            final(self).spec_map() == old(self).spec_map().remove(key@),
            final(self).keys_of(key@) == Seq::<u64>::empty(),
    {
        let ghost s = self.rows();
        proof {
            lemma_map_of_sorted(s);
            lemma_key_lt_irreflexive(key@);
        }
        let (pos, found) = locate::<LogKeySet, Set<u64>>(&self.entries, key, Ghost(s));
        if found {
            proof {
                lemma_sorted_remove(s, pos as int);
            }
            self.entries.remove(pos);
            assert(self.rows() =~= s.remove(pos as int));
            assert forall|i: int| 0 <= i < self.entries@.len() implies (
            #[trigger] self.entries@[i]).1.wf() by {
                if i < pos {
                    assert(self.entries@[i] == old(self).entries@[i]);
                } else {
                    assert(self.entries@[i] == old(self).entries@[i + 1]);
                }
            }
        } else {
            proof {
                if map_of(s).contains_key(key@) {
                    let i = choose|i: int| 0 <= i < s.len() && s[i].0 == key@;
                    if i < pos {
                        assert(key_lt(s[i].0, key@));
                    } else {
                        assert(key_lt(key@, s[i].0));
                    }
                }
                assert(map_of(s).remove(key@) =~= map_of(s));
            }
        }
        proof {
            let t = self.rows();
            let o = self.ordered_rows();
            lemma_map_of_sorted(t);
            assert(!map_of(t).contains_key(key@));
            if exists|i: int| 0 <= i < o.len() && o[i].0 == key@ {
                let i = choose|i: int| 0 <= i < o.len() && o[i].0 == key@;
                assert(t[i].0 == key@);
            }
        }
    }

    /// The log keys of the keys in the range: key order, then increasing log keys.
    pub fn range(&self, lo: &Bound<IndexableValue>, hi: &Bound<IndexableValue>) -> (r: Vec<LogKey>)
        ensures
            r@.map_values(|k: LogKey| k@) == range_sets(self.ordered_rows(), lo@, hi@),
    {
        let ghost s = self.ordered_rows();
        let mut out: Vec<LogKey> = Vec::new();
        let mut i: usize = 0;
        while i < self.entries.len()
            invariant
                i <= s.len(),
                s == self.ordered_rows(),
                out@.map_values(|k: LogKey| k@) == range_sets(s.take(i as int), lo@, hi@),
            decreases s.len() - i,
        {
            assert(s.take(i + 1).drop_last() =~= s.take(i as int));
            let e = &self.entries[i];
            if bounds_contain(&e.0, lo, hi) {
                let keys = e.1.iter();
                let ghost before = out@;
                let mut j: usize = 0;
                while j < keys.len()
                    invariant
                        j <= keys@.len(),
                        keys@ == e.1.ordered(),
                        out@ == before + keys@.take(j as int),
                    decreases keys@.len() - j,
                {
                    out.push(keys[j]);
                    j = j + 1;
                    assert(out@ =~= before + keys@.take(j as int));
                }
                assert(keys@.take(j as int) =~= keys@);
                assert(out@.map_values(|k: LogKey| k@) =~= before.map_values(|k: LogKey| k@)
                    + e.1.ordered().map_values(|k: LogKey| k@));
            }
            i = i + 1;
            assert(out@.map_values(|k: LogKey| k@) =~= range_sets(s.take(i as int), lo@, hi@));
        }
        assert(s.take(i as int) =~= s);
        out
    }
}

} // verus!
