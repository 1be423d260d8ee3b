//! Log keys and non-empty sets of them.

use vstd::prelude::*;
use crate::error::{DBError, ValidationErrorKind};

verus! {

/// The number of values a record index can take: it has 48 bits.
pub open spec fn index_limit() -> int {
    0x1_0000_0000_0000
}

/// The packed value of a log key for a segment number and an index.
pub open spec fn pack_log_key(segment_num: u16, index: u64) -> u64
    recommends
        index < index_limit(),
{
    (segment_num as int * index_limit() + index) as u64
}

/// A record's position in the log: the segment number in the high 16 bits, the
/// index within the segment in the low 48 bits. Keys order as (segment, index).
#[derive(Debug, Clone, Copy, PartialEq, Eq, Structural, PartialOrd, Ord, Hash)]
pub struct LogKey(u64);

impl View for LogKey {
    type V = u64;

    closed spec fn view(&self) -> u64 {
        self.0
    }
}

impl LogKey {
    pub open spec fn spec_segment_num(self) -> u16 {
        (self@ as int / index_limit()) as u16
    }

    pub open spec fn spec_index(self) -> u64 {
        (self@ as int % index_limit()) as u64
    }

    /// Two log keys are equal exactly when their packed values are.
    pub proof fn lemma_view_eq(a: LogKey, b: LogKey)
        ensures
            (a@ == b@) == (a == b),
    {
    }

    /// A packed value splits back into its segment number and index.
    pub proof fn lemma_pack(segment_num: u16, index: u64)
        requires
            index < index_limit(),
        ensures
            pack_log_key(segment_num, index) as int / index_limit() == segment_num,
            pack_log_key(segment_num, index) as int % index_limit() == index,
    {
        let v = segment_num as int * index_limit() + index;
        assert(v < 0x1_0000_0000_0000_0000) by (nonlinear_arith)
            requires
                segment_num < 0x1_0000,
                index < 0x1_0000_0000_0000,
                v == segment_num as int * 0x1_0000_0000_0000 + index,
        ;
        vstd::arithmetic::div_mod::lemma_fundamental_div_mod_converse(
            v,
            index_limit(),
            segment_num as int,
            index as int,
        );
    }

    /// The parts of a log key, read from its packed value.
    pub proof fn lemma_parts(self)
        ensures
            self.spec_segment_num() as int == self@ as int / index_limit(),
            self.spec_index() as int == self@ as int % index_limit(),
            self@ == pack_log_key(self.spec_segment_num(), self.spec_index()),
    {
        let v = self@ as int;
        vstd::arithmetic::div_mod::lemma_fundamental_div_mod(v, index_limit());
        assert(v / index_limit() < 0x1_0000) by (nonlinear_arith)
            requires
                0 <= v < 0x1_0000_0000_0000_0000,
                v == index_limit() * (v / index_limit()) + v % index_limit(),
                0 <= v % index_limit(),
                index_limit() == 0x1_0000_0000_0000,
        ;
    }

    pub fn new(segment_num: u16, index: u64) -> (r: LogKey)
        requires
            index < index_limit(),
        ensures
            r@ == pack_log_key(segment_num, index),
            r.spec_segment_num() == segment_num,
            r.spec_index() == index,
    {
        let v = ((segment_num as u64) << 48u64) | index;
        assert(v == ((segment_num as u64) << 48u64) | index);
        assert(((segment_num as u64) << 48u64) | index == (segment_num as u64) * 0x1_0000_0000_0000u64
            + index) by (bit_vector)
            requires
                index < 0x1_0000_0000_0000u64,
        ;
        LogKey(v)
    }

    /// The segment number: the high 16 bits.
    pub fn segment_num(&self) -> (r: u16)
        ensures
            r == self.spec_segment_num(),
    {
        let x = self.0;
        assert(x >> 48u64 == x / 0x1_0000_0000_0000u64) by (bit_vector);
        (x >> 48u64) as u16
    }

    /// The index within the segment: the low 48 bits.
    pub fn index(&self) -> (r: u64)
        ensures
            r == self.spec_index(),
    {
        let x = self.0;
        assert(x & 0x0000_FFFF_FFFF_FFFFu64 == x % 0x1_0000_0000_0000u64) by (bit_vector);
        x & 0x0000_FFFF_FFFF_FFFFu64
    }
}

/// Whether `s` is strictly increasing by packed value.
pub open spec fn strictly_increasing(s: Seq<LogKey>) -> bool {
    forall|i: int, j: int| 0 <= i < j < s.len() ==> s[i]@ < s[j]@
}

proof fn lemma_singleton_to_set(x: u64)
    ensures
        seq![x].to_set() == set![x],
{
    assert forall|y: u64| seq![x].to_set().contains(y) <==> set![x].contains(y) by {
        if y == x {
            assert(seq![x][0] == y);
        }
    }
    assert(seq![x].to_set() =~= set![x]);
}

/// A non-empty set of log keys, held in increasing order.
#[derive(Debug, Clone, PartialEq, Eq)]
pub struct LogKeySet {
    keys: Vec<LogKey>,
}

impl View for LogKeySet {
    type V = Set<u64>;

    closed spec fn view(&self) -> Set<u64> {
        self.keys@.map_values(|k: LogKey| k@).to_set()
    }
}

impl LogKeySet {
    pub closed spec fn wf(&self) -> bool {
        self.keys@.len() > 0 && strictly_increasing(self.keys@)
    }

    /// The keys in increasing order.
    pub closed spec fn ordered(&self) -> Seq<LogKey> {
        self.keys@
    }

    pub proof fn lemma_ordered(&self)
        requires
            self.wf(),
        ensures
            self.ordered().len() > 0,
            strictly_increasing(self.ordered()),
            self@.finite(),
            forall|k: u64| #[trigger]
                self@.contains(k) <==> exists|i: int|
                    0 <= i < self.ordered().len() && #[trigger] self.ordered()[i]@ == k,
            self@.len() == self.ordered().len(),
    {
        let s = self.keys@.map_values(|k: LogKey| k@);
        assert forall|k: u64| #[trigger]
            self@.contains(k) <==> exists|i: int|
                0 <= i < self.ordered().len() && #[trigger] self.ordered()[i]@ == k by {
            if self@.contains(k) {
                let i = choose|i: int| 0 <= i < s.len() && s[i] == k;
                assert(self.ordered()[i]@ == k);
            }
            if exists|i: int| 0 <= i < self.ordered().len() && #[trigger] self.ordered()[i]@ == k {
                let i = choose|i: int| 0 <= i < self.ordered().len() && #[trigger] self.ordered()[i]@ == k;
                assert(s[i] == k);
            }
        }
        assert(s.no_duplicates());
        s.unique_seq_to_set();
    }

    /// The position at which `key` stands, or would be inserted.
    fn position(&self, key: &LogKey) -> (r: (usize, bool))
        requires
            strictly_increasing(self.keys@),
        ensures
            r.0 <= self.keys@.len(),
            forall|i: int| 0 <= i < r.0 ==> self.keys@[i]@ < key@,
            r.1 ==> r.0 < self.keys@.len() && self.keys@[r.0 as int]@ == key@,
            !r.1 ==> forall|i: int| r.0 <= i < self.keys@.len() ==> self.keys@[i]@ > key@,
    {
        let mut i: usize = 0;
        while i < self.keys.len()
            invariant
                i <= self.keys@.len(),
                strictly_increasing(self.keys@),
                forall|j: int| 0 <= j < i ==> self.keys@[j]@ < key@,
            decreases self.keys@.len() - i,
        {
            if self.keys[i].0 == key.0 {
                return (i, true);
            }
            if self.keys[i].0 > key.0 {
                return (i, false);
            }
            i = i + 1;
        }
        (i, false)
    }

    /// A set that holds `key` alone.
    pub fn new_with_initial(key: &LogKey) -> (r: Self)
        ensures
            r.wf(),
            r@ == set![key@],
    {
        let mut keys: Vec<LogKey> = Vec::new();
        keys.push(*key);
        let r = LogKeySet { keys };
        assert(r.keys@.map_values(|k: LogKey| k@) =~= seq![key@]);
        proof {
            lemma_singleton_to_set(key@);
        }
        r
    }

    /// The set of the keys in `keys`, which must not be empty.
    pub fn from_slice(keys: &[LogKey]) -> (r: Self)
        requires
            keys@.len() > 0,
        ensures
            r.wf(),
            r@ == keys@.map_values(|k: LogKey| k@).to_set(),
    {
        let mut r = LogKeySet::new_with_initial(&keys[0]);
        assert(keys@.take(1).map_values(|k: LogKey| k@) =~= seq![keys@[0]@]);
        proof {
            lemma_singleton_to_set(keys@[0]@);
        }
        let mut i: usize = 1;
        while i < keys.len()
            invariant
                1 <= i <= keys@.len(),
                r.wf(),
                r@ == keys@.take(i as int).map_values(|k: LogKey| k@).to_set(),
            decreases keys@.len() - i,
        {
            r.insert(keys[i]);
            proof {
                let a = keys@.take(i as int).map_values(|k: LogKey| k@);
                let b = keys@.take(i + 1).map_values(|k: LogKey| k@);
                assert(b =~= a.push(keys@[i as int]@));
                assert(b.to_set() =~= a.to_set().insert(keys@[i as int]@)) by {
                    assert forall|x: u64| b.contains(x) <==> a.contains(x) || x == keys@[i as int]@ by {
                        if b.contains(x) {
                            let j = choose|j: int| 0 <= j < b.len() && b[j] == x;
                            if j < a.len() {
                                assert(a[j] == x);
                            }
                        }
                        if a.contains(x) {
                            let j = choose|j: int| 0 <= j < a.len() && a[j] == x;
                            assert(b[j] == x);
                        }
                        if x == keys@[i as int]@ {
                            assert(b[i as int] == x);
                        }
                    }
                }
            }
            i = i + 1;
        }
        proof {
            assert(keys@.take(keys@.len() as int) =~= keys@);
        }
        r
    }

    /// The keys, in increasing order.
    pub fn iter(&self) -> (r: &[LogKey])
        ensures
            r@ == self.ordered(),
    {
        self.keys.as_slice()
    }

    /// The number of keys in the set.
    pub fn len(&self) -> (r: usize)
        requires
            self.wf(),
        ensures
            r == self@.len(),
    {
        proof {
            self.lemma_ordered();
        }
        self.keys.len()
    }

    /// The largest key; sets compare by it.
    pub fn max_key(&self) -> (r: LogKey)
        requires
            self.wf(),
        ensures
            self@.contains(r@),
            forall|k: u64| self@.contains(k) ==> k <= r@,
    {
        proof {
            self.lemma_ordered();
        }
        let r = self.keys[self.keys.len() - 1];
        assert(self.ordered()[self.keys@.len() - 1]@ == r@);
        r
    }

    /// Adds `key` to the set.
    pub fn insert(&mut self, key: LogKey)
        requires
            old(self).wf(),
        ensures
            final(self).wf(),
            final(self)@ == old(self)@.insert(key@),
    {
        let (pos, found) = self.position(&key);
        if !found {
            proof {
                old(self).lemma_ordered();
            }
            self.keys.insert(pos, key);
            proof {
                let o = old(self).keys@;
                let n = self.keys@;
                assert(n =~= o.insert(pos as int, key));
                assert forall|x: u64| #[trigger] self@.contains(x) <==> old(self)@.insert(key@).contains(
                    x,
                ) by {
                    let sn = n.map_values(|k: LogKey| k@);
                    let so = o.map_values(|k: LogKey| k@);
                    if self@.contains(x) {
                        let j = choose|j: int| 0 <= j < sn.len() && sn[j] == x;
                        if j < pos {
                            assert(so[j] == x);
                        } else if j > pos {
                            assert(so[j - 1] == x);
                        }
                    }
                    if old(self)@.contains(x) {
                        let j = choose|j: int| 0 <= j < so.len() && so[j] == x;
                        if j < pos {
                            assert(sn[j] == x);
                        } else {
                            assert(sn[j + 1] == x);
                        }
                    }
                    if x == key@ {
                        assert(sn[pos as int] == x);
                    }
                }
                assert(self@ =~= old(self)@.insert(key@));
            }
        } else {
            proof {
                old(self).lemma_ordered();
                assert(old(self)@.contains(key@));
                assert(self@ =~= old(self)@.insert(key@));
            }
        }
    }

    /// Removes `key`. Fails when `key` is the last one left, and when it is not
    /// in the set; the set is then unchanged.
    pub fn remove(&mut self, key: &LogKey) -> (r: Result<(), DBError>)
        requires
            old(self).wf(),
        ensures
            final(self).wf(),
            old(self)@.len() == 1 ==> r == Err::<(), DBError>(
                DBError::ValidationError(ValidationErrorKind::LastLogKey),
            ),
            old(self)@.len() != 1 && !old(self)@.contains(key@) ==> r == Err::<(), DBError>(
                DBError::ValidationError(ValidationErrorKind::LogKeyNotFound),
            ),
            old(self)@.len() != 1 && old(self)@.contains(key@) ==> r is Ok,
            r is Ok ==> final(self)@ == old(self)@.remove(key@),
            r is Err ==> final(self)@ == old(self)@,
    {
        proof {
            old(self).lemma_ordered();
        }
        if self.keys.len() == 1 {
            return Err(DBError::ValidationError(ValidationErrorKind::LastLogKey));
        }
        let (pos, found) = self.position(key);
        if !found {
            proof {
                if old(self)@.contains(key@) {
                    let j = choose|j: int| 0 <= j < old(self).ordered().len() && #[trigger] old(self).ordered()[j]@ == key@;
                    if j < pos {
                    } else {
                    }
                }
            }
            return Err(DBError::ValidationError(ValidationErrorKind::LogKeyNotFound));
        }
        self.keys.remove(pos);
        proof {
            let o = old(self).keys@;
            let n = self.keys@;
            assert(n =~= o.remove(pos as int));
            assert forall|x: u64| #[trigger] self@.contains(x) <==> old(self)@.remove(key@).contains(
                x,
            ) by {
                let sn = n.map_values(|k: LogKey| k@);
                let so = o.map_values(|k: LogKey| k@);
                if self@.contains(x) {
                    let j = choose|j: int| 0 <= j < sn.len() && sn[j] == x;
                    if j < pos {
                        assert(so[j] == x);
                    } else {
                        assert(so[j + 1] == x);
                    }
                }
                if old(self)@.remove(key@).contains(x) {
                    let j = choose|j: int| 0 <= j < so.len() && so[j] == x;
                    if j < pos {
                        assert(sn[j] == x);
                    } else if j > pos {
                        assert(sn[j - 1] == x);
                    }
                }
            }
            assert(self@ =~= old(self)@.remove(key@));
        }
        Ok(())
    }

    /// The keys, in increasing order.
    pub fn log_keys(&self) -> (r: &Vec<LogKey>)
        ensures
            r@ == self.ordered(),
    {
        &self.keys
    }
}

} // verus!
