use vstd::prelude::*;

use crate::types::BulkString;

verus! {

/// Keys removed one after another from `m`: how many of them were there when their turn
/// came.
pub open spec fn removed_count(m: Map<Seq<u8>, Seq<u8>>, keys: Seq<Seq<u8>>) -> int
    decreases keys.len(),
{
    if keys.len() == 0 {
        0
    } else {
        (if m.contains_key(keys[0]) {
            1int
        } else {
            0
        }) + removed_count(m.remove(keys[0]), keys.drop_first())
    }
}

/// Deleting keys, a key asked for twice included, returns the number of distinct keys asked
/// for that the mapping held, each present key counted once and absent ones skipped; and
/// none of the keys is left.
pub proof fn lemma_delete_count(m: Map<Seq<u8>, Seq<u8>>, keys: Seq<Seq<u8>>)
    ensures
        removed_count(m, keys) == keys.to_set().intersect(m.dom()).len(),
        forall|i: int| 0 <= i < keys.len() ==> !m.remove_keys(keys.to_set()).contains_key(#[trigger] keys[i]),
    decreases keys.len(),
{
    assert forall|i: int| 0 <= i < keys.len() implies !m.remove_keys(keys.to_set()).contains_key(#[trigger] keys[i]) by {
        assert(keys.to_set().contains(keys[i]));
    }
    vstd::seq_lib::seq_to_set_is_finite(keys);
    if keys.len() == 0 {
        assert(keys.to_set().intersect(m.dom()) =~= Set::<Seq<u8>>::empty());
    } else {
        let k = keys[0];
        let rest = keys.drop_first();
        let m2 = m.remove(k);
        lemma_delete_count(m2, rest);
        vstd::seq_lib::seq_to_set_is_finite(rest);
        let s1 = rest.to_set().intersect(m2.dom());
        let s0 = keys.to_set().intersect(m.dom());
        vstd::set::axiom_set_intersect_finite(rest.to_set(), m2.dom());
        assert forall|x: Seq<u8>| #[trigger] keys.to_set().contains(x) <==> x == k || rest.to_set().contains(x) by {
            if keys.to_set().contains(x) && x != k {
                let j = choose|j: int| 0 <= j < keys.len() && keys[j] == x;
                assert(rest[j - 1] == x);
            }
            if rest.to_set().contains(x) {
                let j = choose|j: int| 0 <= j < rest.len() && rest[j] == x;
                assert(keys[j + 1] == x);
            }
            if x == k {
                assert(keys[0] == x);
            }
        }
        if m.contains_key(k) {
            assert(s0 =~= s1.insert(k));
            vstd::set::axiom_set_insert_len(s1, k);
        } else {
            assert(s0 =~= s1);
        }
    }
}

/// The key-value mapping that every connection shares: byte-string keys to byte-string
/// values.
pub struct Storage {
    entries: Vec<(Vec<u8>, Vec<u8>)>,
    model: Ghost<Map<Seq<u8>, Seq<u8>>>,
}

impl View for Storage {
    type V = Map<Seq<u8>, Seq<u8>>;

    closed spec fn view(&self) -> Map<Seq<u8>, Seq<u8>> {
        self.model@
    }
}

impl Storage {
    /// The entries hold each key once, and they are exactly the mapping.
    pub closed spec fn wf(&self) -> bool {
        &&& forall|i: int, j: int|
            0 <= i < j < self.entries@.len() ==> (#[trigger] self.entries@[i]).0@
                != (#[trigger] self.entries@[j]).0@
        &&& forall|i: int|
            0 <= i < self.entries@.len() ==> self.model@.contains_key((#[trigger] self.entries@[i]).0@)
                && self.model@[self.entries@[i].0@] == self.entries@[i].1@
        &&& forall|k: Seq<u8>|
            #[trigger] self.model@.contains_key(k) ==> exists|i: int|
                0 <= i < self.entries@.len() && (#[trigger] self.entries@[i]).0@ == k
    }

    /// An empty store.
    pub fn new() -> (r: Storage)
        ensures
            r.wf(),
            r@ == Map::<Seq<u8>, Seq<u8>>::empty(),
    {
        Storage { entries: Vec::new(), model: Ghost(Map::empty()) }
    }

    /// Where `key` stands among the entries.
    fn find(&self, key: &Vec<u8>) -> (r: Option<usize>)
        requires
            self.wf(),
        ensures
            match r {
                Some(i) => i < self.entries@.len() && self.entries@[i as int].0@ == key@,
                None => !self@.contains_key(key@),
            },
    {
        let mut i: usize = 0;
        while i < self.entries.len()
            invariant
                i <= self.entries@.len(),
                forall|j: int| 0 <= j < i ==> (#[trigger] self.entries@[j]).0@ != key@,
            decreases self.entries@.len() - i,
        {
            if bytes_equal(&self.entries[i].0, key) {
                return Some(i);
            }
            i = i + 1;
        }
        None
    }

    /// The value stored under `key`, if any.
    pub fn get(&mut self, key: BulkString) -> (r: Option<BulkString>)
        requires
            old(self).wf(),
        ensures
            final(self).wf(),
            final(self)@ == old(self)@,
            match r {
                Some(v) => old(self)@.contains_key(key@) && v@ == old(self)@[key@],
                None => !old(self)@.contains_key(key@),
            },
    {
        match self.find(&key.0) {
            Some(i) => Some(BulkString(self.entries[i].1.clone())),
            None => None,
        }
    }

    /// Stores `value` under `key`; says whether a value was there before.
    pub fn set(&mut self, key: BulkString, value: BulkString) -> (r: bool)
        requires
            old(self).wf(),
        ensures
            final(self).wf(),
            final(self)@ == old(self)@.insert(key@, value@),
            r == old(self)@.contains_key(key@),
    {
        let ghost k = key@;
        let ghost v = value@;
        match self.find(&key.0) {
            Some(i) => {
                self.entries.set(i, (key.0, value.0));
                self.model = Ghost(self.model@.insert(k, v));
                assert forall|k2: Seq<u8>| #[trigger] self.model@.contains_key(k2) implies exists|j: int|
                    0 <= j < self.entries@.len() && (#[trigger] self.entries@[j]).0@ == k2 by {
                    if k2 != k {
                        let j = choose|j: int|
                            0 <= j < old(self).entries@.len() && (#[trigger] old(self).entries@[j]).0@ == k2;
                        assert(self.entries@[j] == old(self).entries@[j]);
                    } else {
                        assert(self.entries@[i as int].0@ == k2);
                    }
                }
                true
            },
            None => {
                self.entries.push((key.0, value.0));
                self.model = Ghost(self.model@.insert(k, v));
                assert forall|k2: Seq<u8>| #[trigger] self.model@.contains_key(k2) implies exists|j: int|
                    0 <= j < self.entries@.len() && (#[trigger] self.entries@[j]).0@ == k2 by {
                    if k2 != k {
                        let j = choose|j: int|
                            0 <= j < old(self).entries@.len() && (#[trigger] old(self).entries@[j]).0@ == k2;
                        assert(self.entries@[j] == old(self).entries@[j]);
                    } else {
                        assert(self.entries@[self.entries@.len() - 1].0@ == k2);
                    }
                }
                false
            },
        }
    }

    /// Removes the entry of `key`, if there is one; says whether there was.
    fn remove_key(&mut self, key: &Vec<u8>) -> (r: bool)
        requires
            old(self).wf(),
        ensures
            final(self).wf(),
            final(self)@ == old(self)@.remove(key@),
            r == old(self)@.contains_key(key@),
    {
        match self.find(key) {
            Some(i) => {
                let ghost k = key@;
                self.entries.remove(i);
                self.model = Ghost(self.model@.remove(k));
                assert forall|i2: int|
                    0 <= i2 < self.entries@.len() implies self.model@.contains_key(
                    (#[trigger] self.entries@[i2]).0@) && self.model@[self.entries@[i2].0@]
                    == self.entries@[i2].1@ by {
                    if i2 < i {
                        assert(self.entries@[i2] == old(self).entries@[i2]);
                    } else {
                        assert(self.entries@[i2] == old(self).entries@[i2 + 1]);
                    }
                }
                assert forall|k2: Seq<u8>| #[trigger] self.model@.contains_key(k2) implies exists|j: int|
                    0 <= j < self.entries@.len() && (#[trigger] self.entries@[j]).0@ == k2 by {
                    let j = choose|j: int|
                        0 <= j < old(self).entries@.len() && (#[trigger] old(self).entries@[j]).0@ == k2;
                    if j < i {
                        assert(self.entries@[j] == old(self).entries@[j]);
                    } else {
                        assert(j != i);
                        assert(self.entries@[j - 1] == old(self).entries@[j]);
                    }
                }
                true
            },
            None => {
                assert(self.model@.remove(key@) =~= self.model@);
                false
            },
        }
    }

    /// Removes each of `keys` that is present; returns how many were removed.
    pub fn del(&mut self, keys: Vec<BulkString>) -> (r: i64)
        requires
            old(self).wf(),
            keys@.len() <= i64::MAX,
        ensures
            final(self).wf(),
            final(self)@ == old(self)@.remove_keys(keys@.map_values(|k: BulkString| k@).to_set()),
            r == removed_count(old(self)@, keys@.map_values(|k: BulkString| k@)),
    {
        let ghost ks = keys@.map_values(|k: BulkString| k@);
        let mut removed: i64 = 0;
        let mut i: usize = 0;
        assert(ks.subrange(0, 0) =~= Seq::<Seq<u8>>::empty());
        assert(ks.subrange(0, ks.len() as int) =~= ks);
        assert(self@.remove_keys(Seq::<Seq<u8>>::empty().to_set()) =~= self@);
        while i < keys.len()
            invariant
                self.wf(),
                i <= keys@.len() <= i64::MAX,
                ks == keys@.map_values(|k: BulkString| k@),
                0 <= removed <= i,
                self@ == old(self)@.remove_keys(ks.subrange(0, i as int).to_set()),
                removed + removed_count(self@, ks.subrange(i as int, ks.len() as int)) == removed_count(
                    old(self)@,
                    ks,
                ),
            decreases keys@.len() - i,
        {
            let ghost before = self@;
            let ghost rest = ks.subrange(i as int, ks.len() as int);
            assert(rest[0] == keys@[i as int]@);
            assert(rest.drop_first() =~= ks.subrange(i + 1, ks.len() as int));
            if self.remove_key(&keys[i].0) {
                removed = removed + 1;
            }
            assert(ks.subrange(0, i + 1) =~= ks.subrange(0, i as int).push(ks[i as int]));
            proof { ks.subrange(0, i as int).lemma_push_to_set_commute(ks[i as int]); }
            assert(self@ =~= old(self)@.remove_keys(ks.subrange(0, i + 1).to_set()));
            i = i + 1;
        }
        assert(ks.subrange(0, i as int) =~= ks);
        removed
    }

    /// Adds `value` to the end of the value under `key`, taken as empty where there is
    /// none; returns the new length.
    pub fn append(&mut self, key: BulkString, value: BulkString) -> (r: i64)
        requires
            old(self).wf(),
            (if old(self)@.contains_key(key@) {
                old(self)@[key@].len()
            } else {
                0
            }) + value@.len() <= i64::MAX,
        ensures
            final(self).wf(),
            final(self)@ == old(self)@.insert(
                key@,
                (if old(self)@.contains_key(key@) {
                    old(self)@[key@]
                } else {
                    Seq::empty()
                }) + value@,
            ),
            r == final(self)@[key@].len(),
    {
        let ghost prior = if self@.contains_key(key@) {
            self@[key@]
        } else {
            Seq::<u8>::empty()
        };
        let mut current = match self.find(&key.0) {
            Some(i) => BulkString(self.entries[i].1.clone()),
            None => BulkString(Vec::new()),
        };
        let mut suffix = value;
        current.append(&mut suffix);
        let len = current.0.len();
        assert(current@ == prior + value@);
        self.set(key, current);
        len as i64
    }

    /// Every key present, each once. The pattern is accepted and not applied.
    pub fn keys(&mut self, _key: BulkString) -> (r: Vec<BulkString>)
        requires
            old(self).wf(),
        ensures
            final(self).wf(),
            final(self)@ == old(self)@,
            forall|i: int, j: int| 0 <= i < j < r@.len() ==> (#[trigger] r@[i])@ != (#[trigger] r@[j])@,
            r@.map_values(|k: BulkString| k@).to_set() == old(self)@.dom(),
    {
        let mut out: Vec<BulkString> = Vec::new();
        let mut i: usize = 0;
        while i < self.entries.len()
            invariant
                self.wf(),
                self@ == old(self)@,
                i <= self.entries@.len(),
                out@.len() == i,
                forall|j: int| 0 <= j < i ==> (#[trigger] out@[j])@ == self.entries@[j].0@,
            decreases self.entries@.len() - i,
        {
            out.push(BulkString(self.entries[i].0.clone()));
            i = i + 1;
        }
        assert forall|a: int, b: int| 0 <= a < b < out@.len() implies (#[trigger] out@[a])@ != (
        #[trigger] out@[b])@ by {
            assert(self.entries@[a].0@ != self.entries@[b].0@);
        }
        let ghost ks = out@.map_values(|k: BulkString| k@);
        assert forall|k: Seq<u8>| ks.to_set().contains(k) <==> self@.dom().contains(k) by {
            if self@.dom().contains(k) {
                let j = choose|j: int| 0 <= j < self.entries@.len() && (#[trigger] self.entries@[j]).0@ == k;
                assert(ks[j] == k);
            }
            if ks.to_set().contains(k) {
                let j = choose|j: int| 0 <= j < ks.len() && ks[j] == k;
                assert(out@[j]@ == self.entries@[j].0@);
            }
        }
        assert(ks.to_set() =~= self@.dom());
        out
    }

    /// 1 where `key` is present, else 0.
    pub fn key_exists(&mut self, key: BulkString) -> (r: i64)
        requires
            old(self).wf(),
        ensures
            final(self).wf(),
            final(self)@ == old(self)@,
            r == (if old(self)@.contains_key(key@) {
                1int
            } else {
                0
            }),
    {
        match self.find(&key.0) {
            Some(_) => 1,
            None => 0,
        }
    }

    /// The length of the value under `key`, 0 where there is none.
    pub fn value_len(&self, key: &BulkString) -> (r: usize)
        requires
            self.wf(),
        ensures
            r == (if self@.contains_key(key@) {
                self@[key@].len()
            } else {
                0
            }),
    {
        match self.find(&key.0) {
            Some(i) => self.entries[i].1.len(),
            None => 0,
        }
    }

    /// Removes every entry.
    pub fn clear(&mut self)
        requires
            old(self).wf(),
        ensures
            final(self).wf(),
            final(self)@ == Map::<Seq<u8>, Seq<u8>>::empty(),
    {
        self.entries.clear();
        self.model = Ghost(Map::empty());
    }
}

/// Whether two byte strings are equal.
fn bytes_equal(a: &Vec<u8>, b: &Vec<u8>) -> (r: bool)
    ensures
        r == (a@ == b@),
{
    if a.len() != b.len() {
        return false;
    }
    let mut i: usize = 0;
    while i < a.len()
        invariant
            i <= a@.len() == b@.len(),
            forall|j: int| 0 <= j < i ==> a@[j] == b@[j],
        decreases a@.len() - i,
    {
        if a[i] != b[i] {
            return false;
        }
        i = i + 1;
    }
    assert(a@ =~= b@);
    true
}

} // verus!
