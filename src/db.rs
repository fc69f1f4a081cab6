use crate::buf::{bytes_of, clone_bytes};
use bytes::Bytes;
use vstd::prelude::*;

verus! {

/// A stored value with its expiry bookkeeping.
pub struct Entry {
    data: Bytes,
    ttl: Option<u64>,
    inserted_at: u64,
}

/// The mathematical value of an entry.
pub struct EntryModel {
    pub data: Seq<u8>,
    pub ttl: Option<u64>,
    pub inserted_at: u64,
}

impl Entry {
    pub closed spec fn model(&self) -> EntryModel {
        EntryModel { data: bytes_of(self.data), ttl: self.ttl, inserted_at: self.inserted_at }
    }
}

/// An entry is expired once more than its ttl has passed since insertion.
pub open spec fn expired(e: EntryModel, now: u64) -> bool {
    match e.ttl {
        Some(t) => now > e.inserted_at + t,
        None => false,
    }
}

/// What a read of `k` at time `now` returns.
pub open spec fn lookup(m: Map<Seq<char>, EntryModel>, k: Seq<char>, now: u64) -> Option<Seq<u8>> {
    if m.contains_key(k) && !expired(m[k], now) {
        Some(m[k].data)
    } else {
        None
    }
}

/// The store after a read of `k` at time `now`: an expired entry is evicted.
pub open spec fn after_lookup(m: Map<Seq<char>, EntryModel>, k: Seq<char>, now: u64) -> Map<
    Seq<char>,
    EntryModel,
> {
    if m.contains_key(k) && expired(m[k], now) {
        m.remove(k)
    } else {
        m
    }
}

/// What a write of `k` reports: the bytes it replaced, expired or not.
pub open spec fn previous(m: Map<Seq<char>, EntryModel>, k: Seq<char>) -> Option<Seq<u8>> {
    if m.contains_key(k) {
        Some(m[k].data)
    } else {
        None
    }
}

/// The store after a write of `data` under `k` at time `now`.
pub open spec fn stored(
    m: Map<Seq<char>, EntryModel>,
    k: Seq<char>,
    data: Seq<u8>,
    ttl: Option<u64>,
    now: u64,
) -> Map<Seq<char>, EntryModel> {
    m.insert(k, EntryModel { data, ttl, inserted_at: now })
}

/// The key-value store: keys to entries with lazy expiry. Times are
/// milliseconds of a monotonic clock, handed in by the caller.
pub struct Db {
    values: Vec<(String, Entry)>,
    model: Ghost<Map<Seq<char>, EntryModel>>,
}

impl View for Db {
    type V = Map<Seq<char>, EntryModel>;

    closed spec fn view(&self) -> Map<Seq<char>, EntryModel> {
        self.model@
    }
}

pub open spec fn bytes_opt(r: Option<Bytes>) -> Option<Seq<u8>> {
    match r {
        Some(v) => Some(bytes_of(v)),
        None => None,
    }
}

impl Db {
    /// Keys are unique, and the entries are exactly those of the model.
    pub closed spec fn wf(&self) -> bool {
        &&& forall|i: int, j: int|
            0 <= i < j < self.values@.len() ==> #[trigger] self.values@[i].0@
                != #[trigger] self.values@[j].0@
        &&& forall|i: int|
            0 <= i < self.values@.len() ==> self.model@.contains_key(#[trigger] self.values@[i].0@)
                && self.model@[self.values@[i].0@] == self.values@[i].1.model()
        &&& forall|k: Seq<char>|
            #[trigger] self.model@.contains_key(k) ==> exists|i: int|
                0 <= i < self.values@.len() && #[trigger] self.values@[i].0@ == k
    }

    pub fn new() -> (db: Db)
        ensures
            db.wf(),
            db@ == Map::<Seq<char>, EntryModel>::empty(),
    {
        Db { values: Vec::new(), model: Ghost(Map::empty()) }
    }

    fn find(&self, key: &String) -> (r: Option<usize>)
        requires
            self.wf(),
        ensures
            match r {
                Some(i) => i < self.values@.len() && self.values@[i as int].0@ == key@,
                None => !self@.contains_key(key@),
            },
    {
        let mut i: usize = 0;
        while i < self.values.len()
            invariant
                i <= self.values@.len(),
                forall|j: int| 0 <= j < i ==> #[trigger] self.values@[j].0@ != key@,
            decreases self.values@.len() - i,
        {
            if self.values[i].0 == *key {
                return Some(i);
            }
            i = i + 1;
        }
        None
    }

    /// Stores `data` under `key` at time `now`, returning the bytes it replaced.
    pub fn set(&mut self, key: String, data: Bytes, ttl: Option<u64>, now: u64) -> (r: Option<Bytes>)
        requires
            old(self).wf(),
        ensures
            final(self).wf(),
            final(self)@ == stored(old(self)@, key@, bytes_of(data), ttl, now),
            bytes_opt(r) == previous(old(self)@, key@),
    {
        let ghost k = key@;
        let entry = Entry { data, ttl, inserted_at: now };
        let ghost e = entry.model();
        match self.find(&key) {
            Some(i) => {
                let prev = clone_bytes(&self.values[i].1.data);
                self.values[i] = (key, entry);
                self.model = Ghost(self.model@.insert(k, e));
                proof {
                    assert forall|kk: Seq<char>| #[trigger] self.model@.contains_key(kk) implies exists|j: int|
                        0 <= j < self.values@.len() && #[trigger] self.values@[j].0@ == kk by {
                        if kk == k {
                            assert(self.values@[i as int].0@ == kk);
                        } else {
                            let j = choose|j: int| 0 <= j < old(self).values@.len() && #[trigger] old(self).values@[j].0@ == kk;
                            assert(self.values@[j].0@ == kk);
                        }
                    }
                }
                Some(prev)
            },
            None => {
                self.values.push((key, entry));
                self.model = Ghost(self.model@.insert(k, e));
                proof {
                    let n = old(self).values@.len();
                    assert(self.values@[n as int].0@ == k);
                    assert forall|kk: Seq<char>| #[trigger] self.model@.contains_key(kk) implies exists|j: int|
                        0 <= j < self.values@.len() && #[trigger] self.values@[j].0@ == kk by {
                        if kk == k {
                            assert(self.values@[n as int].0@ == kk);
                        } else {
                            let j = choose|j: int| 0 <= j < old(self).values@.len() && #[trigger] old(self).values@[j].0@ == kk;
                            assert(self.values@[j].0@ == kk);
                        }
                    }
                }
                None
            },
        }
    }

    /// Reads `key` at time `now`. An entry whose ttl has elapsed is evicted
    /// and reads as absent.
    pub fn get(&mut self, key: &str, now: u64) -> (r: Option<Bytes>)
        requires
            old(self).wf(),
        ensures
            final(self).wf(),
            final(self)@ == after_lookup(old(self)@, key@, now),
            bytes_opt(r) == lookup(old(self)@, key@, now),
    {
        let owned = key.to_owned();
        let i = match self.find(&owned) {
            Some(i) => i,
            None => {
                return None;
            },
        };
        let ghost k = key@;
        let expired_now = match self.values[i].1.ttl {
            Some(t) => now > self.values[i].1.inserted_at && now - self.values[i].1.inserted_at > t,
            None => false,
        };
        if expired_now {
            let ghost old_values = self.values@;
            self.values.remove(i);
            self.model = Ghost(self.model@.remove(k));
            proof {
                assert forall|a: int, b: int| 0 <= a < b < self.values@.len() implies #[trigger] self.values@[a].0@
                    != #[trigger] self.values@[b].0@ by {
                    let a0 = if a < i { a } else { a + 1 };
                    let b0 = if b < i { b } else { b + 1 };
                    assert(old_values[a0].0@ != old_values[b0].0@);
                }
                assert forall|j: int| 0 <= j < self.values@.len() implies self.model@.contains_key(#[trigger] self.values@[j].0@)
                    && self.model@[self.values@[j].0@] == self.values@[j].1.model() by {
                    let j0 = if j < i { j } else { j + 1 };
                    assert(old_values[j0].0@ != old_values[i as int].0@);
                }
                assert forall|kk: Seq<char>| #[trigger] self.model@.contains_key(kk) implies exists|j: int|
                    0 <= j < self.values@.len() && #[trigger] self.values@[j].0@ == kk by {
                    let j0 = choose|j: int| 0 <= j < old_values.len() && #[trigger] old_values[j].0@ == kk;
                    if j0 < i {
                        assert(self.values@[j0].0@ == kk);
                    } else {
                        assert(j0 != i);
                        assert(self.values@[j0 - 1].0@ == kk);
                    }
                }
            }
            None
        } else {
            Some(clone_bytes(&self.values[i].1.data))
        }
    }
}

/// Writing `v1` then `v2` under one key reports `v1` as replaced, and a read
/// of a value stored without ttl then gives `v2`.
pub proof fn law_overwrite(
    m: Map<Seq<char>, EntryModel>,
    k: Seq<char>,
    v1: Seq<u8>,
    v2: Seq<u8>,
    t1: u64,
    t2: u64,
    t3: u64,
)
    ensures
        previous(stored(m, k, v1, None, t1), k) == Some(v1),
        lookup(stored(stored(m, k, v1, None, t1), k, v2, None, t2), k, t3) == Some(v2),
{
}

/// A value stored with a ttl reads back until the ttl has passed; after that
/// it reads as absent, and so does every later read.
pub proof fn law_ttl(m: Map<Seq<char>, EntryModel>, k: Seq<char>, v: Seq<u8>, ttl: u64, at: u64, now: u64, later: u64)
    requires
        at <= now,
        now <= later,
    ensures
        now <= at + ttl ==> lookup(stored(m, k, v, Some(ttl), at), k, now) == Some(v),
        now > at + ttl ==> lookup(stored(m, k, v, Some(ttl), at), k, now) is None,
        now > at + ttl ==> lookup(after_lookup(stored(m, k, v, Some(ttl), at), k, now), k, later) is None,
{
}

} // verus!
