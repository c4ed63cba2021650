//! The keyed store: byte-string keys bound to byte-string values, each
//! optionally carrying a monotonic deadline in milliseconds. A read past
//! the deadline behaves as if the binding were absent (lazy expiry).
use vstd::prelude::*;

verus! {

/// One binding of the store.
pub struct StoreEntry {
    pub key: Vec<u8>,
    pub value: Vec<u8>,
    pub deadline: Option<u64>,
}

/// The store itself: a mapping from key to (value, optional deadline),
/// kept as a vector of bindings with pairwise distinct keys.
pub struct Store {
    entries: Vec<StoreEntry>,
}

/// The mathematical content of a run of bindings, later ones winning.
pub open spec fn entries_map(s: Seq<StoreEntry>) -> Map<Seq<u8>, (Seq<u8>, Option<u64>)>
    decreases s.len(),
{
    if s.len() == 0 {
        Map::empty()
    } else {
        entries_map(s.drop_last()).insert(
            s.last().key@,
            (s.last().value@, s.last().deadline),
        )
    }
}

/// No two bindings share a key.
pub open spec fn distinct_keys(s: Seq<StoreEntry>) -> bool {
    forall|i: int, j: int| 0 <= i < j < s.len() ==> s[i].key@ != s[j].key@
}

/// A binding is alive at `now` unless its deadline lies in the past.
pub open spec fn live_at(deadline: Option<u64>, now: u64) -> bool {
    match deadline {
        None => true,
        Some(d) => now <= d,
    }
}

/// What a read of `k` at time `now` must return: the stored value when a
/// live binding exists, nothing otherwise.
pub open spec fn live_value(
    m: Map<Seq<u8>, (Seq<u8>, Option<u64>)>,
    k: Seq<u8>,
    now: u64,
) -> Option<Seq<u8>> {
    if m.contains_key(k) && live_at(m[k].1, now) {
        Some(m[k].0)
    } else {
        None
    }
}

/// What `entries_map` holds, read off the bindings themselves.
pub proof fn lemma_entries_map_props(s: Seq<StoreEntry>)
    requires
        distinct_keys(s),
    ensures
        forall|k: Seq<u8>|
            entries_map(s).contains_key(k) <==> (exists|i: int|
                0 <= i < s.len() && (#[trigger] s[i]).key@ == k),
        forall|i: int|
            0 <= i < s.len() ==> entries_map(s).contains_key((#[trigger] s[i]).key@)
                && entries_map(s)[s[i].key@] == (s[i].value@, s[i].deadline),
    decreases s.len(),
{
    if s.len() > 0 {
        let front = s.drop_last();
        assert(distinct_keys(front));
        lemma_entries_map_props(front);
        assert(forall|i: int| 0 <= i < front.len() ==> front[i] == s[i]);
        assert forall|k: Seq<u8>|
            entries_map(s).contains_key(k) <==> (exists|i: int|
                0 <= i < s.len() && (#[trigger] s[i]).key@ == k) by {
            if entries_map(s).contains_key(k) {
                if k == s.last().key@ {
                    assert(s[s.len() - 1].key@ == k);
                } else {
                    assert(entries_map(front).contains_key(k));
                }
            }
            if exists|i: int| 0 <= i < s.len() && (#[trigger] s[i]).key@ == k {
                let i = choose|i: int| 0 <= i < s.len() && (#[trigger] s[i]).key@ == k;
                if i < s.len() - 1 {
                    assert(front[i].key@ == k);
                    assert(entries_map(front).contains_key(k));
                }
            }
        }
        assert forall|i: int|
            0 <= i < s.len() implies entries_map(s).contains_key((#[trigger] s[i]).key@)
            && entries_map(s)[s[i].key@] == (s[i].value@, s[i].deadline) by {
            if i < s.len() - 1 {
                assert(front[i] == s[i]);
                assert(s[i].key@ != s.last().key@);
            }
        }
    }
}

/// Replacing the binding at `i` with one of the same key turns the map's
/// entry for that key over, and touches nothing else.
pub proof fn lemma_entries_map_update(s: Seq<StoreEntry>, i: int, e: StoreEntry)
    requires
        distinct_keys(s),
        0 <= i < s.len(),
        e.key@ == s[i].key@,
    ensures
        entries_map(s.update(i, e)) == entries_map(s).insert(e.key@, (e.value@, e.deadline)),
    decreases s.len(),
{
    let t = s.update(i, e);
    if i == s.len() - 1 {
        assert(t.drop_last() =~= s.drop_last());
        assert(t.last() == e);
        assert(entries_map(s).insert(e.key@, (e.value@, e.deadline)) =~= entries_map(
            s.drop_last(),
        ).insert(e.key@, (e.value@, e.deadline)));
    } else {
        let front = s.drop_last();
        assert(distinct_keys(front));
        assert(forall|j: int| 0 <= j < front.len() ==> front[j] == s[j]);
        assert(front[i] == s[i]);
        lemma_entries_map_update(front, i, e);
        assert(t.drop_last() =~= front.update(i, e));
        assert(t.last() == s.last());
        let k = e.key@;
        let klast = s.last().key@;
        assert(k != klast);
        assert(entries_map(t) == entries_map(front.update(i, e)).insert(
            klast,
            (s.last().value@, s.last().deadline),
        ));
        assert(entries_map(front).insert(k, (e.value@, e.deadline)).insert(
            klast,
            (s.last().value@, s.last().deadline),
        ) =~= entries_map(front).insert(klast, (s.last().value@, s.last().deadline)).insert(
            k,
            (e.value@, e.deadline),
        ));
    }
}

impl View for Store {
    type V = Map<Seq<u8>, (Seq<u8>, Option<u64>)>;

    closed spec fn view(&self) -> Map<Seq<u8>, (Seq<u8>, Option<u64>)> {
        entries_map(self.entries@)
    }
}

impl Store {
    /// The store's internal bindings never repeat a key.
    pub closed spec fn wf(self) -> bool {
        distinct_keys(self.entries@)
    }

    /// An empty store.
    pub fn new() -> (r: Store)
        ensures
            r.wf(),
            r@ == Map::<Seq<u8>, (Seq<u8>, Option<u64>)>::empty(),
    {
        Store { entries: Vec::new() }
    }

    /// The position of the binding for `key`, if one exists.
    fn find(&self, key: &[u8]) -> (r: Option<usize>)
        ensures
            r matches Some(i) ==> i < self.entries@.len() && self.entries@[i as int].key@ == key@,
            r is None ==> forall|i: int|
                0 <= i < self.entries@.len() ==> (#[trigger] self.entries@[i]).key@ != key@,
    {
        let mut i: usize = 0;
        let n = self.entries.len();
        while i < n
            invariant
                0 <= i <= n,
                n == self.entries@.len(),
                forall|j: int| 0 <= j < i ==> (#[trigger] self.entries@[j]).key@ != key@,
            decreases n - i,
        {
            let e = &self.entries[i];
            if crate::ascii::bytes_eq(e.key.as_slice(), key) {
                return Some(i);
            }
            i = i + 1;
        }
        None
    }

    /// Binds `key` to `value`, replacing any prior binding together with
    /// its deadline: a call without a deadline clears any old one.
    pub fn set(&mut self, key: Vec<u8>, value: Vec<u8>, deadline: Option<u64>)
        requires
            old(self).wf(),
        ensures
            final(self).wf(),
            final(self)@ == old(self)@.insert(key@, (value@, deadline)),
    {
        let entry = StoreEntry { key, value, deadline };
        match self.find(entry.key.as_slice()) {
            Some(i) => {
                proof {
                    lemma_entries_map_update(self.entries@, i as int, entry);
                    assert(distinct_keys(self.entries@.update(i as int, entry)));
                }
                self.entries.set(i, entry);
            },
            None => {
                proof {
                    let s = self.entries@.push(entry);
                    assert(s.drop_last() =~= self.entries@);
                    assert(s.last() == entry);
                    assert(distinct_keys(s));
                }
                self.entries.push(entry);
            },
        }
    }

    /// Reads `key` at time `now`: the bound value while it is live, and
    /// nothing once the deadline has passed or no binding exists.
    pub fn get(&self, key: &[u8], now: u64) -> (r: Option<Vec<u8>>)
        requires
            self.wf(),
        ensures
            r matches Some(v) ==> live_value(self@, key@, now) == Some(v@),
            r is None ==> live_value(self@, key@, now) is None,
    {
        proof {
            lemma_entries_map_props(self.entries@);
        }
        match self.find(key) {
            Some(i) => {
                let e = &self.entries[i];
                let live = match e.deadline {
                    None => true,
                    Some(d) => now <= d,
                };
                if live {
                    Some(vstd::slice::slice_to_vec(e.value.as_slice()))
                } else {
                    None
                }
            },
            None => {
                proof {
                    if self@.contains_key(key@) {
                        let i = choose|i: int|
                            0 <= i < self.entries@.len() && (#[trigger] self.entries@[i]).key@
                                == key@;
                        assert(false);
                    }
                }
                None
            },
        }
    }
}

/// A read after an unconditional write returns the written value: a GET
/// after `SET k v` with no expiry yields `v`, at any later time.
pub proof fn lemma_get_after_set(
    m: Map<Seq<u8>, (Seq<u8>, Option<u64>)>,
    k: Seq<u8>,
    v: Seq<u8>,
    now: u64,
)
    ensures
        live_value(m.insert(k, (v, None)), k, now) == Some(v),
{
}

/// Expiry: after `SET k v` with a deadline, a read before the deadline
/// returns `v` and a read after it returns nothing.
pub proof fn lemma_expiry(
    m: Map<Seq<u8>, (Seq<u8>, Option<u64>)>,
    k: Seq<u8>,
    v: Seq<u8>,
    deadline: u64,
    now: u64,
)
    ensures
        now < deadline ==> live_value(m.insert(k, (v, Some(deadline))), k, now) == Some(v),
        now > deadline ==> live_value(m.insert(k, (v, Some(deadline))), k, now) is None,
{
}

/// Overwriting clears the old deadline: a `SET k v1` with expiry followed
/// by `SET k v2` without one leaves `v2` readable at every later time.
pub proof fn lemma_overwrite_clears_expiry(
    m: Map<Seq<u8>, (Seq<u8>, Option<u64>)>,
    k: Seq<u8>,
    v1: Seq<u8>,
    deadline: u64,
    v2: Seq<u8>,
    now: u64,
)
    ensures
        live_value(m.insert(k, (v1, Some(deadline))).insert(k, (v2, None)), k, now) == Some(v2),
{
}

/// Disjoint keys do not interfere: a write to one key leaves every other
/// key's binding, and so every read of another key, exactly as it was.
pub proof fn lemma_disjoint_keys(
    m: Map<Seq<u8>, (Seq<u8>, Option<u64>)>,
    k: Seq<u8>,
    v: Seq<u8>,
    deadline: Option<u64>,
    k2: Seq<u8>,
    now: u64,
)
    requires
        k2 != k,
    ensures
        live_value(m.insert(k, (v, deadline)), k2, now) == live_value(m, k2, now),
{
}

} // verus!
