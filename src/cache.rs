//! The bookkeeping of a least-recently-used cache of remote objects in local
//! files, bounded by a byte budget. Fetching, writing and deleting the files
//! is the caller's part: this table says which file serves a key, which files
//! to delete after an insertion, and which entries are leased by readers and
//! so may not be evicted.

use vstd::prelude::*;
use crate::path::{Path, raw_of};

verus! {

/// A failure of the cache table.
#[derive(Debug)]
pub enum CacheError {
    /// The entry is leased by a reader and cannot be evicted now.
    UnableToEvict { name: String },
}

/// One cached object.
#[derive(Debug)]
pub struct CacheEntry {
    key: String,
    local_file: String,
    size: u64,
    leases: u64,
}

/// The mathematical value of a [`CacheEntry`].
pub struct EntryView {
    pub key: Seq<char>,
    pub file: Seq<char>,
    pub size: nat,
    pub leases: nat,
}

impl View for CacheEntry {
    type V = EntryView;

    closed spec fn view(&self) -> EntryView {
        EntryView {
            key: self.key@,
            file: self.local_file@,
            size: self.size as nat,
            leases: self.leases as nat,
        }
    }
}

impl CacheEntry {
    fn duplicate(&self) -> (r: CacheEntry)
        ensures
            r@ == self@,
    {
        CacheEntry {
            key: self.key.clone(),
            local_file: self.local_file.clone(),
            size: self.size,
            leases: self.leases,
        }
    }
}

/// The total size of a sequence of entries.
pub open spec fn sum_sizes(es: Seq<EntryView>) -> nat
    decreases es.len(),
{
    if es.len() == 0 {
        0
    } else {
        sum_sizes(es.drop_last()) + es.last().size
    }
}

/// The running total when eviction, walking the entries from the least
/// recently used on and starting from `total`, reaches entry `i`.
pub open spec fn running_total(es: Seq<EntryView>, total: int, limit: int, i: nat) -> int
    decreases i,
{
    if i == 0 {
        total
    } else {
        let r = running_total(es, total, limit, (i - 1) as nat);
        if r > limit && es[i - 1].leases == 0 {
            r - es[i - 1].size
        } else {
            r
        }
    }
}

/// Whether eviction removes entry `i`: the budget is still exceeded when it
/// is reached and no reader holds it.
pub open spec fn evicts(es: Seq<EntryView>, total: int, limit: int, i: nat) -> bool {
    running_total(es, total, limit, i) > limit && es[i as int].leases == 0
}

/// The entries among the first `n` that eviction keeps, in order.
pub open spec fn kept_upto(es: Seq<EntryView>, total: int, limit: int, n: nat) -> Seq<EntryView>
    decreases n,
{
    if n == 0 {
        Seq::empty()
    } else {
        let k = kept_upto(es, total, limit, (n - 1) as nat);
        if evicts(es, total, limit, (n - 1) as nat) {
            k
        } else {
            k.push(es[n - 1])
        }
    }
}

/// The files of the entries among the first `n` that eviction removes, in
/// order.
pub open spec fn evicted_upto(es: Seq<EntryView>, total: int, limit: int, n: nat) -> Seq<
    Seq<char>,
>
    decreases n,
{
    if n == 0 {
        Seq::empty()
    } else {
        let k = evicted_upto(es, total, limit, (n - 1) as nat);
        if evicts(es, total, limit, (n - 1) as nat) {
            k.push(es[n - 1].file)
        } else {
            k
        }
    }
}

/// The entries of `es` that survive eviction under `limit` when a new entry
/// of `incoming` bytes is being added (the new entry itself is not evicted).
pub open spec fn lru_kept(es: Seq<EntryView>, incoming: nat, limit: int) -> Seq<EntryView> {
    kept_upto(es, (sum_sizes(es) + incoming) as int, limit, es.len())
}

/// The files that this eviction removes.
pub open spec fn lru_evicted(es: Seq<EntryView>, incoming: nat, limit: int) -> Seq<Seq<char>> {
    evicted_upto(es, (sum_sizes(es) + incoming) as int, limit, es.len())
}

pub open spec fn keys_unique(es: Seq<EntryView>) -> bool {
    forall|i: int, j: int| 0 <= i < j < es.len() ==> es[i].key != es[j].key
}

pub open spec fn entries_view(v: Seq<CacheEntry>) -> Seq<EntryView> {
    v.map_values(|e: CacheEntry| e@)
}

/// Where a key's entry stands, if it is cached.
pub open spec fn index_of_key(es: Seq<EntryView>, key: Seq<char>) -> Option<int> {
    if exists|i: int| 0 <= i < es.len() && es[i].key == key {
        Some(choose|i: int| 0 <= i < es.len() && es[i].key == key)
    } else {
        None
    }
}

/// An entry moved to the most recently used end.
pub open spec fn touched(es: Seq<EntryView>, i: int) -> Seq<EntryView> {
    es.remove(i).push(es[i])
}

/// The result of registering a fetched object.
#[derive(Debug)]
pub struct Inserted {
    /// The local file that now serves the key.
    pub path: String,
    /// Local files that are no longer referenced and should be deleted.
    pub evicted: Vec<String>,
}

/// A least-recently-used table of cached objects, least recently used first.
#[derive(Debug)]
pub struct LocalFSCache {
    entries: Vec<CacheEntry>,
    total: u64,
    limit: u64,
}

proof fn lemma_sum_remove(es: Seq<EntryView>, i: int)
    requires
        0 <= i < es.len(),
    ensures
        sum_sizes(es) == sum_sizes(es.remove(i)) + es[i].size,
    decreases es.len(),
{
    if i == es.len() - 1 {
        assert(es.remove(i) =~= es.drop_last());
    } else {
        lemma_sum_remove(es.drop_last(), i);
        assert(es.remove(i).drop_last() =~= es.drop_last().remove(i));
        assert(es.remove(i).last() == es.last());
    }
}

proof fn lemma_touched(es: Seq<EntryView>, i: int)
    requires
        0 <= i < es.len(),
        keys_unique(es),
    ensures
        keys_unique(touched(es, i)),
        sum_sizes(touched(es, i)) == sum_sizes(es),
{
    lemma_sum_remove(es, i);
    let t = touched(es, i);
    assert(t.drop_last() =~= es.remove(i));
    assert forall|a: int, b: int| 0 <= a < b < t.len() implies t[a].key != t[b].key by {
        let ia = if a < i { a } else { a + 1 };
        let ib = if b == t.len() - 1 { i } else if b < i { b } else { b + 1 };
        assert(t[a] == es[ia]);
        assert(t[b] == es[ib]);
    }
}

proof fn lemma_running_monotone(es: Seq<EntryView>, total: int, limit: int, j: nat, i: nat)
    requires
        j <= i,
    ensures
        running_total(es, total, limit, j) >= running_total(es, total, limit, i),
    decreases i - j,
{
    if j < i {
        lemma_running_monotone(es, total, limit, j, (i - 1) as nat);
    }
}

proof fn lemma_running_accounts(es: Seq<EntryView>, total: int, limit: int, n: nat)
    requires
        n <= es.len(),
    ensures
        running_total(es, total, limit, n) == total - sum_sizes(es.take(n as int)) + sum_sizes(
            kept_upto(es, total, limit, n),
        ),
    decreases n,
{
    if n > 0 {
        lemma_running_accounts(es, total, limit, (n - 1) as nat);
        assert(es.take(n as int).drop_last() =~= es.take(n - 1));
        assert(es.take(n as int).last() == es[n - 1]);
        let k = kept_upto(es, total, limit, (n - 1) as nat);
        assert(k.push(es[n - 1]).drop_last() =~= k);
    }
}

/// Eviction never removes an entry that a reader holds.
pub proof fn lemma_eviction_spares_leased(es: Seq<EntryView>, incoming: nat, limit: int, i: nat)
    requires
        i < es.len(),
        es[i as int].leases > 0,
    ensures
        !evicts(es, (sum_sizes(es) + incoming) as int, limit, i),
{
}

/// Every entry that a reader holds survives eviction, however old it is.
pub proof fn lemma_leased_entries_kept(es: Seq<EntryView>, incoming: nat, limit: int, i: nat)
    requires
        i < es.len(),
        es[i as int].leases > 0,
    ensures
        lru_kept(es, incoming, limit).contains(es[i as int]),
{
    lemma_kept_contains(es, (sum_sizes(es) + incoming) as int, limit, i, es.len());
}

proof fn lemma_kept_contains(es: Seq<EntryView>, total: int, limit: int, i: nat, n: nat)
    requires
        i < n <= es.len(),
        es[i as int].leases > 0,
    ensures
        kept_upto(es, total, limit, n).contains(es[i as int]),
    decreases n,
{
    let k = kept_upto(es, total, limit, (n - 1) as nat);
    if i == n - 1 {
        assert(k.push(es[i as int])[k.len() as int] == es[i as int]);
    } else {
        lemma_kept_contains(es, total, limit, i, (n - 1) as nat);
        let w = choose|w: int| 0 <= w < k.len() && k[w] == es[i as int];
        if !evicts(es, total, limit, (n - 1) as nat) {
            assert(k.push(es[n - 1])[w] == es[i as int]);
        }
    }
}

/// Eviction goes from the least recently used on: an entry is removed only
/// after every older entry that no reader holds.
pub proof fn lemma_eviction_oldest_first(
    es: Seq<EntryView>,
    incoming: nat,
    limit: int,
    j: nat,
    i: nat,
)
    requires
        j < i < es.len(),
        evicts(es, (sum_sizes(es) + incoming) as int, limit, i),
        es[j as int].leases == 0,
    ensures
        evicts(es, (sum_sizes(es) + incoming) as int, limit, j),
{
    lemma_running_monotone(es, (sum_sizes(es) + incoming) as int, limit, j, i);
}

/// After eviction the kept entries and the new one fit the budget, unless
/// every kept entry is held by a reader.
pub proof fn lemma_eviction_reaches_budget(es: Seq<EntryView>, incoming: nat, limit: int)
    ensures
        sum_sizes(lru_kept(es, incoming, limit)) + incoming <= limit || forall|i: int|
            0 <= i < lru_kept(es, incoming, limit).len() ==> #[trigger] lru_kept(
                es,
                incoming,
                limit,
            )[i].leases > 0,
{
    let total = (sum_sizes(es) + incoming) as int;
    let n = es.len();
    lemma_running_accounts(es, total, limit, n);
    assert(es.take(n as int) =~= es);
    if sum_sizes(lru_kept(es, incoming, limit)) + incoming > limit {
        lemma_kept_leased(es, total, limit, n);
    }
}

proof fn lemma_kept_leased(es: Seq<EntryView>, total: int, limit: int, n: nat)
    requires
        n <= es.len(),
        running_total(es, total, limit, es.len()) > limit,
    ensures
        forall|i: int|
            0 <= i < kept_upto(es, total, limit, n).len() ==> #[trigger] kept_upto(
                es,
                total,
                limit,
                n,
            )[i].leases > 0,
    decreases n,
{
    if n > 0 {
        lemma_kept_leased(es, total, limit, (n - 1) as nat);
        lemma_running_monotone(es, total, limit, (n - 1) as nat, es.len());
        let k = kept_upto(es, total, limit, (n - 1) as nat);
        let k2 = kept_upto(es, total, limit, n);
        assert forall|i: int| 0 <= i < k2.len() implies #[trigger] k2[i].leases > 0 by {
            if i < k.len() {
                assert(k2[i] == k[i]);
            }
        }
    }
}

proof fn lemma_evicted_from(es: Seq<EntryView>, total: int, limit: int, n: nat)
    requires
        n <= es.len(),
    ensures
        forall|i: int|
            0 <= i < evicted_upto(es, total, limit, n).len() ==> exists|j: int|
                0 <= j < n && es[j].file == #[trigger] evicted_upto(es, total, limit, n)[i],
    decreases n,
{
    if n > 0 {
        lemma_evicted_from(es, total, limit, (n - 1) as nat);
        let k = evicted_upto(es, total, limit, (n - 1) as nat);
        let k2 = evicted_upto(es, total, limit, n);
        assert forall|i: int| 0 <= i < k2.len() implies exists|j: int|
            0 <= j < n && es[j].file == #[trigger] k2[i] by {
            if i < k.len() {
                assert(k2[i] == k[i]);
                let j = choose|j: int| 0 <= j < n - 1 && es[j].file == k[i];
                assert(es[j].file == k2[i]);
            } else {
                assert(es[n - 1].file == k2[i]);
            }
        }
    }
}

proof fn lemma_kept_keys(es: Seq<EntryView>, total: int, limit: int, n: nat)
    requires
        n <= es.len(),
        keys_unique(es),
    ensures
        keys_unique(kept_upto(es, total, limit, n)),
        forall|i: int|
            0 <= i < kept_upto(es, total, limit, n).len() ==> exists|j: int|
                0 <= j < n && es[j] == #[trigger] kept_upto(es, total, limit, n)[i],
    decreases n,
{
    if n > 0 {
        lemma_kept_keys(es, total, limit, (n - 1) as nat);
        let k = kept_upto(es, total, limit, (n - 1) as nat);
        if !evicts(es, total, limit, (n - 1) as nat) {
            let k2 = k.push(es[n - 1]);
            assert forall|a: int, b: int| 0 <= a < b < k2.len() implies k2[a].key != k2[b].key by {
                if b == k2.len() - 1 {
                    let j = choose|j: int| 0 <= j < n - 1 && es[j] == k[a];
                    assert(k2[a] == es[j]);
                } else {
                    assert(k2[a] == k[a] && k2[b] == k[b]);
                }
            }
            assert forall|i: int| 0 <= i < k2.len() implies exists|j: int|
                0 <= j < n && es[j] == #[trigger] k2[i] by {
                if i == k2.len() - 1 {
                    assert(es[n - 1] == k2[i]);
                } else {
                    let j = choose|j: int| 0 <= j < n - 1 && es[j] == k[i];
                    assert(es[j] == k2[i]);
                }
            }
        }
    }
}

impl LocalFSCache {
    pub closed spec fn entries(&self) -> Seq<EntryView> {
        entries_view(self.entries@)
    }

    pub closed spec fn limit_spec(&self) -> nat {
        self.limit as nat
    }

    pub closed spec fn total_spec(&self) -> nat {
        self.total as nat
    }

    pub open spec fn wf(&self) -> bool {
        &&& keys_unique(self.entries())
        &&& self.total_spec() == sum_sizes(self.entries())
    }

    /// An empty cache with a budget of `limit` bytes.
    pub fn new(limit: u64) -> (c: LocalFSCache)
        ensures
            c.wf(),
            c.entries().len() == 0,
            c.limit_spec() == limit,
    {
        let c = LocalFSCache { entries: Vec::new(), total: 0, limit };
        assert(c.entries() =~= Seq::<EntryView>::empty());
        c
    }

    /// The size in bytes of all files in the cache.
    pub fn size(&self) -> (n: u64)
        ensures
            n == self.total_spec(),
    {
        self.total
    }

    /// The configured budget in bytes.
    pub fn limit(&self) -> (n: u64)
        ensures
            n == self.limit_spec(),
    {
        self.limit
    }

    /// The number of cached objects.
    pub fn len(&self) -> (n: usize)
        ensures
            n == self.entries().len(),
    {
        self.entries.len()
    }

    fn find(&self, key: &String) -> (r: Option<usize>)
        ensures
            match r {
                Some(i) => i < self.entries().len() && self.entries()[i as int].key == key@,
                None => forall|i: int|
                    0 <= i < self.entries().len() ==> self.entries()[i].key != key@,
            },
    {
        let mut i: usize = 0;
        while i < self.entries.len()
            invariant
                i <= self.entries@.len(),
                forall|j: int| 0 <= j < i ==> self.entries()[j].key != key@,
            decreases self.entries@.len() - i,
        {
            if self.entries[i].key == *key {
                return Some(i);
            }
            i = i + 1;
        }
        None
    }

    proof fn lemma_index_unique(&self, key: Seq<char>, i: int)
        requires
            self.wf(),
            0 <= i < self.entries().len(),
            self.entries()[i].key == key,
        ensures
            index_of_key(self.entries(), key) == Some(i),
    {
        let es = self.entries();
        let c = choose|j: int| 0 <= j < es.len() && es[j].key == key;
        if c != i {
            assert(es[c].key == es[i].key);
        }
    }

    /// Moves entry `i` to the most recently used end.
    fn touch(&mut self, i: usize)
        requires
            old(self).wf(),
            i < old(self).entries().len(),
        ensures
            final(self).wf(),
            final(self).entries() == touched(old(self).entries(), i as int),
            final(self).limit_spec() == old(self).limit_spec(),
            final(self).total_spec() == old(self).total_spec(),
    {
        let ghost es = self.entries();
        let e = self.entries.remove(i);
        self.entries.push(e);
        assert(self.entries() =~= touched(es, i as int));
        proof {
            lemma_touched(es, i as int);
        }
    }

    /// The local file that serves `key`, if it is cached; a hit makes the
    /// entry the most recently used.
    pub fn lookup(&mut self, key: &Path) -> (r: Option<String>)
        requires
            old(self).wf(),
        ensures
            final(self).wf(),
            final(self).limit_spec() == old(self).limit_spec(),
            final(self).total_spec() == old(self).total_spec(),
            match index_of_key(old(self).entries(), raw_of(key@)) {
                Some(i) => r matches Some(f) && f@ == old(self).entries()[i].file
                    && final(self).entries() == touched(old(self).entries(), i),
                None => r is None && final(self).entries() == old(self).entries(),
            },
    {
        let k = key.to_raw();
        match self.find(&k) {
            Some(i) => {
                proof {
                    self.lemma_index_unique(k@, i as int);
                }
                let f = self.entries[i].local_file.clone();
                self.touch(i);
                Some(f)
            },
            None => None,
        }
    }

    /// Like [`Self::lookup`], and on a hit also takes a lease on the entry,
    /// which keeps it from eviction until [`Self::release`] is called. Does
    /// not lease where the lease count is saturated.
    pub fn lease(&mut self, key: &Path) -> (r: Option<String>)
        requires
            old(self).wf(),
        ensures
            final(self).wf(),
            final(self).limit_spec() == old(self).limit_spec(),
            final(self).total_spec() == old(self).total_spec(),
            match index_of_key(old(self).entries(), raw_of(key@)) {
                Some(i) => {
                    let e = old(self).entries()[i];
                    if e.leases < u64::MAX {
                        r matches Some(f) && f@ == e.file && final(self).entries() == touched(
                            old(self).entries(),
                            i,
                        ).update(
                            old(self).entries().len() - 1,
                            EntryView { leases: e.leases + 1, ..e },
                        )
                    } else {
                        r is None && final(self).entries() == old(self).entries()
                    }
                },
                None => r is None && final(self).entries() == old(self).entries(),
            },
    {
        let k = key.to_raw();
        match self.find(&k) {
            Some(i) => {
                proof {
                    self.lemma_index_unique(k@, i as int);
                }
                if self.entries[i].leases == u64::MAX {
                    return None;
                }
                let f = self.entries[i].local_file.clone();
                self.touch(i);
                let last = self.entries.len() - 1;
                let ghost before = self.entries();
                let mut e = self.entries.pop().unwrap();
                e.leases = e.leases + 1;
                self.entries.push(e);
                proof {
                    assert(self.entries() =~= before.update(last as int, self.entries()[last as int]));
                    assert(self.entries().drop_last() =~= before.drop_last());
                    assert forall|a: int, b: int|
                        0 <= a < b < self.entries().len() implies self.entries()[a].key
                        != self.entries()[b].key by {
                        assert(before[a].key != before[b].key);
                    }
                }
                Some(f)
            },
            None => None,
        }
    }

    /// Gives back a lease taken by [`Self::lease`]. Returns whether one was
    /// held.
    pub fn release(&mut self, key: &Path) -> (released: bool)
        requires
            old(self).wf(),
        ensures
            final(self).wf(),
            final(self).limit_spec() == old(self).limit_spec(),
            final(self).total_spec() == old(self).total_spec(),
            match index_of_key(old(self).entries(), raw_of(key@)) {
                Some(i) => {
                    let e = old(self).entries()[i];
                    if e.leases > 0 {
                        released && final(self).entries() == old(self).entries().update(
                            i,
                            EntryView { leases: (e.leases - 1) as nat, ..e },
                        )
                    } else {
                        !released && final(self).entries() == old(self).entries()
                    }
                },
                None => !released && final(self).entries() == old(self).entries(),
            },
    {
        let k = key.to_raw();
        match self.find(&k) {
            Some(i) => {
                proof {
                    self.lemma_index_unique(k@, i as int);
                }
                if self.entries[i].leases == 0 {
                    return false;
                }
                let ghost before = self.entries();
                let mut e = self.entries[i].duplicate();
                e.leases = e.leases - 1;
                self.entries.set(i, e);
                proof {
                    assert(self.entries() =~= before.update(i as int, self.entries()[i as int]));
                    assert forall|a: int, b: int|
                        0 <= a < b < self.entries().len() implies self.entries()[a].key
                        != self.entries()[b].key by {
                        assert(before[a].key != before[b].key);
                    }
                    lemma_sum_remove(before, i as int);
                    lemma_sum_remove(self.entries(), i as int);
                    assert(before.remove(i as int) =~= self.entries().remove(i as int));
                }
                true
            },
            None => false,
        }
    }

    /// Removes `key`'s entry, handing back its local file for deletion. An
    /// absent key is no error; a leased entry cannot be evicted.
    pub fn evict(&mut self, key: &Path) -> (r: Result<Option<String>, CacheError>)
        requires
            old(self).wf(),
        ensures
            final(self).wf(),
            final(self).limit_spec() == old(self).limit_spec(),
            match index_of_key(old(self).entries(), raw_of(key@)) {
                Some(i) => if old(self).entries()[i].leases > 0 {
                    r is Err && final(self).entries() == old(self).entries()
                } else {
                    r matches Ok(Some(f)) && f@ == old(self).entries()[i].file
                        && final(self).entries() == old(self).entries().remove(i)
                },
                None => r matches Ok(None) && final(self).entries() == old(self).entries(),
            },
    {
        let k = key.to_raw();
        match self.find(&k) {
            Some(i) => {
                proof {
                    self.lemma_index_unique(k@, i as int);
                }
                if self.entries[i].leases > 0 {
                    return Err(CacheError::UnableToEvict { name: k });
                }
                let ghost before = self.entries();
                let e = self.entries.remove(i);
                proof {
                    assert(self.entries() =~= before.remove(i as int));
                    lemma_sum_remove(before, i as int);
                    assert forall|a: int, b: int|
                        0 <= a < b < self.entries().len() implies self.entries()[a].key
                        != self.entries()[b].key by {
                        let ia = if a < i { a } else { a + 1 };
                        let ib = if b < i { b } else { b + 1 };
                        assert(self.entries()[a] == before[ia]);
                        assert(self.entries()[b] == before[ib]);
                    }
                }
                self.total = self.total - e.size;
                Ok(Some(e.local_file))
            },
            None => Ok(None),
        }
    }

    /// Whether some entry is served by the local file `file`.
    pub fn holds_file(&self, file: &String) -> (b: bool)
        ensures
            b == exists|i: int| 0 <= i < self.entries().len() && self.entries()[i].file == file@,
    {
        let mut i: usize = 0;
        while i < self.entries.len()
            invariant
                i <= self.entries@.len(),
                forall|j: int| 0 <= j < i ==> self.entries()[j].file != file@,
            decreases self.entries@.len() - i,
        {
            if self.entries[i].local_file == *file {
                proof {
                    assert(self.entries()[i as int].file == file@);
                }
                return true;
            }
            i = i + 1;
        }
        false
    }

    /// Registers a freshly fetched object stored in `local_file`, after
    /// evicting least recently used entries that no reader holds until the
    /// older entries and the new one fit the budget. The new entry is never
    /// evicted: it ends up the most recently used. Where another caller
    /// registered the key meanwhile, that entry is kept (and made most
    /// recently used) and `local_file` is handed back for deletion instead.
    pub fn insert(&mut self, key: &Path, local_file: String, size: u64) -> (r: Inserted)
        requires
            old(self).wf(),
            old(self).total_spec() + size <= u64::MAX,
            forall|i: int|
                0 <= i < old(self).entries().len() ==> old(self).entries()[i].file != local_file@,
        ensures
            final(self).wf(),
            final(self).limit_spec() == old(self).limit_spec(),
            final(self).entries().len() > 0,
            final(self).entries().last().key == raw_of(key@),
            final(self).entries().last().file == r.path@,
            forall|j: int| 0 <= j < r.evicted@.len() ==> r.evicted@[j]@ != r.path@,
            match index_of_key(old(self).entries(), raw_of(key@)) {
                Some(i) => r.path@ == old(self).entries()[i].file && r.evicted@.map_values(
                    |s: String| s@,
                ) == seq![local_file@] && final(self).entries() == touched(old(self).entries(), i),
                None => {
                    let es = old(self).entries();
                    let limit = old(self).limit_spec() as int;
                    &&& r.path@ == local_file@
                    &&& final(self).entries() == lru_kept(es, size as nat, limit).push(
                        EntryView { key: raw_of(key@), file: local_file@, size: size as nat, leases: 0 },
                    )
                    &&& r.evicted@.map_values(|s: String| s@) == lru_evicted(es, size as nat, limit)
                    &&& (final(self).total_spec() <= limit || forall|i: int|
                        0 <= i < final(self).entries().len() - 1
                            ==> #[trigger] final(self).entries()[i].leases > 0)
                },
            },
    {
        let k = key.to_raw();
        match self.find(&k) {
            Some(i) => {
                proof {
                    self.lemma_index_unique(k@, i as int);
                }
                let f = self.entries[i].local_file.clone();
                self.touch(i);
                let mut evicted: Vec<String> = Vec::new();
                evicted.push(local_file);
                assert(evicted@.map_values(|s: String| s@) =~= seq![local_file@]);
                Inserted { path: f, evicted }
            },
            None => {
                let path = local_file.clone();
                let ghost es = self.entries();
                let ghost limit = self.limit as int;
                let evicted = self.evict_over_budget(size);
                let ghost kept = self.entries();
                proof {
                    lemma_kept_keys(es, (sum_sizes(es) + size) as int, limit, es.len());
                    lemma_evicted_from(es, (sum_sizes(es) + size) as int, limit, es.len());
                    lemma_eviction_reaches_budget(es, size as nat, limit);
                    assert forall|j: int| 0 <= j < evicted@.len() implies evicted@[j]@ != path@ by {
                        assert(evicted@.map_values(|s: String| s@)[j] == evicted@[j]@);
                        let w = choose|w: int| 0 <= w < es.len() && es[w].file == evicted@.map_values(
                            |s: String| s@,
                        )[j];
                    }
                }
                self.entries.push(CacheEntry { key: k, local_file, size, leases: 0 });
                self.total = self.total + size;
                let ghost grown = self.entries();
                proof {
                    assert(grown.drop_last() =~= kept);
                    assert(sum_sizes(grown) == sum_sizes(kept) + size);
                    assert forall|a: int, b: int| 0 <= a < b < grown.len() implies grown[a].key
                        != grown[b].key by {
                        if b < grown.len() - 1 {
                            assert(kept[a].key != kept[b].key);
                        } else {
                            assert(grown[a] == kept[a]);
                            let w = choose|w: int| 0 <= w < es.len() && es[w] == kept[a];
                        }
                    }
                    assert forall|i: int| 0 <= i < grown.len() - 1 implies grown[i] == kept[i] by {}
                }
                Inserted { path, evicted }
            },
        }
    }

    /// Walks the entries from the least recently used on, removing those that
    /// no reader holds while the total, with `incoming` bytes still to come,
    /// exceeds the budget.
    fn evict_over_budget(&mut self, incoming: u64) -> (evicted: Vec<String>)
        requires
            old(self).wf(),
            old(self).total_spec() + incoming <= u64::MAX,
        ensures
            final(self).wf(),
            final(self).limit_spec() == old(self).limit_spec(),
            final(self).total_spec() <= old(self).total_spec(),
            final(self).entries() == lru_kept(
                old(self).entries(),
                incoming as nat,
                old(self).limit_spec() as int,
            ),
            evicted@.map_values(|s: String| s@) == lru_evicted(
                old(self).entries(),
                incoming as nat,
                old(self).limit_spec() as int,
            ),
    {
        let ghost es = self.entries();
        let ghost total0 = self.total + incoming;
        let ghost limit = self.limit as int;
        let mut rest: Vec<CacheEntry> = Vec::new();
        core::mem::swap(&mut rest, &mut self.entries);
        let n = rest.len();
        let mut kept: Vec<CacheEntry> = Vec::new();
        let mut evicted: Vec<String> = Vec::new();
        let mut running: u64 = self.total + incoming;
        let mut i: usize = 0;
        proof {
            assert(es.take(0) =~= Seq::<EntryView>::empty());
            assert(entries_view(rest@) =~= es.subrange(0, n as int));
            assert(entries_view(kept@) =~= kept_upto(es, total0, limit, 0));
            assert(evicted@.map_values(|s: String| s@) =~= evicted_upto(es, total0, limit, 0));
        }
        while i < n
            invariant
                n == es.len(),
                i <= n,
                limit == self.limit,
                total0 == (sum_sizes(es) + incoming) as int,
                total0 <= u64::MAX,
                entries_view(rest@) == es.subrange(i as int, n as int),
                entries_view(kept@) == kept_upto(es, total0, limit, i as nat),
                evicted@.map_values(|s: String| s@) == evicted_upto(es, total0, limit, i as nat),
                running == running_total(es, total0, limit, i as nat),
            decreases n - i,
        {
            let ghost rv = rest@;
            assert(entries_view(rv).len() == rv.len());
            assert(entries_view(rv)[0] == rv[0]@);
            let e = rest.remove(0);
            proof {
                assert(rest@ =~= rv.subrange(1, rv.len() as int));
                assert(e@ == es[i as int]);
                assert forall|k: int| 0 <= k < rest@.len() implies entries_view(rest@)[k] == es[i
                    + 1 + k] by {
                    assert(rest@[k] == rv[k + 1]);
                    assert(entries_view(rv)[k + 1] == rv[k + 1]@);
                }
                assert(entries_view(rest@) =~= es.subrange(i + 1, n as int));
                lemma_running_accounts(es, total0, limit, i as nat);
                lemma_sum_take_le(es, i as nat);
                lemma_kept_sum_le(es, total0, limit, i as nat);
                lemma_running_monotone(es, total0, limit, 0, i as nat);
                assert(es.take(i + 1).drop_last() =~= es.take(i as int));
            }
            if running > self.limit && e.leases == 0 {
                running = running - e.size;
                let ghost ev = evicted@;
                evicted.push(e.local_file);
                assert(evicted@.map_values(|s: String| s@) =~= ev.map_values(|s: String| s@).push(
                    es[i as int].file,
                ));
            } else {
                let ghost kv = kept@;
                kept.push(e);
                assert(entries_view(kept@) =~= entries_view(kv).push(es[i as int]));
            }
            i = i + 1;
        }
        proof {
            lemma_running_accounts(es, total0, limit, n as nat);
            assert(es.take(n as int) =~= es);
            lemma_kept_keys(es, total0, limit, n as nat);
            lemma_kept_sum_le(es, total0, limit, n as nat);
        }
        self.entries = kept;
        self.total = running - incoming;
        evicted
    }
}

proof fn lemma_sum_take_le(es: Seq<EntryView>, i: nat)
    requires
        i < es.len(),
    ensures
        sum_sizes(es.take(i as int)) + es[i as int].size <= sum_sizes(es),
    decreases es.len(),
{
    if i < es.len() - 1 {
        lemma_sum_take_le(es.drop_last(), i);
        assert(es.drop_last().take(i as int) =~= es.take(i as int));
    } else {
        assert(es.drop_last() =~= es.take(i as int));
    }
}

proof fn lemma_kept_sum_le(es: Seq<EntryView>, total: int, limit: int, n: nat)
    requires
        n <= es.len(),
    ensures
        sum_sizes(kept_upto(es, total, limit, n)) <= sum_sizes(es.take(n as int)),
    decreases n,
{
    if n > 0 {
        lemma_kept_sum_le(es, total, limit, (n - 1) as nat);
        assert(es.take(n as int).drop_last() =~= es.take(n - 1));
        assert(es.take(n as int).last() == es[n - 1]);
        let k = kept_upto(es, total, limit, (n - 1) as nat);
        assert(k.push(es[n - 1]).drop_last() =~= k);
    }
}

} // verus!
