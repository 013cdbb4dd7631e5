//! An object store held in memory, implementing the uniform contract:
//! `put`, `get`, `delete`, a full `list` and a one-page delimited listing.

use vstd::prelude::*;
use crate::error::{Error, ErrorKind};
use crate::delimited::{ListedObject, ListedView, group_listing, listed_view, children_under, groups_under};
use crate::listing::{ListResult, Timestamp};
use crate::path::{Path, PathView, parse_raw, raw_of, starts_with};

verus! {

/// One stored object.
#[derive(Debug)]
pub struct MemEntry {
    key: String,
    data: Vec<u8>,
    modified: Timestamp,
}

/// The mathematical value of a [`MemEntry`].
pub struct MemEntryView {
    pub key: Seq<char>,
    pub data: Seq<u8>,
    pub modified: i64,
}

impl View for MemEntry {
    type V = MemEntryView;

    closed spec fn view(&self) -> MemEntryView {
        MemEntryView { key: self.key@, data: self.data@, modified: self.modified.millis }
    }
}

pub open spec fn mem_view(v: Seq<MemEntry>) -> Seq<MemEntryView> {
    v.map_values(|e: MemEntry| e@)
}

pub open spec fn mem_keys_unique(es: Seq<MemEntryView>) -> bool {
    forall|i: int, j: int| 0 <= i < j < es.len() ==> es[i].key != es[j].key
}

/// The contents as a map from raw key to bytes.
pub open spec fn contents_of(es: Seq<MemEntryView>) -> Map<Seq<char>, Seq<u8>>
    decreases es.len(),
{
    if es.len() == 0 {
        Map::empty()
    } else {
        contents_of(es.drop_last()).insert(es.last().key, es.last().data)
    }
}

/// What a listing reports of the stored entries, in store order.
pub open spec fn listed_of(es: Seq<MemEntryView>) -> Seq<ListedView> {
    es.map_values(|e: MemEntryView| ListedView { key: e.key, size: e.data.len() as u64, modified: e.modified })
}

/// The keys under `prefix`, in store order.
pub open spec fn keys_under(es: Seq<MemEntryView>, prefix: Seq<char>) -> Seq<Seq<char>>
    decreases es.len(),
{
    if es.len() == 0 {
        Seq::empty()
    } else {
        let front = keys_under(es.drop_last(), prefix);
        if prefix.is_prefix_of(es.last().key) {
            front.push(es.last().key)
        } else {
            front
        }
    }
}

proof fn lemma_contents(es: Seq<MemEntryView>)
    requires
        mem_keys_unique(es),
    ensures
        forall|k: Seq<char>|
            contents_of(es).contains_key(k) <==> exists|i: int| 0 <= i < es.len() && es[i].key == k,
        forall|i: int|
            0 <= i < es.len() ==> #[trigger] contents_of(es)[es[i].key] == es[i].data,
    decreases es.len(),
{
    if es.len() > 0 {
        let f = es.drop_last();
        assert forall|i: int, j: int| 0 <= i < j < f.len() implies f[i].key != f[j].key by {
            assert(f[i] == es[i] && f[j] == es[j]);
        }
        lemma_contents(f);
        assert(contents_of(es) == contents_of(f).insert(es.last().key, es.last().data));
        assert forall|k: Seq<char>|
            contents_of(es).contains_key(k) implies exists|i: int|
                0 <= i < es.len() && es[i].key == k by {
            if k != es.last().key {
                let i = choose|i: int| 0 <= i < f.len() && f[i].key == k;
                assert(es[i] == f[i]);
            } else {
                assert(es[es.len() - 1].key == k);
            }
        }
        assert forall|i: int| 0 <= i < es.len() implies #[trigger] contents_of(es)[es[i].key]
            == es[i].data by {
            if i < es.len() - 1 {
                assert(f[i] == es[i]);
                assert(es[i].key != es[es.len() - 1].key);
            }
        }
        assert forall|k: Seq<char>|
            (exists|i: int| 0 <= i < es.len() && es[i].key == k) implies contents_of(
            es,
        ).contains_key(k) by {
            let i = choose|i: int| 0 <= i < es.len() && es[i].key == k;
            if i < es.len() - 1 {
                assert(f[i] == es[i]);
            }
        }
    }
}

/// An object store in memory.
#[derive(Debug)]
pub struct InMemory {
    entries: Vec<MemEntry>,
}

impl InMemory {
    pub closed spec fn entries(&self) -> Seq<MemEntryView> {
        mem_view(self.entries@)
    }

    /// What the store holds: raw key to bytes.
    pub open spec fn contents(&self) -> Map<Seq<char>, Seq<u8>> {
        contents_of(self.entries())
    }

    pub open spec fn wf(&self) -> bool {
        mem_keys_unique(self.entries())
    }

    /// An empty store.
    pub fn new() -> (s: InMemory)
        ensures
            s.wf(),
            s.contents() == Map::<Seq<char>, Seq<u8>>::empty(),
    {
        let s = InMemory { entries: Vec::new() };
        assert(s.entries() =~= Seq::<MemEntryView>::empty());
        s
    }

    fn find(&self, key: &String) -> (r: Option<usize>)
        requires
            self.wf(),
        ensures
            match r {
                Some(i) => i < self.entries().len() && self.entries()[i as int].key == key@,
                None => !self.contents().contains_key(key@),
            },
    {
        proof {
            lemma_contents(self.entries());
        }
        let mut i: usize = 0;
        while i < self.entries.len()
            invariant
                i <= self.entries@.len(),
                forall|j: int| 0 <= j < i ==> self.entries()[j].key != key@,
            decreases self.entries@.len() - i,
        {
            if self.entries[i].key == *key {
                return Some(i);
            }
            i = i + 1;
        }
        None
    }

    /// Stores `bytes` under `location`, replacing any earlier object there.
    pub fn put(&mut self, location: &Path, bytes: Vec<u8>, modified: Timestamp) -> (r: Result<(), Error>)
        requires
            old(self).wf(),
        ensures
            r is Ok,
            final(self).wf(),
            final(self).contents() == old(self).contents().insert(raw_of(location@), bytes@),
    {
        let key = location.to_raw();
        let ghost es = self.entries();
        let ghost k = key@;
        let ghost d = bytes@;
        proof {
            lemma_contents(es);
        }
        match self.find(&key) {
            Some(i) => {
                self.entries.set(i, MemEntry { key, data: bytes, modified });
                let ghost ns = self.entries();
                proof {
                    assert(ns =~= es.update(i as int, ns[i as int]));
                    assert forall|a: int, b: int| 0 <= a < b < ns.len() implies ns[a].key
                        != ns[b].key by {
                        assert(es[a].key != es[b].key);
                    }
                    lemma_contents(ns);
                    assert forall|q: Seq<char>|
                        #![auto]
                        contents_of(ns).contains_key(q) == contents_of(es).insert(k, d).contains_key(q)
                        by {
                        if contents_of(ns).contains_key(q) {
                            let j = choose|j: int| 0 <= j < ns.len() && ns[j].key == q;
                            if j != i {
                                assert(es[j].key == q);
                            }
                        }
                        if q != k && contents_of(es).contains_key(q) {
                            let j = choose|j: int| 0 <= j < es.len() && es[j].key == q;
                            assert(ns[j].key == q);
                        }
                    }
                    assert forall|q: Seq<char>|
                        #![auto]
                        contents_of(ns).contains_key(q) implies contents_of(ns)[q] == contents_of(
                            es,
                        ).insert(k, d)[q] by {
                        let j = choose|j: int| 0 <= j < ns.len() && ns[j].key == q;
                        assert(contents_of(ns)[ns[j].key] == ns[j].data);
                        if j != i {
                            assert(contents_of(es)[es[j].key] == es[j].data);
                        }
                    }
                    assert(contents_of(ns) =~= contents_of(es).insert(k, d));
                }
            },
            None => {
                self.entries.push(MemEntry { key, data: bytes, modified });
                let ghost ns = self.entries();
                proof {
                    assert(ns.drop_last() =~= es);
                    assert forall|a: int, b: int| 0 <= a < b < ns.len() implies ns[a].key
                        != ns[b].key by {
                        if b < ns.len() - 1 {
                            assert(es[a].key != es[b].key);
                        } else {
                            assert(ns[a] == es[a]);
                        }
                    }
                }
            },
        }
        Ok(())
    }

    /// The bytes stored under `location`; a missing key is `NotFound`.
    pub fn get(&self, location: &Path) -> (r: Result<Vec<u8>, Error>)
        requires
            self.wf(),
        ensures
            match r {
                Ok(d) => self.contents().contains_key(raw_of(location@)) && d@ == self.contents()[raw_of(
                    location@,
                )],
                Err(e) => !self.contents().contains_key(raw_of(location@)) && e.kind
                    == ErrorKind::NotFound,
            },
    {
        let key = location.to_raw();
        proof {
            lemma_contents(self.entries());
        }
        match self.find(&key) {
            Some(i) => {
                assert(self.contents()[self.entries()[i as int].key] == self.entries()[i as int].data);
                Ok(self.entries[i].data.clone())
            },
            None => Err(Error { kind: ErrorKind::NotFound, detail: key }),
        }
    }

    /// Removes the object under `location`. Removing a missing key succeeds.
    pub fn delete(&mut self, location: &Path) -> (r: Result<(), Error>)
        requires
            old(self).wf(),
        ensures
            r is Ok,
            final(self).wf(),
            final(self).contents() == old(self).contents().remove(raw_of(location@)),
    {
        let key = location.to_raw();
        let ghost es = self.entries();
        let ghost k = key@;
        proof {
            lemma_contents(es);
        }
        match self.find(&key) {
            Some(i) => {
                self.entries.remove(i);
                let ghost ns = self.entries();
                proof {
                    assert(ns =~= es.remove(i as int));
                    assert forall|a: int, b: int| 0 <= a < b < ns.len() implies ns[a].key
                        != ns[b].key by {
                        let ia = if a < i { a } else { a + 1 };
                        let ib = if b < i { b } else { b + 1 };
                        assert(ns[a] == es[ia] && ns[b] == es[ib]);
                    }
                    lemma_contents(ns);
                    assert forall|q: Seq<char>|
                        #![auto]
                        contents_of(ns).contains_key(q) == contents_of(es).remove(k).contains_key(q)
                        by {
                        if contents_of(ns).contains_key(q) {
                            let j = choose|j: int| 0 <= j < ns.len() && ns[j].key == q;
                            let jj = if j < i { j } else { j + 1 };
                            assert(ns[j] == es[jj]);
                        }
                        if q != k && contents_of(es).contains_key(q) {
                            let j = choose|j: int| 0 <= j < es.len() && es[j].key == q;
                            if j < i {
                                assert(ns[j] == es[j]);
                            } else {
                                assert(ns[j - 1] == es[j]);
                            }
                        }
                    }
                    assert forall|q: Seq<char>|
                        #![auto]
                        contents_of(ns).contains_key(q) implies contents_of(ns)[q] == contents_of(
                            es,
                        ).remove(k)[q] by {
                        let j = choose|j: int| 0 <= j < ns.len() && ns[j].key == q;
                        let jj = if j < i { j } else { j + 1 };
                        assert(ns[j] == es[jj]);
                        assert(contents_of(ns)[ns[j].key] == ns[j].data);
                        assert(contents_of(es)[es[jj].key] == es[jj].data);
                    }
                    assert(contents_of(ns) =~= contents_of(es).remove(k));
                }
            },
            None => {
                assert(contents_of(es) =~= contents_of(es).remove(k));
            },
        }
        Ok(())
    }

    /// Every path under `prefix` (all of them without one), in store order.
    pub fn list(&self, prefix: Option<&Path>) -> (r: Vec<Path>)
        requires
            self.wf(),
        ensures
            r@.map_values(|p: Path| p@) == keys_under(
                self.entries(),
                match prefix {
                    Some(p) => raw_of(p@),
                    None => Seq::empty(),
                },
            ).map_values(|k: Seq<char>| parse_raw(k)),
    {
        let pre = match prefix {
            Some(p) => p.to_raw(),
            None => String::new(),
        };
        let ghost es = self.entries();
        let mut r: Vec<Path> = Vec::new();
        let mut i: usize = 0;
        while i < self.entries.len()
            invariant
                i <= self.entries@.len(),
                es == self.entries(),
                r@.map_values(|p: Path| p@) == keys_under(es.take(i as int), pre@).map_values(
                    |k: Seq<char>| parse_raw(k),
                ),
            decreases self.entries@.len() - i,
        {
            assert(es.take(i + 1).drop_last() =~= es.take(i as int));
            assert(es.take(i + 1).last() == self.entries@[i as int]@);
            if starts_with(self.entries[i].key.as_str(), pre.as_str()) {
                let ghost before = r@;
                r.push(Path::from_raw(self.entries[i].key.as_str()));
                assert(r@.map_values(|p: Path| p@) =~= before.map_values(|p: Path| p@).push(
                    parse_raw(es[i as int].key),
                ));
                assert(keys_under(es.take(i + 1), pre@).map_values(|k: Seq<char>| parse_raw(k))
                    =~= keys_under(es.take(i as int), pre@).map_values(|k: Seq<char>| parse_raw(k)).push(
                    parse_raw(es[i as int].key),
                ));
            }
            i = i + 1;
        }
        assert(es.take(i as int) =~= es);
        r
    }

    /// One page of a delimited listing: the immediate children of `prefix`
    /// as objects and the deeper keys grouped into common prefixes. The whole
    /// store is one page, so no continuation token is returned.
    pub fn list_with_delimiter(&self, prefix: &Path) -> (r: ListResult)
        requires
            self.wf(),
        ensures
            r.next_token is None,
            r.objects@.len() == children_under(listed_of(self.entries()), raw_of(prefix@)).len(),
            forall|i: int|
                0 <= i < r.objects@.len() ==> {
                    let e = children_under(listed_of(self.entries()), raw_of(prefix@))[i];
                    &&& (#[trigger] r.objects@[i]).location@ == parse_raw(e.key)
                    &&& r.objects@[i].size == e.size
                    &&& r.objects@[i].last_modified.millis == e.modified
                },
            r.common_prefixes@.map_values(|p: Path| p@) == groups_under(
                listed_of(self.entries()),
                raw_of(prefix@),
            ).map_values(|g: Seq<char>| parse_raw(g)),
    {
        let mut listed: Vec<ListedObject> = Vec::new();
        let mut i: usize = 0;
        while i < self.entries.len()
            invariant
                i <= self.entries@.len(),
                listed_view(listed@) == listed_of(self.entries()).take(i as int),
            decreases self.entries@.len() - i,
        {
            let e = &self.entries[i];
            let ghost before = listed@;
            listed.push(
                ListedObject { key: e.key.clone(), size: e.data.len() as u64, modified: e.modified },
            );
            assert(listed_view(listed@) =~= listed_view(before).push(listed@.last()@));
            assert(listed_of(self.entries()).take(i + 1) =~= listed_of(self.entries()).take(
                i as int,
            ).push(listed_of(self.entries())[i as int]));
            i = i + 1;
        }
        assert(listed_of(self.entries()).take(i as int) =~= listed_of(self.entries()));
        group_listing(&listed, prefix)
    }
}

/// A `get` after a `put` under the same key gives back exactly the bytes
/// that were put.
pub proof fn lemma_get_after_put(
    contents: Map<Seq<char>, Seq<u8>>,
    location: PathView,
    bytes: Seq<u8>,
)
    ensures
        contents.insert(raw_of(location), bytes).contains_key(raw_of(location)),
        contents.insert(raw_of(location), bytes)[raw_of(location)] == bytes,
{
}

/// Deleting a key that is not stored leaves the store as it was.
pub proof fn lemma_delete_missing_is_noop(contents: Map<Seq<char>, Seq<u8>>, location: PathView)
    requires
        !contents.contains_key(raw_of(location)),
    ensures
        contents.remove(raw_of(location)) == contents,
{
    assert(contents.remove(raw_of(location)) =~= contents);
}

/// After a `delete`, the key is missing, so a `get` of it is `NotFound`.
pub proof fn lemma_get_after_delete(contents: Map<Seq<char>, Seq<u8>>, location: PathView)
    ensures
        !contents.remove(raw_of(location)).contains_key(raw_of(location)),
{
}

} // verus!
