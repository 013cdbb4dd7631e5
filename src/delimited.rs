//! Delimited listing over a flat key space: the immediate children of a
//! prefix are objects, deeper keys are grouped into common prefixes.

use vstd::prelude::*;
use crate::listing::{ListResult, ObjectMeta, Timestamp};
use crate::path::{Path, parse_raw, raw_of, starts_with};

verus! {

/// A key with the metadata that a listing reports.
#[derive(Debug)]
pub struct ListedObject {
    pub key: String,
    pub size: u64,
    pub modified: Timestamp,
}

/// The mathematical value of a [`ListedObject`].
pub struct ListedView {
    pub key: Seq<char>,
    pub size: u64,
    pub modified: i64,
}

impl View for ListedObject {
    type V = ListedView;

    open spec fn view(&self) -> ListedView {
        ListedView { key: self.key@, size: self.size, modified: self.modified.millis }
    }
}

pub open spec fn listed_view(v: Seq<ListedObject>) -> Seq<ListedView> {
    v.map_values(|o: ListedObject| o@)
}

/// The entry that a child key of `prefix` makes in a delimited listing:
/// `None` for a key outside the prefix, `Some(None)` for an immediate child,
/// and `Some(Some(g))` for a deeper key, grouped under `g`, the prefix and the
/// rest of the key up to and including its next delimiter.
pub open spec fn child_kind(key: Seq<char>, prefix: Seq<char>) -> Option<Option<Seq<char>>> {
    if !prefix.is_prefix_of(key) {
        None
    } else {
        let rest = key.subrange(prefix.len() as int, key.len() as int);
        if exists|i: int| 0 <= i < rest.len() && rest[i] == '/' {
            let d = choose|i: int|
                0 <= i < rest.len() && rest[i] == '/' && forall|j: int| 0 <= j < i ==> rest[j] != '/';
            Some(Some(prefix + rest.take(d + 1)))
        } else {
            Some(None)
        }
    }
}

/// The immediate children of `prefix`, in listing order.
pub open spec fn children_under(es: Seq<ListedView>, prefix: Seq<char>) -> Seq<ListedView>
    decreases es.len(),
{
    if es.len() == 0 {
        Seq::empty()
    } else {
        let front = children_under(es.drop_last(), prefix);
        if child_kind(es.last().key, prefix) == Some(None::<Seq<char>>) {
            front.push(es.last())
        } else {
            front
        }
    }
}

/// The groups of the deeper keys under `prefix`, each once, in the order of
/// their first key.
pub open spec fn groups_under(es: Seq<ListedView>, prefix: Seq<char>) -> Seq<Seq<char>>
    decreases es.len(),
{
    if es.len() == 0 {
        Seq::empty()
    } else {
        let front = groups_under(es.drop_last(), prefix);
        match child_kind(es.last().key, prefix) {
            Some(Some(g)) => if front.contains(g) {
                front
            } else {
                front.push(g)
            },
            _ => front,
        }
    }
}

/// Classifies `key` against `prefix` for a delimited listing, as
/// [`child_kind`] states.
pub fn classify_child(key: &str, prefix: &str) -> (r: Option<Option<String>>)
    ensures
        match r {
            None => child_kind(key@, prefix@) is None,
            Some(None) => child_kind(key@, prefix@) == Some(None::<Seq<char>>),
            Some(Some(g)) => child_kind(key@, prefix@) == Some(Some(g@)),
        },
{
    if !starts_with(key, prefix) {
        return None;
    }
    let n = key.unicode_len();
    let m = prefix.unicode_len();
    let ghost rest = key@.subrange(m as int, n as int);
    let mut i: usize = m;
    while i < n
        invariant
            m <= i <= n,
            n == key@.len(),
            m == prefix@.len(),
            prefix@.is_prefix_of(key@),
            rest == key@.subrange(m as int, n as int),
            forall|j: int| 0 <= j < i - m ==> rest[j] != '/',
        decreases n - i,
    {
        if key.get_char(i) == '/' {
            let g = String::from_str(key.substring_char(0, i + 1));
            proof {
                let d = (i - m) as int;
                assert(rest[d] == '/');
                let c = choose|c: int|
                    0 <= c < rest.len() && rest[c] == '/' && forall|j: int| 0 <= j < c ==> rest[j] != '/';
                assert(c == d) by {
                    if c < d {
                        assert(rest[c] != '/');
                    } else if c > d {
                        assert(rest[d] != '/');
                    }
                }
                assert(prefix@ =~= key@.subrange(0, m as int));
                assert(g@ =~= prefix@ + rest.take(d + 1));
            }
            return Some(Some(g));
        }
        i = i + 1;
    }
    Some(None)
}

/// A delimited listing of one page over `listed`: the immediate children of
/// `prefix` as objects, and the deeper keys grouped into common prefixes,
/// each once.
pub fn group_listing(listed: &Vec<ListedObject>, prefix: &Path) -> (r: ListResult)
    ensures
        r.next_token is None,
        r.objects@.len() == children_under(listed_view(listed@), raw_of(prefix@)).len(),
        forall|i: int|
            0 <= i < r.objects@.len() ==> {
                let e = children_under(listed_view(listed@), raw_of(prefix@))[i];
                &&& (#[trigger] r.objects@[i]).location@ == parse_raw(e.key)
                &&& r.objects@[i].size == e.size
                &&& r.objects@[i].last_modified.millis == e.modified
            },
        r.common_prefixes@.map_values(|p: Path| p@) == groups_under(
            listed_view(listed@),
            raw_of(prefix@),
        ).map_values(|g: Seq<char>| parse_raw(g)),
{
    let pre = prefix.to_raw();
    let ghost es = listed_view(listed@);
    let mut objects: Vec<ObjectMeta> = Vec::new();
    let mut groups: Vec<String> = Vec::new();
    let mut i: usize = 0;
    while i < listed.len()
        invariant
            i <= listed@.len(),
            es == listed_view(listed@),
            objects@.len() == children_under(es.take(i as int), pre@).len(),
            forall|j: int|
                0 <= j < objects@.len() ==> {
                    let e = children_under(es.take(i as int), pre@)[j];
                    &&& (#[trigger] objects@[j]).location@ == parse_raw(e.key)
                    &&& objects@[j].size == e.size
                    &&& objects@[j].last_modified.millis == e.modified
                },
            groups@.map_values(|g: String| g@) == groups_under(es.take(i as int), pre@),
        decreases listed@.len() - i,
    {
        let e = &listed[i];
        assert(es.take(i + 1).drop_last() =~= es.take(i as int));
        assert(es.take(i + 1).last() == e@);
        match classify_child(e.key.as_str(), pre.as_str()) {
            None => {},
            Some(None) => {
                let ghost before = objects@;
                let ghost kids = children_under(es.take(i as int), pre@);
                objects.push(
                    ObjectMeta {
                        location: Path::from_raw(e.key.as_str()),
                        last_modified: e.modified,
                        size: e.size,
                    },
                );
                assert(children_under(es.take(i + 1), pre@) == kids.push(e@));
                assert forall|j: int| 0 <= j < objects@.len() implies {
                    let x = children_under(es.take(i + 1), pre@)[j];
                    &&& (#[trigger] objects@[j]).location@ == parse_raw(x.key)
                    &&& objects@[j].size == x.size
                    &&& objects@[j].last_modified.millis == x.modified
                } by {
                    if j < before.len() {
                        assert(objects@[j] == before[j]);
                    }
                }
            },
            Some(Some(g)) => {
                let mut found = false;
                let mut j: usize = 0;
                let ghost gv = groups@.map_values(|s: String| s@);
                while j < groups.len()
                    invariant
                        j <= groups@.len(),
                        gv == groups@.map_values(|s: String| s@),
                        found == exists|k: int| 0 <= k < j && gv[k] == g@,
                    decreases groups@.len() - j,
                {
                    let same = groups[j] == g;
                    proof {
                        assert(gv[j as int] == groups@[j as int]@);
                    }
                    if same {
                        found = true;
                    }
                    j = j + 1;
                }
                if !found {
                    groups.push(g);
                    assert(groups@.map_values(|s: String| s@) =~= gv.push(g@));
                } else {
                    proof {
                        let k = choose|k: int| 0 <= k < j && gv[k] == g@;
                        assert(gv.contains(g@));
                    }
                }
                assert(!found ==> !gv.contains(g@));
            },
        }
        i = i + 1;
    }
    assert(es.take(i as int) =~= es);
    let mut common_prefixes: Vec<Path> = Vec::new();
    let mut j: usize = 0;
    let ghost gv = groups@.map_values(|s: String| s@);
    while j < groups.len()
        invariant
            j <= groups@.len(),
            gv == groups@.map_values(|s: String| s@),
            common_prefixes@.map_values(|p: Path| p@) == gv.take(j as int).map_values(
                |g: Seq<char>| parse_raw(g),
            ),
        decreases groups@.len() - j,
    {
        let ghost before = common_prefixes@;
        common_prefixes.push(Path::from_raw(groups[j].as_str()));
        assert(gv[j as int] == groups@[j as int]@);
        assert(gv.take(j + 1) =~= gv.take(j as int).push(gv[j as int]));
        assert(gv.take(j + 1).map_values(|g: Seq<char>| parse_raw(g)) =~= gv.take(j as int).map_values(
            |g: Seq<char>| parse_raw(g),
        ).push(parse_raw(gv[j as int])));
        assert(common_prefixes@.map_values(|p: Path| p@) =~= before.map_values(|p: Path| p@).push(
            common_prefixes@.last()@,
        ));
        assert(common_prefixes@.map_values(|p: Path| p@) =~= gv.take(j + 1).map_values(
            |g: Seq<char>| parse_raw(g),
        ));
        j = j + 1;
    }
    assert(gv.take(j as int) =~= gv);
    ListResult { objects, common_prefixes, next_token: None }
}

} // verus!
