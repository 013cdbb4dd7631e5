//! Object keys as an ordered sequence of directory segments plus an optional
//! file name, and their conversion to and from the raw `/`-delimited form.

use vstd::prelude::*;

verus! {

/// The delimiter between segments of a raw key.
pub const DELIMITER: char = '/';

/// Text that never holds the delimiter: a directory segment, which may be
/// empty (as between two delimiters in a row).
pub open spec fn no_delimiter(s: Seq<char>) -> bool {
    forall|i: int| 0 <= i < s.len() ==> s[i] != '/'
}

/// A file name is non-empty and never holds the delimiter.
pub open spec fn is_segment(s: Seq<char>) -> bool {
    s.len() > 0 && no_delimiter(s)
}

/// The mathematical value of a [`Path`].
pub struct PathView {
    pub dirs: Seq<Seq<char>>,
    pub file_name: Option<Seq<char>>,
}

impl PathView {
    pub open spec fn wf(self) -> bool {
        &&& forall|i: int| 0 <= i < self.dirs.len() ==> no_delimiter(#[trigger] self.dirs[i])
        &&& (self.file_name matches Some(f) ==> is_segment(f))
    }
}

/// Each directory followed by the delimiter, in order.
pub open spec fn dirs_raw(dirs: Seq<Seq<char>>) -> Seq<char>
    decreases dirs.len(),
{
    if dirs.len() == 0 {
        Seq::empty()
    } else {
        dirs_raw(dirs.drop_last()) + dirs.last() + seq!['/']
    }
}

/// The raw key of a path.
pub open spec fn raw_of(p: PathView) -> Seq<char> {
    dirs_raw(p.dirs) + match p.file_name {
        Some(f) => f,
        None => Seq::empty(),
    }
}

/// Splits a raw key at each delimiter: the completed segments (empty ones
/// included), and the text after the last delimiter.
pub open spec fn split_raw(s: Seq<char>) -> (Seq<Seq<char>>, Seq<char>)
    decreases s.len(),
{
    if s.len() == 0 {
        (Seq::empty(), Seq::empty())
    } else {
        let (done, cur) = split_raw(s.drop_last());
        if s.last() == '/' {
            (done.push(cur), Seq::empty())
        } else {
            (done, cur.push(s.last()))
        }
    }
}

/// The path that a raw key denotes.
pub open spec fn parse_raw(s: Seq<char>) -> PathView {
    let (dirs, rest) = split_raw(s);
    PathView { dirs, file_name: if rest.len() > 0 { Some(rest) } else { None } }
}

proof fn lemma_split_rebuilds(s: Seq<char>)
    ensures
        dirs_raw(split_raw(s).0) + split_raw(s).1 == s,
        forall|i: int| 0 <= i < split_raw(s).0.len() ==> no_delimiter(#[trigger] split_raw(s).0[i]),
        no_delimiter(split_raw(s).1),
    decreases s.len(),
{
    if s.len() > 0 {
        let p = s.drop_last();
        lemma_split_rebuilds(p);
        let (d, cur) = split_raw(p);
        assert(s =~= p.push(s.last()));
        if s.last() == '/' {
            assert(d.push(cur).drop_last() =~= d);
            assert(dirs_raw(d.push(cur)) + Seq::<char>::empty() =~= s);
            assert forall|i: int| 0 <= i < d.push(cur).len() implies no_delimiter(
                #[trigger] d.push(cur)[i],
            ) by {
                if i < d.len() {
                    assert(d.push(cur)[i] == d[i]);
                }
            }
        } else {
            assert(dirs_raw(d) + cur.push(s.last()) =~= (dirs_raw(d) + cur).push(s.last()));
            assert forall|j: int| 0 <= j < cur.push(s.last()).len() implies cur.push(s.last())[j]
                != '/' by {
                if j < cur.len() {
                    assert(cur.push(s.last())[j] == cur[j]);
                }
            }
        }
    }
}

/// Every raw key survives parsing into a path and turning that path back into
/// a raw key; the path it parses to is well formed.
pub proof fn lemma_raw_of_parse(s: Seq<char>)
    ensures
        raw_of(parse_raw(s)) == s,
        parse_raw(s).wf(),
{
    lemma_split_rebuilds(s);
    let (d, cur) = split_raw(s);
    if cur.len() == 0 {
        assert(dirs_raw(d) + Seq::<char>::empty() =~= dirs_raw(d) + cur);
    }
}

/// The extension of a file name: the text after its last '.', where it has
/// one.
pub open spec fn extension_of(name: Seq<char>) -> Option<Seq<char>> {
    if exists|i: int| 0 <= i < name.len() && name[i] == '.' {
        let d = choose|i: int|
            0 <= i < name.len() && name[i] == '.' && forall|j: int| i < j < name.len() ==> name[j] != '.';
        Some(name.subrange(d + 1, name.len() as int))
    } else {
        None
    }
}

/// An object key: directory segments and an optional file name.
#[derive(Debug)]
pub struct Path {
    dirs: Vec<String>,
    file_name: Option<String>,
}

pub open spec fn strings_view(v: Seq<String>) -> Seq<Seq<char>> {
    v.map_values(|s: String| s@)
}

pub open spec fn opt_string_view(o: Option<String>) -> Option<Seq<char>> {
    match o {
        Some(s) => Some(s@),
        None => None,
    }
}

impl View for Path {
    type V = PathView;

    closed spec fn view(&self) -> PathView {
        PathView { dirs: strings_view(self.dirs@), file_name: opt_string_view(self.file_name) }
    }
}

proof fn lemma_split_append_segment_text(x: Seq<char>, seg: Seq<char>)
    requires
        forall|i: int| 0 <= i < seg.len() ==> seg[i] != '/',
    ensures
        split_raw(x + seg) == (split_raw(x).0, split_raw(x).1 + seg),
    decreases seg.len(),
{
    if seg.len() == 0 {
        assert(x + seg =~= x);
        assert(split_raw(x).1 + seg =~= split_raw(x).1);
    } else {
        let s = x + seg;
        assert(s.drop_last() =~= x + seg.drop_last());
        lemma_split_append_segment_text(x, seg.drop_last());
        assert((split_raw(x).1 + seg.drop_last()).push(seg.last()) =~= split_raw(x).1 + seg);
    }
}

proof fn lemma_split_dirs_raw(dirs: Seq<Seq<char>>)
    requires
        forall|i: int| 0 <= i < dirs.len() ==> no_delimiter(#[trigger] dirs[i]),
    ensures
        split_raw(dirs_raw(dirs)) == (dirs, Seq::<char>::empty()),
    decreases dirs.len(),
{
    if dirs.len() > 0 {
        let front = dirs.drop_last();
        assert forall|i: int| 0 <= i < front.len() implies no_delimiter(#[trigger] front[i]) by {
            assert(front[i] == dirs[i]);
        }
        lemma_split_dirs_raw(front);
        let d = dirs.last();
        assert(no_delimiter(dirs[dirs.len() - 1]));
        lemma_split_append_segment_text(dirs_raw(front), d);
        let s = dirs_raw(dirs);
        assert(s.drop_last() =~= dirs_raw(front) + d);
        assert(Seq::<char>::empty() + d =~= d);
        assert(front.push(d) =~= dirs);
    }
}

/// Turning a well-formed path into its raw key and parsing that key gives the
/// path back.
pub proof fn lemma_parse_raw_of(p: PathView)
    requires
        p.wf(),
    ensures
        parse_raw(raw_of(p)) == p,
{
    lemma_split_dirs_raw(p.dirs);
    let f = match p.file_name {
        Some(f) => f,
        None => Seq::<char>::empty(),
    };
    lemma_split_append_segment_text(dirs_raw(p.dirs), f);
    assert(Seq::<char>::empty() + f =~= f);
}

impl Path {
    pub open spec fn wf(&self) -> bool {
        self@.wf()
    }

    /// The empty path: no directories and no file name.
    pub fn new() -> (p: Path)
        ensures
            p@.dirs.len() == 0,
            p@.file_name is None,
            p.wf(),
    {
        let p = Path { dirs: Vec::new(), file_name: None };
        assert(p@.dirs =~= Seq::<Seq<char>>::empty());
        p
    }

    /// Parses a raw key: the text between delimiters gives the directories
    /// (empty ones included) and the text after the last delimiter, if any,
    /// the file name. The raw key is kept exactly.
    pub fn from_raw(raw: &str) -> (p: Path)
        ensures
            p@ == parse_raw(raw@),
            raw_of(p@) == raw@,
            p.wf(),
    {
        let n = raw.unicode_len();
        let mut dirs: Vec<String> = Vec::new();
        let mut start: usize = 0;
        let mut i: usize = 0;
        while i < n
            invariant
                n == raw@.len(),
                start <= i <= n,
                split_raw(raw@.take(i as int)) == (strings_view(dirs@), raw@.subrange(
                    start as int,
                    i as int,
                )),
                forall|k: int| 0 <= k < dirs@.len() ==> no_delimiter(#[trigger] dirs@[k]@),
                forall|j: int| start <= j < i ==> raw@[j] != '/',
            decreases n - i,
        {
            let c = raw.get_char(i);
            let ghost prev = raw@.take(i as int);
            assert(raw@.take(i + 1).drop_last() =~= prev);
            assert(raw@.take(i + 1).last() == c);
            if c == DELIMITER {
                let seg = String::from_str(raw.substring_char(start, i));
                let ghost old_dirs = dirs@;
                dirs.push(seg);
                assert(strings_view(dirs@) =~= strings_view(old_dirs).push(seg@));
                assert forall|k: int| 0 <= k < dirs@.len() implies no_delimiter(
                    #[trigger] dirs@[k]@,
                ) by {
                    if k == dirs@.len() - 1 {
                        assert forall|j: int| 0 <= j < seg@.len() implies seg@[j] != '/' by {
                            assert(seg@[j] == raw@[start + j]);
                        }
                    } else {
                        assert(dirs@[k] == old_dirs[k]);
                    }
                }
                start = i + 1;
            } else {
                assert(raw@.subrange(start as int, i as int).push(c) =~= raw@.subrange(
                    start as int,
                    i + 1,
                ));
            }
            i = i + 1;
        }
        assert(raw@.take(n as int) =~= raw@);
        let file_name = if start < n {
            let f = String::from_str(raw.substring_char(start, n));
            assert forall|j: int| 0 <= j < f@.len() implies f@[j] != '/' by {
                assert(f@[j] == raw@[start + j]);
            }
            Some(f)
        } else {
            None
        };
        let p = Path { dirs, file_name };
        proof {
            lemma_raw_of_parse(raw@);
        }
        p
    }

    /// The raw key: each directory followed by the delimiter, then the file
    /// name.
    pub fn to_raw(&self) -> (r: String)
        ensures
            r@ == raw_of(self@),
    {
        let mut r = String::new();
        let ghost dirs = self@.dirs;
        let mut i: usize = 0;
        proof {
            reveal_strlit("/");
            assert(dirs.take(0) =~= Seq::<Seq<char>>::empty());
        }
        while i < self.dirs.len()
            invariant
                i <= self.dirs.len(),
                dirs == strings_view(self.dirs@),
                r@ == dirs_raw(dirs.take(i as int)),
                "/"@ == seq!['/'],
            decreases self.dirs.len() - i,
        {
            r.append(self.dirs[i].as_str());
            r.append("/");
            assert(dirs.take(i + 1).drop_last() =~= dirs.take(i as int));
            assert(dirs.take(i + 1).last() == self.dirs@[i as int]@);
            i = i + 1;
        }
        assert(dirs.take(i as int) =~= dirs);
        match &self.file_name {
            Some(f) => r.append(f.as_str()),
            None => {
                assert(r@ + Seq::<char>::empty() =~= r@);
            },
        }
        r
    }

    /// The extension of the file name, if there is a file name and it has
    /// one.
    pub fn extension(&self) -> (r: Option<String>)
        ensures
            match self@.file_name {
                None => r is None,
                Some(f) => opt_string_view(r) == extension_of(f),
            },
    {
        match &self.file_name {
            None => None,
            Some(name) => {
                let n = name.as_str().unicode_len();
                let mut i: usize = n;
                while i > 0
                    invariant
                        i <= n,
                        n == name@.len(),
                        self@.file_name == Some(name@),
                        forall|j: int| i <= j < n ==> name@[j] != '.',
                    decreases i,
                {
                    if name.as_str().get_char(i - 1) == '.' {
                        let ext = String::from_str(name.as_str().substring_char(i, n));
                        proof {
                            let s = name@;
                            let d = (i - 1) as int;
                            assert(s[d] == '.');
                            assert(forall|j: int| d < j < s.len() ==> s[j] != '.');
                            assert(0 <= d < s.len() && s[d] == '.');
                            let c = choose|c: int|
                                0 <= c < s.len() && s[c] == '.' && forall|j: int|
                                    c < j < s.len() ==> s[j] != '.';
                            assert(c == d) by {
                                if c < d {
                                    assert(s[d] == '.');
                                } else if c > d {
                                    assert(s[c] != '.');
                                }
                            }
                            assert(ext@ =~= s.subrange(d + 1, s.len() as int));
                            assert(extension_of(s) == Some(ext@));
                        }
                        return Some(ext);
                    }
                    i = i - 1;
                }
                None
            },
        }
    }

    /// Appends a directory segment.
    pub fn push_dir(&mut self, segment: &str)
        requires
            no_delimiter(segment@),
            old(self).wf(),
        ensures
            final(self)@.dirs == old(self)@.dirs.push(segment@),
            final(self)@.file_name == old(self)@.file_name,
            final(self).wf(),
    {
        self.dirs.push(String::from_str(segment));
        assert(final(self)@.dirs =~= old(self)@.dirs.push(segment@));
    }

    /// Sets the file name, replacing any earlier one.
    pub fn set_file_name(&mut self, name: &str)
        requires
            is_segment(name@),
            old(self).wf(),
        ensures
            final(self)@.dirs == old(self)@.dirs,
            final(self)@.file_name == Some(name@),
            final(self).wf(),
    {
        self.file_name = Some(String::from_str(name));
    }
}

/// Whether `s` begins with `prefix`.
pub fn starts_with(s: &str, prefix: &str) -> (b: bool)
    ensures
        b == prefix@.is_prefix_of(s@),
{
    let n = s.unicode_len();
    let m = prefix.unicode_len();
    if m > n {
        return false;
    }
    let mut i: usize = 0;
    while i < m
        invariant
            m <= n,
            n == s@.len(),
            m == prefix@.len(),
            i <= m,
            forall|j: int| 0 <= j < i ==> prefix@[j] == s@[j],
        decreases m - i,
    {
        if prefix.get_char(i) != s.get_char(i) {
            assert(prefix@[i as int] != s@.subrange(0, m as int)[i as int]);
            return false;
        }
        i = i + 1;
    }
    assert(prefix@ =~= s@.subrange(0, m as int));
    true
}

} // verus!
