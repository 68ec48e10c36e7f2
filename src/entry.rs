use vstd::prelude::*;

use crate::path::{join, resolve, seg_views, split};

verus! {

/// One host file as the virtual tree shows it: the name it is listed under,
/// where it lives on the host, and the attributes that patterns refer to.
#[derive(Clone, Debug)]
pub struct OrganizeFSEntry {
    /// The last segment of the file's virtual path.
    pub name: String,
    /// Absolute, normal path of the file on the host.
    pub host_path: String,
    /// Human-readable size, the value of `{size}`.
    pub size: String,
    /// Content type with `/` written as `_`, the value of `{meta}`.
    pub mime: String,
    /// Modification day as `YYYY-MM-DD`, the value of `{mdate}`.
    pub modified_date: String,
}

/// The placeholder for the content type.
pub open spec fn meta_key() -> Seq<char> {
    seq!['{', 'm', 'e', 't', 'a', '}']
}

/// The placeholder for the size.
pub open spec fn size_key() -> Seq<char> {
    seq!['{', 's', 'i', 'z', 'e', '}']
}

/// The placeholder for the modification day.
pub open spec fn mdate_key() -> Seq<char> {
    seq!['{', 'm', 'd', 'a', 't', 'e', '}']
}

/// Whether `t` begins with `p`.
pub open spec fn starts_with(t: Seq<char>, p: Seq<char>) -> bool {
    p.len() <= t.len() && t.take(p.len() as int) == p
}

/// `t` with every `{meta}`, `{size}` and `{mdate}` replaced, from left to
/// right, by `meta`, `size` and `mdate`; all other text is kept.
pub open spec fn expanded(t: Seq<char>, meta: Seq<char>, size: Seq<char>, mdate: Seq<char>) -> Seq<
    char,
>
    decreases t.len(),
{
    if t.len() == 0 {
        seq![]
    } else if starts_with(t, meta_key()) {
        meta + expanded(t.skip(6), meta, size, mdate)
    } else if starts_with(t, size_key()) {
        size + expanded(t.skip(6), meta, size, mdate)
    } else if starts_with(t, mdate_key()) {
        mdate + expanded(t.skip(7), meta, size, mdate)
    } else {
        seq![t[0]] + expanded(t.drop_first(), meta, size, mdate)
    }
}

impl OrganizeFSEntry {
    /// `t` expanded against this entry's attributes.
    pub open spec fn expand_spec(&self, t: Seq<char>) -> Seq<char> {
        expanded(t, self.mime@, self.size@, self.modified_date@)
    }

    /// Each pattern segment expanded, then the entry's name, before the
    /// result is read as a path.
    pub open spec fn raw_path_spec(&self, pattern: Seq<Seq<char>>) -> Seq<Seq<char>> {
        pattern.map_values(|t: Seq<char>| self.expand_spec(t)).push(self.name@)
    }

    /// The virtual path of this entry under the pattern segments `pattern`:
    /// the expanded segments and the name written out as a path, in normal
    /// form (an empty expansion leaves no segment, as in a lookup).
    pub open spec fn local_path_spec(&self, pattern: Seq<Seq<char>>) -> Seq<Seq<char>> {
        resolve(split(join(self.raw_path_spec(pattern))))
    }

    /// The value of the attribute called `key`, if the entry has one.
    pub open spec fn attribute_spec(&self, key: Seq<char>) -> Option<Seq<char>> {
        if key == seq!['m', 'e', 't', 'a'] {
            Some(self.mime@)
        } else if key == seq!['s', 'i', 'z', 'e'] {
            Some(self.size@)
        } else if key == seq!['m', 'd', 'a', 't', 'e'] {
            Some(self.modified_date@)
        } else {
            None
        }
    }

    /// Whether the entry lies below the virtual directory `cur` under the
    /// pattern `pattern`: each segment of `cur` equals the expanded pattern
    /// segment at its place, as far as both go.
    pub open spec fn below_spec(&self, pattern: Seq<Seq<char>>, cur: Seq<Seq<char>>) -> bool {
        forall|i: int|
            0 <= i < cur.len() && i < pattern.len() ==> cur[i] == #[trigger] self.expand_spec(
                pattern[i],
            )
    }

    /// A copy of the entry.
    pub fn duplicate(&self) -> (r: Self)
        ensures
            r == *self,
    {
        OrganizeFSEntry {
            name: self.name.clone(),
            host_path: self.host_path.clone(),
            size: self.size.clone(),
            mime: self.mime.clone(),
            modified_date: self.modified_date.clone(),
        }
    }

    /// The value of the attribute called `key` (`meta`, `size` or `mdate`).
    pub fn attr(&self, key: &str) -> (r: Option<&str>)
        ensures
            match r {
                Some(v) => self.attribute_spec(key@) == Some(v@),
                None => self.attribute_spec(key@).is_none(),
            },
    {
        proof {
            reveal_strlit("meta");
            reveal_strlit("size");
            reveal_strlit("mdate");
            assert("meta"@ =~= seq!['m', 'e', 't', 'a']);
            assert("size"@ =~= seq!['s', 'i', 'z', 'e']);
            assert("mdate"@ =~= seq!['m', 'd', 'a', 't', 'e']);
        }
        if str_eq(key, "meta") {
            Some(self.mime.as_str())
        } else if str_eq(key, "size") {
            Some(self.size.as_str())
        } else if str_eq(key, "mdate") {
            Some(self.modified_date.as_str())
        } else {
            None
        }
    }

    /// The virtual path of this entry under the pattern segments `pattern`.
    pub fn local_path(&self, pattern: &Vec<String>) -> (r: Vec<String>)
        ensures
            seg_views(r@) == self.local_path_spec(seg_views(pattern@)),
    {
        let ghost pv = seg_views(pattern@);
        let mut raw: Vec<String> = Vec::new();
        let mut i: usize = 0;
        while i < pattern.len()
            invariant
                pv == seg_views(pattern@),
                i <= pattern.len(),
                seg_views(raw@) =~= pv.take(i as int).map_values(|t: Seq<char>| self.expand_spec(t)),
            decreases pattern.len() - i,
        {
            let seg = expand(pattern[i].as_str(), self);
            proof {
                assert(pv[i as int] == pattern@[i as int]@);
                assert(pv.take(i + 1) =~= pv.take(i as int).push(pv[i as int]));
                assert(seg_views(raw@.push(seg)) =~= seg_views(raw@).push(seg@));
            }
            raw.push(seg);
            i = i + 1;
        }
        let name = self.name.clone();
        proof {
            assert(pv.take(pattern.len() as int) =~= pv);
            assert(seg_views(raw@.push(name)) =~= seg_views(raw@).push(name@));
        }
        raw.push(name);
        let written = crate::path::join_path(&raw);
        crate::path::path_segments(written.as_str())
    }
}

/// Files whose attributes can be looked up by name.
pub trait FsFile {
    /// The value of the attribute called `key`, if there is one.
    fn attribute(&self, key: &str) -> Option<&str>;
}

impl FsFile for OrganizeFSEntry {
    fn attribute(&self, key: &str) -> Option<&str> {
        self.attr(key)
    }
}

/// Whether two strings hold the same characters.
pub fn str_eq(a: &str, b: &str) -> (r: bool)
    ensures
        r == (a@ == b@),
{
    let n = a.unicode_len();
    if n != b.unicode_len() {
        return false;
    }
    let mut i: usize = 0;
    while i < n
        invariant
            n == a@.len(),
            n == b@.len(),
            i <= n,
            forall|j: int| 0 <= j < i ==> a@[j] == b@[j],
        decreases n - i,
    {
        if a.get_char(i) != b.get_char(i) {
            return false;
        }
        i = i + 1;
    }
    assert(a@ =~= b@);
    true
}

/// Whether `s`, from character `i` on, begins with `p`.
fn matches_at(s: &str, n: usize, i: usize, p: &str) -> (r: bool)
    requires
        n == s@.len(),
        i <= n,
    ensures
        r == starts_with(s@.skip(i as int), p@),
{
    let m = p.unicode_len();
    if m > n - i {
        return false;
    }
    let mut j: usize = 0;
    while j < m
        invariant
            n == s@.len(),
            m == p@.len(),
            i + m <= n,
            j <= m,
            forall|k: int| 0 <= k < j ==> s@[i + k] == p@[k],
        decreases m - j,
    {
        if s.get_char(i + j) != p.get_char(j) {
            assert(s@.skip(i as int).take(m as int)[j as int] == s@[i + j]);
            return false;
        }
        j = j + 1;
    }
    assert(s@.skip(i as int).take(m as int) =~= p@);
    true
}

/// `component` with each placeholder (`{meta}`, `{size}`, `{mdate}`)
/// replaced by the entry's attribute; other text, unknown placeholders
/// included, is kept as it is.
pub fn expand(component: &str, file: &OrganizeFSEntry) -> (r: String)
    ensures
        r@ == file.expand_spec(component@),
{
    let ghost t = component@;
    let ghost meta = file.mime@;
    let ghost size = file.size@;
    let ghost mdate = file.modified_date@;
    proof {
        reveal_strlit("{meta}");
        reveal_strlit("{size}");
        reveal_strlit("{mdate}");
        assert(t.skip(0) =~= t);
    }
    let n = component.unicode_len();
    let mut r = String::new();
    let mut i: usize = 0;
    while i < n
        invariant
            t == component@,
            n == t.len(),
            i <= n,
            meta == file.mime@,
            size == file.size@,
            mdate == file.modified_date@,
            r@ + expanded(t.skip(i as int), meta, size, mdate) == expanded(t, meta, size, mdate),
        decreases n - i,
    {
        let ghost rest = t.skip(i as int);
        let ghost r0 = r@;
        proof {
            reveal_strlit("{meta}");
            reveal_strlit("{size}");
            reveal_strlit("{mdate}");
            assert("{meta}"@ =~= meta_key());
            assert("{size}"@ =~= size_key());
            assert("{mdate}"@ =~= mdate_key());
        }
        if matches_at(component, n, i, "{meta}") {
            r.append(file.mime.as_str());
            proof {
                assert(rest.skip(6) =~= t.skip(i + 6));
                assert(expanded(rest, meta, size, mdate) == meta + expanded(rest.skip(6), meta, size, mdate));
                assert(r@ + expanded(t.skip(i + 6), meta, size, mdate) =~= r0 + expanded(rest, meta, size, mdate));
            }
            i = i + 6;
        } else if matches_at(component, n, i, "{size}") {
            r.append(file.size.as_str());
            proof {
                assert(rest.skip(6) =~= t.skip(i + 6));
                assert(expanded(rest, meta, size, mdate) == size + expanded(rest.skip(6), meta, size, mdate));
                assert(r@ + expanded(t.skip(i + 6), meta, size, mdate) =~= r0 + expanded(rest, meta, size, mdate));
            }
            i = i + 6;
        } else if matches_at(component, n, i, "{mdate}") {
            r.append(file.modified_date.as_str());
            proof {
                assert(rest.skip(7) =~= t.skip(i + 7));
                assert(expanded(rest, meta, size, mdate) == mdate + expanded(rest.skip(7), meta, size, mdate));
                assert(r@ + expanded(t.skip(i + 7), meta, size, mdate) =~= r0 + expanded(rest, meta, size, mdate));
            }
            i = i + 7;
        } else {
            r.append(component.substring_char(i, i + 1));
            proof {
                assert(rest.drop_first() =~= t.skip(i + 1));
                assert(rest[0] == t[i as int]);
                assert(expanded(rest, meta, size, mdate) == seq![rest[0]] + expanded(rest.drop_first(), meta, size, mdate));
                assert(r@ + expanded(t.skip(i + 1), meta, size, mdate) =~= r0 + expanded(rest, meta, size, mdate));
            }
            i = i + 1;
        }
    }
    proof {
        assert(t.skip(n as int) =~= Seq::<char>::empty());
        assert(r@ + Seq::<char>::empty() =~= r@);
    }
    r
}

/// Whether `file` lies below the virtual directory `cur` under `pattern`.
fn is_below(file: &OrganizeFSEntry, pattern: &Vec<String>, cur: &Vec<String>) -> (r: bool)
    ensures
        r == file.below_spec(seg_views(pattern@), seg_views(cur@)),
{
    let mut i: usize = 0;
    while i < cur.len() && i < pattern.len()
        invariant
            i <= cur.len(),
            forall|j: int|
                0 <= j < i && j < pattern.len() ==> seg_views(cur@)[j] == #[trigger] file.expand_spec(
                    seg_views(pattern@)[j],
                ),
        decreases cur.len() - i,
    {
        let e = expand(pattern[i].as_str(), file);
        if !str_eq(cur[i].as_str(), e.as_str()) {
            proof {
                assert(seg_views(cur@)[i as int] == cur@[i as int]@);
                assert(seg_views(pattern@)[i as int] == pattern@[i as int]@);
            }
            return false;
        }
        i = i + 1;
    }
    true
}

/// The files of `files` that lie below the virtual directory `cur_path`
/// when the tree is shaped by `pattern`, in their order.
pub fn get_child_files(files: &Vec<OrganizeFSEntry>, pattern: &str, cur_path: &str) -> (r: Vec<
    OrganizeFSEntry,
>)
    ensures
        r@ == files@.filter(
            |f: OrganizeFSEntry| f.below_spec(split(pattern@), split(cur_path@)),
        ),
{
    let pat = crate::path::split_path(pattern);
    let cur = crate::path::split_path(cur_path);
    let ghost pred = |f: OrganizeFSEntry| f.below_spec(split(pattern@), split(cur_path@));
    let mut r: Vec<OrganizeFSEntry> = Vec::new();
    let mut i: usize = 0;
    proof {
        reveal(Seq::filter);
        assert(files@.take(0) =~= Seq::<OrganizeFSEntry>::empty());
    }
    while i < files.len()
        invariant
            i <= files.len(),
            seg_views(pat@) == split(pattern@),
            seg_views(cur@) == split(cur_path@),
            pred == (|f: OrganizeFSEntry| f.below_spec(split(pattern@), split(cur_path@))),
            r@ == files@.take(i as int).filter(pred),
        decreases files.len() - i,
    {
        proof {
            reveal(Seq::filter);
            assert(files@.take(i + 1).drop_last() =~= files@.take(i as int));
            assert(files@.take(i + 1).last() == files@[i as int]);
        }
        if is_below(&files[i], &pat, &cur) {
            let f = files[i].duplicate();
            r.push(f);
        }
        i = i + 1;
    }
    proof {
        assert(files@.take(files.len() as int) =~= files@);
    }
    r
}

} // verus!
