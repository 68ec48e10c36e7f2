use vstd::prelude::*;

verus! {

/// The separator between the segments of a path.
pub open spec fn is_sep(c: char) -> bool {
    c == '/'
}

/// Length of the first segment of `s`: the number of characters before the
/// first separator (or all of them).
pub open spec fn first_sep(s: Seq<char>) -> nat
    decreases s.len(),
{
    if s.len() == 0 {
        0
    } else if is_sep(s[0]) {
        0
    } else {
        1 + first_sep(s.drop_first())
    }
}

/// The non-empty segments of a path, in order; repeated separators collapse.
pub open spec fn split(s: Seq<char>) -> Seq<Seq<char>>
    decreases s.len(),
{
    if s.len() == 0 {
        seq![]
    } else if is_sep(s[0]) {
        split(s.drop_first())
    } else {
        let k = first_sep(s);
        if 0 < k <= s.len() {
            seq![s.take(k as int)] + split(s.skip(k as int))
        } else {
            seq![]
        }
    }
}

/// The segment `.`.
pub open spec fn is_cur_dir(seg: Seq<char>) -> bool {
    seg == seq!['.']
}

/// The segment `..`.
pub open spec fn is_parent_dir(seg: Seq<char>) -> bool {
    seg == seq!['.', '.']
}

/// Segments after `.` is dropped and `..` pops the segment before it
/// (and does nothing at the root).
pub open spec fn resolve(segs: Seq<Seq<char>>) -> Seq<Seq<char>>
    decreases segs.len(),
{
    if segs.len() == 0 {
        seq![]
    } else {
        let r = resolve(segs.drop_last());
        let last = segs.last();
        if is_cur_dir(last) {
            r
        } else if is_parent_dir(last) {
            if r.len() > 0 {
                r.drop_last()
            } else {
                r
            }
        } else {
            r.push(last)
        }
    }
}

/// `/a/b/c` for the segments `a`, `b`, `c`; empty for no segment.
pub open spec fn join_rest(segs: Seq<Seq<char>>) -> Seq<char>
    decreases segs.len(),
{
    if segs.len() == 0 {
        seq![]
    } else {
        seq!['/'] + segs[0] + join_rest(segs.drop_first())
    }
}

/// The rooted path made of `segs`: `/` alone when there is none.
pub open spec fn join(segs: Seq<Seq<char>>) -> Seq<char> {
    if segs.len() == 0 {
        seq!['/']
    } else {
        join_rest(segs)
    }
}

/// The normal form of a path: rooted, no `.` or `..`, single separators,
/// no trailing separator.
pub open spec fn normalized(p: Seq<char>) -> Seq<char> {
    join(resolve(split(p)))
}

/// A segment that can stand in a path as it is.
pub open spec fn plain_segment(seg: Seq<char>) -> bool {
    &&& seg.len() > 0
    &&& forall|i: int| 0 <= i < seg.len() ==> !is_sep(#[trigger] seg[i])
}

/// A plain segment that is neither `.` nor `..`.
pub open spec fn named_segment(seg: Seq<char>) -> bool {
    plain_segment(seg) && !is_cur_dir(seg) && !is_parent_dir(seg)
}

/// The characters of each segment.
pub open spec fn seg_views(v: Seq<String>) -> Seq<Seq<char>> {
    v.map_values(|s: String| s@)
}

proof fn lemma_first_sep(s: Seq<char>, k: int)
    requires
        0 <= k <= s.len(),
        forall|j: int| 0 <= j < k ==> !is_sep(#[trigger] s[j]),
        k == s.len() || is_sep(s[k]),
    ensures
        first_sep(s) == k,
    decreases s.len(),
{
    if s.len() > 0 && k > 0 {
        assert forall|j: int| 0 <= j < k - 1 implies !is_sep(#[trigger] s.drop_first()[j]) by {
            assert(s.drop_first()[j] == s[j + 1]);
        }
        lemma_first_sep(s.drop_first(), k - 1);
    }
}

proof fn lemma_first_sep_bound(s: Seq<char>)
    ensures
        first_sep(s) <= s.len(),
        forall|j: int| 0 <= j < first_sep(s) ==> !is_sep(#[trigger] s[j]),
        first_sep(s) == s.len() || is_sep(s[first_sep(s) as int]),
    decreases s.len(),
{
    if s.len() > 0 && !is_sep(s[0]) {
        lemma_first_sep_bound(s.drop_first());
        assert forall|j: int| 0 <= j < first_sep(s) implies !is_sep(#[trigger] s[j]) by {
            if j > 0 {
                assert(s[j] == s.drop_first()[j - 1]);
            }
        }
    }
}

/// Every segment that `split` yields is plain.
pub proof fn lemma_split_plain(s: Seq<char>)
    ensures
        forall|i: int| 0 <= i < split(s).len() ==> plain_segment(#[trigger] split(s)[i]),
    decreases s.len(),
{
    if s.len() > 0 {
        if is_sep(s[0]) {
            lemma_split_plain(s.drop_first());
            assert(split(s) == split(s.drop_first()));
        } else {
            let k = first_sep(s);
            lemma_first_sep_bound(s);
            assert(k > 0);
            lemma_split_plain(s.skip(k as int));
            assert(split(s) == seq![s.take(k as int)] + split(s.skip(k as int)));
            let head = s.take(k as int);
            assert forall|j: int| 0 <= j < head.len() implies !is_sep(#[trigger] head[j]) by {
                assert(head[j] == s[j]);
            }
            assert(plain_segment(head));
            assert forall|i: int| 0 <= i < split(s).len() implies plain_segment(
                #[trigger] split(s)[i],
            ) by {
                if i > 0 {
                    assert(split(s)[i] == split(s.skip(k as int))[i - 1]);
                } else {
                    assert(split(s)[i] == head);
                }
            }
        }
    }
}

/// `resolve` keeps only named segments, each taken from its input.
pub proof fn lemma_resolve_named(segs: Seq<Seq<char>>)
    requires
        forall|i: int| 0 <= i < segs.len() ==> plain_segment(#[trigger] segs[i]),
    ensures
        forall|i: int| 0 <= i < resolve(segs).len() ==> named_segment(#[trigger] resolve(segs)[i]),
    decreases segs.len(),
{
    if segs.len() > 0 {
        let init = segs.drop_last();
        assert forall|i: int| 0 <= i < init.len() implies plain_segment(#[trigger] init[i]) by {
            assert(init[i] == segs[i]);
        }
        lemma_resolve_named(init);
        let r = resolve(init);
        let last = segs.last();
        assert(plain_segment(segs[segs.len() - 1]));
        if !is_cur_dir(last) && !is_parent_dir(last) {
            assert forall|i: int| 0 <= i < r.push(last).len() implies named_segment(
                #[trigger] r.push(last)[i],
            ) by {
                if i < r.len() {
                    assert(r.push(last)[i] == r[i]);
                }
            }
        } else if is_parent_dir(last) && r.len() > 0 {
            assert forall|i: int| 0 <= i < r.drop_last().len() implies named_segment(
                #[trigger] r.drop_last()[i],
            ) by {
                assert(r.drop_last()[i] == r[i]);
            }
        }
    }
}

/// Named segments are left as they are by `resolve`.
pub proof fn lemma_resolve_named_fixed(segs: Seq<Seq<char>>)
    requires
        forall|i: int| 0 <= i < segs.len() ==> named_segment(#[trigger] segs[i]),
    ensures
        resolve(segs) == segs,
    decreases segs.len(),
{
    if segs.len() > 0 {
        let init = segs.drop_last();
        assert forall|i: int| 0 <= i < init.len() implies named_segment(#[trigger] init[i]) by {
            assert(init[i] == segs[i]);
        }
        lemma_resolve_named_fixed(init);
        assert(named_segment(segs[segs.len() - 1]));
        assert(init.push(segs.last()) =~= segs);
    }
}

/// Splitting a joined path gives back its plain segments.
pub proof fn lemma_split_join_rest(segs: Seq<Seq<char>>)
    requires
        forall|i: int| 0 <= i < segs.len() ==> plain_segment(#[trigger] segs[i]),
    ensures
        split(join_rest(segs)) == segs,
    decreases segs.len(),
{
    if segs.len() > 0 {
        let rest = segs.drop_first();
        assert forall|i: int| 0 <= i < rest.len() implies plain_segment(#[trigger] rest[i]) by {
            assert(rest[i] == segs[i + 1]);
        }
        lemma_split_join_rest(rest);
        let a = segs[0];
        assert(plain_segment(a));
        let tail = join_rest(rest);
        let s = seq!['/'] + a + tail;
        assert(s =~= seq!['/'] + (a + tail));
        assert(s.drop_first() =~= a + tail);
        let t = a + tail;
        assert(tail.len() == 0 || is_sep(tail[0])) by {
            if rest.len() > 0 {
                assert(tail[0] == '/');
            }
        }
        assert forall|j: int| 0 <= j < a.len() implies !is_sep(#[trigger] t[j]) by {
            assert(t[j] == a[j]);
        }
        if tail.len() > 0 {
            assert(t[a.len() as int] == tail[0]);
        }
        lemma_first_sep(t, a.len() as int);
        assert(!is_sep(t[0]));
        assert(t.take(a.len() as int) =~= a);
        assert(t.skip(a.len() as int) =~= tail);
        assert(split(t) == seq![a] + split(tail));
        assert(seq![a] + rest =~= segs);
    }
}

/// Normalizing a path twice gives what normalizing it once gives.
pub proof fn lemma_normalize_idempotent(p: Seq<char>)
    ensures
        normalized(normalized(p)) == normalized(p),
        resolve(split(normalized(p))) == resolve(split(p)),
{
    let segs = resolve(split(p));
    lemma_split_plain(p);
    lemma_resolve_named(split(p));
    assert forall|i: int| 0 <= i < segs.len() implies plain_segment(#[trigger] segs[i]) by {
        assert(named_segment(segs[i]));
    }
    if segs.len() == 0 {
        let root = seq!['/'];
        assert(root.drop_first() =~= Seq::<char>::empty());
        assert(split(root) == split(root.drop_first()));
        assert(split(root) =~= Seq::<Seq<char>>::empty());
    } else {
        lemma_split_join_rest(segs);
    }
    assert(split(normalized(p)) == segs);
    lemma_resolve_named_fixed(segs);
}

proof fn lemma_join_rest_push(segs: Seq<Seq<char>>, x: Seq<char>)
    ensures
        join_rest(segs.push(x)) == join_rest(segs) + seq!['/'] + x,
    decreases segs.len(),
{
    if segs.len() == 0 {
        assert(segs.push(x).drop_first() =~= Seq::<Seq<char>>::empty());
        assert(segs.push(x)[0] == x);
        assert(join_rest(Seq::<Seq<char>>::empty()) == Seq::<char>::empty());
        assert(join_rest(segs) == Seq::<char>::empty());
        assert(join_rest(segs.push(x)) =~= seq!['/'] + x);
    } else {
        assert(segs.push(x).drop_first() =~= segs.drop_first().push(x));
        lemma_join_rest_push(segs.drop_first(), x);
        assert(segs.push(x)[0] == segs[0]);
        assert(join_rest(segs.push(x)) =~= join_rest(segs) + seq!['/'] + x);
    }
}

proof fn lemma_seg_views_push(v: Seq<String>, s: String)
    ensures
        seg_views(v.push(s)) == seg_views(v).push(s@),
{
    assert(seg_views(v.push(s)) =~= seg_views(v).push(s@));
}

/// Whether `seg` is `.`.
fn is_dot(seg: &str) -> (r: bool)
    ensures
        r == is_cur_dir(seg@),
{
    if seg.unicode_len() == 1 && seg.get_char(0) == '.' {
        assert(seg@ =~= seq!['.']);
        true
    } else {
        false
    }
}

/// Whether `seg` is `..`.
fn is_dot_dot(seg: &str) -> (r: bool)
    ensures
        r == is_parent_dir(seg@),
{
    if seg.unicode_len() == 2 && seg.get_char(0) == '.' && seg.get_char(1) == '.' {
        assert(seg@ =~= seq!['.', '.']);
        true
    } else {
        false
    }
}

/// The non-empty segments of `s`, in order.
pub fn split_path(s: &str) -> (r: Vec<String>)
    ensures
        seg_views(r@) == split(s@),
{
    let n = s.unicode_len();
    let mut r: Vec<String> = Vec::new();
    let mut i: usize = 0;
    proof {
        assert(s@.skip(0) =~= s@);
        assert(seg_views(r@) =~= Seq::<Seq<char>>::empty());
        assert(seg_views(r@) + split(s@) =~= split(s@));
    }
    while i < n
        invariant
            n == s@.len(),
            i <= n,
            seg_views(r@) + split(s@.skip(i as int)) == split(s@),
        decreases n - i,
    {
        if s.get_char(i) == '/' {
            proof {
                let t = s@.skip(i as int);
                assert(t.drop_first() =~= s@.skip(i + 1));
                assert(split(t) == split(t.drop_first()));
            }
            i = i + 1;
        } else {
            let start = i;
            while i < n && s.get_char(i) != '/'
                invariant
                    n == s@.len(),
                    start < n,
                    start <= i <= n,
                    forall|j: int| start <= j < i ==> !is_sep(#[trigger] s@[j]),
                decreases n - i,
            {
                i = i + 1;
            }
            let seg = s.substring_char(start, i).to_owned();
            proof {
                let t = s@.skip(start as int);
                let k = (i - start) as int;
                assert forall|j: int| 0 <= j < k implies !is_sep(#[trigger] t[j]) by {
                    assert(t[j] == s@[start + j]);
                }
                if i < n {
                    assert(t[k] == s@[i as int]);
                }
                lemma_first_sep(t, k);
                assert(!is_sep(t[0]));
                assert(t.take(k) =~= seg@);
                assert(t.skip(k) =~= s@.skip(i as int));
                assert(split(t) == seq![seg@] + split(s@.skip(i as int)));
                lemma_seg_views_push(r@, seg);
                assert(seg_views(r@.push(seg)) + split(s@.skip(i as int)) =~= seg_views(r@) + split(t));
            }
            r.push(seg);
        }
    }
    proof {
        assert(s@.skip(n as int) =~= Seq::<char>::empty());
        assert(seg_views(r@) + Seq::<Seq<char>>::empty() =~= seg_views(r@));
    }
    r
}

/// `segs` with `.` dropped and `..` popping the segment before it.
pub fn resolve_segments(segs: &Vec<String>) -> (r: Vec<String>)
    ensures
        seg_views(r@) == resolve(seg_views(segs@)),
{
    let ghost v = seg_views(segs@);
    let mut r: Vec<String> = Vec::new();
    let mut i: usize = 0;
    proof {
        assert(v.take(0) =~= Seq::<Seq<char>>::empty());
        assert(seg_views(r@) =~= Seq::<Seq<char>>::empty());
    }
    while i < segs.len()
        invariant
            v == seg_views(segs@),
            i <= segs.len(),
            seg_views(r@) == resolve(v.take(i as int)),
        decreases segs.len() - i,
    {
        let seg = &segs[i];
        proof {
            assert(v.take(i + 1).drop_last() =~= v.take(i as int));
            assert(v.take(i + 1).last() == seg@);
        }
        if is_dot(seg.as_str()) {
        } else if is_dot_dot(seg.as_str()) {
            if r.len() > 0 {
                let _ = r.pop();
                proof {
                    assert(seg_views(r@) =~= resolve(v.take(i as int)).drop_last());
                }
            }
        } else {
            let c = seg.clone();
            proof {
                lemma_seg_views_push(r@, c);
            }
            r.push(c);
        }
        i = i + 1;
    }
    proof {
        assert(v.take(segs.len() as int) =~= v);
    }
    r
}

/// The rooted path made of `segs`.
pub fn join_path(segs: &Vec<String>) -> (r: String)
    ensures
        r@ == join(seg_views(segs@)),
{
    let ghost v = seg_views(segs@);
    let mut r = String::new();
    if segs.len() == 0 {
        r.append("/");
        proof {
            reveal_strlit("/");
        }
        return r;
    }
    let mut i: usize = 0;
    proof {
        assert(v.take(0) =~= Seq::<Seq<char>>::empty());
    }
    while i < segs.len()
        invariant
            v == seg_views(segs@),
            i <= segs.len(),
            r@ == join_rest(v.take(i as int)),
        decreases segs.len() - i,
    {
        r.append("/");
        r.append(segs[i].as_str());
        proof {
            reveal_strlit("/");
            assert(v.take(i + 1) =~= v.take(i as int).push(v[i as int]));
            lemma_join_rest_push(v.take(i as int), v[i as int]);
        }
        i = i + 1;
    }
    proof {
        assert(v.take(segs.len() as int) =~= v);
    }
    r
}

/// Whether two lists of segments hold the same segments.
pub fn segments_eq(a: &Vec<String>, b: &Vec<String>) -> (r: bool)
    ensures
        r == (seg_views(a@) == seg_views(b@)),
{
    if a.len() != b.len() {
        proof {
            assert(seg_views(a@).len() != seg_views(b@).len());
        }
        return false;
    }
    let mut i: usize = 0;
    while i < a.len()
        invariant
            a.len() == b.len(),
            i <= a.len(),
            forall|j: int| 0 <= j < i ==> seg_views(a@)[j] == seg_views(b@)[j],
        decreases a.len() - i,
    {
        if !crate::entry::str_eq(a[i].as_str(), b[i].as_str()) {
            proof {
                assert(seg_views(a@)[i as int] != seg_views(b@)[i as int]);
            }
            return false;
        }
        i = i + 1;
    }
    proof {
        assert(seg_views(a@) =~= seg_views(b@));
    }
    true
}

/// The normal segments of `path`: `split` followed by `resolve`.
pub fn path_segments(path: &str) -> (r: Vec<String>)
    ensures
        seg_views(r@) == resolve(split(path@)),
{
    let parts = split_path(path);
    resolve_segments(&parts)
}

/// The normal form of `path`: rooted, with no `.` or `..` segment, no repeated
/// and no trailing separator.
pub fn normalize(path: &str) -> (r: String)
    ensures
        r@ == normalized(path@),
{
    let segs = path_segments(path);
    join_path(&segs)
}

/// Types that have a normal form.
pub trait Normalize: Sized {
    /// The normal form of `self`.
    fn normalize(&self) -> Self;
}

impl Normalize for String {
    fn normalize(&self) -> String {
        normalize(self.as_str())
    }
}

} // verus!
