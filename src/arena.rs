use vstd::prelude::*;
use std::collections::HashMap;

use crate::entry::str_eq;

verus! {

broadcast use vstd::std_specs::hash::group_hash_axioms;

/// Why a path could not be placed in the tree.
#[derive(Debug, PartialEq, Eq, Structural)]
pub enum ArenaError {
    /// A segment names a file where a directory is needed, or the last
    /// segment names a directory where the file should go.
    NameConflict,
    /// A file already stands at the path.
    Occupied,
    /// No identifier is left for the nodes the path needs.
    Exhausted,
}

/// A node of the tree as the contracts see it.
pub enum NodeView {
    /// A directory: its children by name.
    Branch(Map<Seq<char>, u64>),
    /// A file: the key of the entry it stands for.
    Leaf(u64),
}

/// A node of the tree.
pub enum NewArenaElement {
    /// A directory: name and identifier of each child.
    Branch(Vec<(String, u64)>),
    /// A file: the key of the entry it stands for.
    Leaf(u64),
}

/// The children named in `cs`, by name.
pub open spec fn child_map(cs: Seq<(String, u64)>) -> Map<Seq<char>, u64>
    decreases cs.len(),
{
    if cs.len() == 0 {
        Map::empty()
    } else {
        child_map(cs.drop_last()).insert(cs.last().0@, cs.last().1)
    }
}

/// No two children in `cs` share a name.
pub open spec fn names_unique(cs: Seq<(String, u64)>) -> bool {
    forall|i: int, j: int| 0 <= i < j < cs.len() ==> (#[trigger] cs[i]).0@ != (#[trigger] cs[j]).0@
}

impl View for NewArenaElement {
    type V = NodeView;

    open spec fn view(&self) -> NodeView {
        match self {
            NewArenaElement::Branch(cs) => NodeView::Branch(child_map(cs@)),
            NewArenaElement::Leaf(v) => NodeView::Leaf(*v),
        }
    }
}

impl NewArenaElement {
    /// A directory names each child once.
    pub open spec fn node_ok(&self) -> bool {
        match self {
            NewArenaElement::Branch(cs) => names_unique(cs@),
            NewArenaElement::Leaf(_) => true,
        }
    }

    /// Whether the node is a directory.
    pub fn is_directory(&self) -> (r: bool)
        ensures
            r == self@ is Branch,
    {
        match self {
            NewArenaElement::Branch(_) => true,
            NewArenaElement::Leaf(_) => false,
        }
    }

    /// Whether the node is a file.
    pub fn is_file(&self) -> (r: bool)
        ensures
            r == self@ is Leaf,
    {
        match self {
            NewArenaElement::Branch(_) => false,
            NewArenaElement::Leaf(_) => true,
        }
    }

    /// The entry key of a file node.
    pub fn inner(&self) -> (r: Option<u64>)
        ensures
            match self@ {
                NodeView::Leaf(v) => r == Some(v),
                NodeView::Branch(_) => r.is_none(),
            },
    {
        match self {
            NewArenaElement::Branch(_) => None,
            NewArenaElement::Leaf(v) => Some(*v),
        }
    }
}

/// The children of node `id` in `m` (none for a file or a missing node).
pub open spec fn kids(m: Map<u64, NodeView>, id: u64) -> Map<Seq<char>, u64> {
    if m.contains_key(id) {
        match m[id] {
            NodeView::Branch(ks) => ks,
            NodeView::Leaf(_) => Map::empty(),
        }
    } else {
        Map::empty()
    }
}

/// Node `id` of `m` is a directory.
pub open spec fn is_branch(m: Map<u64, NodeView>, id: u64) -> bool {
    m.contains_key(id) && m[id] is Branch
}

/// Node `id` of `m` is a file.
pub open spec fn is_leaf(m: Map<u64, NodeView>, id: u64) -> bool {
    m.contains_key(id) && m[id] is Leaf
}

/// The node reached from `id` by following the children named by `path`.
pub open spec fn lookup(m: Map<u64, NodeView>, id: u64, path: Seq<Seq<char>>) -> Option<u64>
    decreases path.len(),
{
    if path.len() == 0 {
        Some(id)
    } else if kids(m, id).contains_key(path[0]) {
        lookup(m, kids(m, id)[path[0]], path.drop_first())
    } else {
        None
    }
}

/// The shape every tree keeps: a directory root `0`, identifiers below
/// `next`, each child present, numbered above its parent, and the child of
/// one parent under one name only.
pub open spec fn tree_ok(m: Map<u64, NodeView>, next: u64) -> bool {
    &&& is_branch(m, 0)
    &&& forall|id: u64| #[trigger] m.contains_key(id) ==> id < next
    &&& forall|p: u64, n: Seq<char>|
        #[trigger] kids(m, p).contains_key(n) ==> m.contains_key(kids(m, p)[n]) && kids(m, p)[n]
            > p
    &&& forall|p1: u64, n1: Seq<char>, p2: u64, n2: Seq<char>|
        kids(m, p1).contains_key(n1) && kids(m, p2).contains_key(n2) && #[trigger] kids(m, p1)[n1]
            == #[trigger] kids(m, p2)[n2] ==> p1 == p2 && n1 == n2
}

/// `new` keeps every node of `old`: files as they were, directories with at
/// least their children.
pub open spec fn extends(old: Map<u64, NodeView>, new: Map<u64, NodeView>) -> bool {
    &&& forall|id: u64| #[trigger] old.contains_key(id) ==> new.contains_key(id)
    &&& forall|id: u64| #[trigger] is_leaf(old, id) ==> new[id] == old[id]
    &&& forall|id: u64| #[trigger] is_branch(old, id) ==> is_branch(new, id)
    &&& forall|id: u64, n: Seq<char>|
        #[trigger] kids(old, id).contains_key(n) ==> kids(new, id).contains_key(n) && kids(new, id)[n]
            == kids(old, id)[n]
}

/// How many leading segments of `path` already name nodes below `x`.
pub open spec fn present_depth(m: Map<u64, NodeView>, x: u64, path: Seq<Seq<char>>) -> nat
    decreases path.len(),
{
    if path.len() > 0 && kids(m, x).contains_key(path[0]) {
        1 + present_depth(m, kids(m, x)[path[0]], path.drop_first())
    } else {
        0
    }
}

/// Where inserting `path` below `id` ends.
pub enum Placement {
    /// A segment meets a file where it needs a directory, or the last one
    /// meets a directory.
    Conflict,
    /// A file already stands at the path.
    Existing(u64),
    /// Some segments are missing and will be created.
    Fresh,
}

/// Where inserting `path` below node `id` of `m` ends.
pub open spec fn placement(m: Map<u64, NodeView>, id: u64, path: Seq<Seq<char>>) -> Placement
    decreases path.len(),
{
    if path.len() == 0 {
        Placement::Conflict
    } else if !kids(m, id).contains_key(path[0]) {
        Placement::Fresh
    } else {
        let c = kids(m, id)[path[0]];
        if path.len() == 1 {
            if is_leaf(m, c) {
                Placement::Existing(c)
            } else {
                Placement::Conflict
            }
        } else if is_leaf(m, c) {
            Placement::Conflict
        } else {
            placement(m, c, path.drop_first())
        }
    }
}

/// Following `path` one segment further.
pub proof fn lemma_lookup_push(m: Map<u64, NodeView>, id: u64, path: Seq<Seq<char>>, s: Seq<char>)
    ensures
        lookup(m, id, path.push(s)) == match lookup(m, id, path) {
            Some(x) => if kids(m, x).contains_key(s) {
                Some(kids(m, x)[s])
            } else {
                None
            },
            None => None,
        },
    decreases path.len(),
{
    if path.len() == 0 {
        assert(path.push(s).drop_first() =~= Seq::<Seq<char>>::empty());
        assert(path.push(s)[0] == s);
        if kids(m, id).contains_key(s) {
            assert(lookup(m, kids(m, id)[s], Seq::<Seq<char>>::empty()) == Some(kids(m, id)[s]));
        }
    } else {
        assert(path.push(s).drop_first() =~= path.drop_first().push(s));
        assert(path.push(s)[0] == path[0]);
        if kids(m, id).contains_key(path[0]) {
            lemma_lookup_push(m, kids(m, id)[path[0]], path.drop_first(), s);
        }
    }
}

/// Lookups only climb: every node reached has an identifier at least that
/// of the start.
pub proof fn lemma_lookup_climbs(m: Map<u64, NodeView>, next: u64, id: u64, path: Seq<Seq<char>>)
    requires
        tree_ok(m, next),
    ensures
        lookup(m, id, path) matches Some(r) ==> id <= r && (path.len() > 0 ==> id < r),
    decreases path.len(),
{
    if path.len() > 0 && kids(m, id).contains_key(path[0]) {
        lemma_lookup_climbs(m, next, kids(m, id)[path[0]], path.drop_first());
    }
}

/// A tree that extends another keeps every lookup that succeeded.
pub proof fn lemma_extends_lookup(
    old: Map<u64, NodeView>,
    new: Map<u64, NodeView>,
    id: u64,
    path: Seq<Seq<char>>,
)
    requires
        extends(old, new),
        lookup(old, id, path).is_some(),
    ensures
        lookup(new, id, path) == lookup(old, id, path),
    decreases path.len(),
{
    if path.len() > 0 {
        assert(kids(old, id).contains_key(path[0]));
        lemma_extends_lookup(old, new, kids(old, id)[path[0]], path.drop_first());
    }
}

/// Removing the child `c` of `p` named `name` keeps every lookup that ends
/// elsewhere and never passes through `c`.
pub proof fn lemma_detach_lookup(
    old: Map<u64, NodeView>,
    next: u64,
    p: u64,
    name: Seq<char>,
    c: u64,
    id: u64,
    path: Seq<Seq<char>>,
)
    requires
        tree_ok(old, next),
        kids(old, p).contains_key(name),
        kids(old, p)[name] == c,
        id != c,
        lookup(old, id, path) matches Some(r) && r != c && (r < c || is_leaf(old, c)),
    ensures
        lookup(
            old.remove(c).insert(p, NodeView::Branch(kids(old, p).remove(name))),
            id,
            path,
        ) == lookup(old, id, path),
    decreases path.len(),
{
    let new = old.remove(c).insert(p, NodeView::Branch(kids(old, p).remove(name)));
    let r = lookup(old, id, path).unwrap();
    if path.len() > 0 {
        let y = kids(old, id)[path[0]];
        let rest = path.drop_first();
        assert(lookup(old, y, rest) == Some(r));
        lemma_lookup_climbs(old, next, y, rest);
        if y == c {
            if rest.len() > 0 {
                assert(is_leaf(old, c) || r < c);
                assert(!kids(old, c).contains_key(rest[0]) || r < c);
            }
            assert(false);
        }
        assert(kids(new, id).contains_key(path[0]) && kids(new, id)[path[0]] == y);
        lemma_detach_lookup(old, next, p, name, c, y, rest);
    }
}

proof fn lemma_child_map_push(cs: Seq<(String, u64)>, x: (String, u64))
    ensures
        child_map(cs.push(x)) == child_map(cs).insert(x.0@, x.1),
{
    assert(cs.push(x).drop_last() =~= cs);
}

pub proof fn lemma_child_map_index(cs: Seq<(String, u64)>, j: int)
    requires
        names_unique(cs),
        0 <= j < cs.len(),
    ensures
        child_map(cs).contains_key(cs[j].0@),
        child_map(cs)[cs[j].0@] == cs[j].1,
    decreases cs.len(),
{
    if j < cs.len() - 1 {
        let init = cs.drop_last();
        assert(init[j] == cs[j]);
        assert(names_unique(init)) by {
            assert forall|a: int, b: int| 0 <= a < b < init.len() implies (#[trigger] init[a]).0@
                != (#[trigger] init[b]).0@ by {
                assert(init[a] == cs[a] && init[b] == cs[b]);
            }
        }
        lemma_child_map_index(init, j);
        assert(cs[j].0@ != cs[cs.len() - 1].0@);
    }
}

proof fn lemma_child_map_absent(cs: Seq<(String, u64)>, n: Seq<char>)
    requires
        forall|j: int| 0 <= j < cs.len() ==> (#[trigger] cs[j]).0@ != n,
    ensures
        !child_map(cs).contains_key(n),
    decreases cs.len(),
{
    if cs.len() > 0 {
        let init = cs.drop_last();
        assert forall|j: int| 0 <= j < init.len() implies (#[trigger] init[j]).0@ != n by {
            assert(init[j] == cs[j]);
        }
        lemma_child_map_absent(init, n);
        assert(cs[cs.len() - 1].0@ != n);
    }
}

pub proof fn lemma_child_map_names(cs: Seq<(String, u64)>, n: Seq<char>)
    requires
        child_map(cs).contains_key(n),
    ensures
        exists|j: int| 0 <= j < cs.len() && (#[trigger] cs[j]).0@ == n,
    decreases cs.len(),
{
    if cs.len() > 0 && cs.last().0@ != n {
        let init = cs.drop_last();
        lemma_child_map_names(init, n);
        let j = choose|j: int| 0 <= j < init.len() && (#[trigger] init[j]).0@ == n;
        assert(cs[j] == init[j]);
    } else if cs.len() > 0 {
        assert(cs[cs.len() - 1].0@ == n);
    }
}

proof fn lemma_child_map_remove(cs: Seq<(String, u64)>, j: int)
    requires
        names_unique(cs),
        0 <= j < cs.len(),
    ensures
        names_unique(cs.remove(j)),
        child_map(cs.remove(j)) == child_map(cs).remove(cs[j].0@),
    decreases cs.len(),
{
    let rm = cs.remove(j);
    assert(names_unique(rm)) by {
        assert forall|a: int, b: int| 0 <= a < b < rm.len() implies (#[trigger] rm[a]).0@ != (
        #[trigger] rm[b]).0@ by {
            let a0 = if a < j {
                a
            } else {
                a + 1
            };
            let b0 = if b < j {
                b
            } else {
                b + 1
            };
            assert(rm[a] == cs[a0] && rm[b] == cs[b0]);
        }
    }
    let init = cs.drop_last();
    assert(names_unique(init)) by {
        assert forall|a: int, b: int| 0 <= a < b < init.len() implies (#[trigger] init[a]).0@
            != (#[trigger] init[b]).0@ by {
            assert(init[a] == cs[a] && init[b] == cs[b]);
        }
    }
    if j == cs.len() - 1 {
        assert(rm =~= init);
        assert forall|k: int| 0 <= k < init.len() implies (#[trigger] init[k]).0@ != cs[j].0@ by {
            assert(init[k] == cs[k]);
        }
        lemma_child_map_absent(init, cs[j].0@);
        assert(child_map(rm) =~= child_map(cs).remove(cs[j].0@));
    } else {
        lemma_child_map_remove(init, j);
        assert(rm =~= init.remove(j).push(cs.last()));
        lemma_child_map_push(init.remove(j), cs.last());
        assert(init[j] == cs[j]);
        assert(cs[j].0@ != cs[cs.len() - 1].0@);
        assert(child_map(rm) =~= child_map(cs).remove(cs[j].0@));
    }
}

impl Default for NewArena {
    fn default() -> (r: Self)
        ensures
            r.wf(),
            r@ == map![0u64 => NodeView::Branch(Map::empty())],
            r.next_free() == 1,
    {
        NewArena::new()
    }
}

/// The tree: nodes by identifier, the root `0` always a directory.
pub struct NewArena {
    data: HashMap<u64, NewArenaElement>,
    next_id: u64,
}

impl View for NewArena {
    type V = Map<u64, NodeView>;

    closed spec fn view(&self) -> Map<u64, NodeView> {
        self.data@.map_values(|n: NewArenaElement| n@)
    }
}

impl NewArena {
    /// The identifier the next new node gets.
    pub closed spec fn next_free(&self) -> u64 {
        self.next_id
    }

    /// The arena's invariant.
    pub closed spec fn wf(&self) -> bool {
        &&& forall|id: u64| #[trigger] self.data@.contains_key(id) ==> self.data@[id].node_ok()
        &&& tree_ok(self@, self.next_id)
    }

    /// The tree has finitely many nodes.
    pub proof fn lemma_finite(&self)
        ensures
            self@.dom().finite(),
    {
        assert(self@.dom() =~= self.data@.dom());
    }

    /// What the invariant says of the tree's shape.
    pub proof fn lemma_shape(&self)
        requires
            self.wf(),
        ensures
            tree_ok(self@, self.next_free()),
    {
    }

    /// A tree holding only the empty root directory.
    pub fn new() -> (r: Self)
        ensures
            r.wf(),
            r@ == map![0u64 => NodeView::Branch(Map::empty())],
            r.next_free() == 1,
    {
        let mut data: HashMap<u64, NewArenaElement> = HashMap::new();
        data.insert(0, NewArenaElement::Branch(Vec::new()));
        let r = NewArena { data, next_id: 1 };
        proof {
            assert(child_map(Seq::<(String, u64)>::empty()) == Map::<Seq<char>, u64>::empty());
            assert(r@ =~= map![0u64 => NodeView::Branch(Map::empty())]);
            assert forall|p: u64, n: Seq<char>| #[trigger] kids(r@, p).contains_key(n) implies false by {
                if p == 0 {
                    assert(kids(r@, 0) == Map::<Seq<char>, u64>::empty());
                }
            }
        }
        r
    }

    /// Number of nodes, directories and files together.
    pub fn len(&self) -> (r: usize)
        ensures
            r == self@.len(),
    {
        proof {
            assert(self@.dom() =~= self.data@.dom());
        }
        self.data.len()
    }

    /// The node `id`.
    pub fn get(&self, id: u64) -> (r: Option<&NewArenaElement>)
        ensures
            match r {
                Some(n) => self@.contains_key(id) && n@ == self@[id],
                None => !self@.contains_key(id),
            },
    {
        self.data.get(&id)
    }

    /// The child of `parent` named `name`.
    pub fn find_child(&self, parent: u64, name: &str) -> (r: Option<u64>)
        requires
            self.wf(),
        ensures
            r == (if kids(self@, parent).contains_key(name@) {
                Some(kids(self@, parent)[name@])
            } else {
                None
            }),
    {
        match self.data.get(&parent) {
            Some(NewArenaElement::Branch(cs)) => {
                proof {
                    assert(self.data@.contains_key(parent));
                    assert(self.data@[parent].node_ok());
                    assert(self@[parent] == self.data@[parent]@);
                }
                let mut j: usize = 0;
                while j < cs.len()
                    invariant
                        names_unique(cs@),
                        kids(self@, parent) == child_map(cs@),
                        j <= cs.len(),
                        forall|k: int| 0 <= k < j ==> (#[trigger] cs@[k]).0@ != name@,
                    decreases cs.len() - j,
                {
                    if str_eq(cs[j].0.as_str(), name) {
                        proof {
                            lemma_child_map_index(cs@, j as int);
                        }
                        return Some(cs[j].1);
                    }
                    j = j + 1;
                }
                proof {
                    lemma_child_map_absent(cs@, name@);
                }
                None
            },
            _ => {
                proof {
                    if self.data@.contains_key(parent) {
                        assert(self@[parent] == self.data@[parent]@);
                    }
                }
                None
            },
        }
    }

    /// The node at `path` below the root.
    pub fn find(&self, path: &Vec<String>) -> (r: Option<u64>)
        requires
            self.wf(),
        ensures
            r == lookup(self@, 0, crate::path::seg_views(path@)),
    {
        let ghost pv = crate::path::seg_views(path@);
        let mut cur: u64 = 0;
        let mut i: usize = 0;
        proof {
            assert(pv.take(0) =~= Seq::<Seq<char>>::empty());
        }
        while i < path.len()
            invariant
                self.wf(),
                pv == crate::path::seg_views(path@),
                i <= path.len(),
                lookup(self@, 0, pv.take(i as int)) == Some(cur),
            decreases path.len() - i,
        {
            proof {
                assert(pv.take(i + 1) =~= pv.take(i as int).push(pv[i as int]));
                lemma_lookup_push(self@, 0, pv.take(i as int), pv[i as int]);
            }
            match self.find_child(cur, path[i].as_str()) {
                Some(c) => {
                    cur = c;
                },
                None => {
                    proof {
                        lemma_none_stays(self@, 0, pv, i as int + 1);
                    }
                    return None;
                },
            }
            i = i + 1;
        }
        proof {
            assert(pv.take(path.len() as int) =~= pv);
        }
        Some(cur)
    }
}

/// A lookup that fails on a prefix fails on the whole path.
proof fn lemma_none_stays(m: Map<u64, NodeView>, id: u64, path: Seq<Seq<char>>, k: int)
    requires
        0 <= k <= path.len(),
        lookup(m, id, path.take(k)).is_none(),
    ensures
        lookup(m, id, path).is_none(),
    decreases path.len() - k,
{
    if k < path.len() {
        assert(path.take(k + 1) =~= path.take(k).push(path[k]));
        lemma_lookup_push(m, id, path.take(k), path[k]);
        lemma_none_stays(m, id, path, k + 1);
    } else {
        assert(path.take(k) =~= path);
    }
}

/// The only file of `new` that `old` lacks is `id`; the others are as they were.
pub open spec fn one_new_leaf(old: Map<u64, NodeView>, new: Map<u64, NodeView>, id: u64) -> bool {
    forall|x: u64| #[trigger] is_leaf(new, x) ==> x == id || (is_leaf(old, x) && new[x] == old[x])
}

/// `new` has no file that `old` lacks.
pub open spec fn no_new_leaf(old: Map<u64, NodeView>, new: Map<u64, NodeView>) -> bool {
    forall|x: u64| #[trigger] is_leaf(new, x) ==> is_leaf(old, x) && new[x] == old[x]
}

/// Each node of `new` that `old` lacks is reached by a non-empty prefix of
/// `path`.
pub open spec fn new_on_path(
    old: Map<u64, NodeView>,
    new: Map<u64, NodeView>,
    path: Seq<Seq<char>>,
) -> bool {
    forall|x: u64| #[trigger]
        new.contains_key(x) && !old.contains_key(x) ==> exists|j: int|
            1 <= j <= path.len() && lookup(new, 0, path.take(j)) == Some(x)
}

/// `m` with a new node `next` under `parent`, named `name`.
pub open spec fn with_child(
    m: Map<u64, NodeView>,
    parent: u64,
    name: Seq<char>,
    next: u64,
    node: NodeView,
) -> Map<u64, NodeView> {
    m.insert(parent, NodeView::Branch(kids(m, parent).insert(name, next))).insert(next, node)
}

proof fn lemma_with_child(
    m: Map<u64, NodeView>,
    next: u64,
    parent: u64,
    name: Seq<char>,
    node: NodeView,
)
    requires
        tree_ok(m, next),
        is_branch(m, parent),
        !kids(m, parent).contains_key(name),
        next < u64::MAX,
        node is Leaf || node == NodeView::Branch(Map::empty()),
    ensures
        tree_ok(with_child(m, parent, name, next, node), (next + 1) as u64),
        extends(m, with_child(m, parent, name, next, node)),
        !m.contains_key(next),
{
    let m2 = with_child(m, parent, name, next, node);
    assert(!m.contains_key(next));
    assert(parent != next);
    assert(kids(m2, next) =~= Map::<Seq<char>, u64>::empty());
    assert(kids(m2, parent) == kids(m, parent).insert(name, next));
    assert forall|x: u64| x != parent && x != next implies #[trigger] kids(m2, x) == kids(m, x) by {
        if m.contains_key(x) {
            assert(m2[x] == m[x]);
        }
    }
    assert forall|x: u64, n: Seq<char>| #[trigger] kids(m2, x).contains_key(n) implies (x == parent
        && n == name && kids(m2, x)[n] == next) || (kids(m, x).contains_key(n) && kids(m2, x)[n]
        == kids(m, x)[n]) by {
        if x == parent {
            if n != name {
                assert(kids(m2, x)[n] == kids(m, x)[n]);
            }
        }
    }
    assert forall|p: u64, n: Seq<char>| #[trigger] kids(m2, p).contains_key(n) implies m2.contains_key(
        kids(m2, p)[n],
    ) && kids(m2, p)[n] > p by {
        if !(p == parent && n == name) {
            assert(kids(m, p).contains_key(n));
        }
    }
    assert forall|p1: u64, n1: Seq<char>, p2: u64, n2: Seq<char>|
        kids(m2, p1).contains_key(n1) && kids(m2, p2).contains_key(n2) && #[trigger] kids(m2, p1)[n1]
            == #[trigger] kids(m2, p2)[n2] implies p1 == p2 && n1 == n2 by {
        if !(p1 == parent && n1 == name) {
            assert(kids(m, p1).contains_key(n1));
        }
        if !(p2 == parent && n2 == name) {
            assert(kids(m, p2).contains_key(n2));
        }
    }
    assert forall|id: u64| #[trigger] is_leaf(m, id) implies m2[id] == m[id] by {
        assert(id != parent && id != next);
    }
    assert forall|id: u64, n: Seq<char>| #[trigger] kids(m, id).contains_key(n) implies kids(
        m2,
        id,
    ).contains_key(n) && kids(m2, id)[n] == kids(m, id)[n] by {
        assert(id != next);
        if id == parent {
            assert(n != name);
        }
    }
}

proof fn lemma_extends_trans(a: Map<u64, NodeView>, b: Map<u64, NodeView>, c: Map<u64, NodeView>)
    requires
        extends(a, b),
        extends(b, c),
    ensures
        extends(a, c),
{
    assert forall|id: u64| #[trigger] is_leaf(a, id) implies c[id] == a[id] by {
        assert(is_leaf(b, id));
    }
}

proof fn lemma_extends_refl(a: Map<u64, NodeView>)
    ensures
        extends(a, a),
{
}

impl NewArena {
    /// Adds `node` as the child `name` of the directory `parent`.
    fn add_child(&mut self, parent: u64, name: String, node: NewArenaElement) -> (id: u64)
        requires
            old(self).wf(),
            is_branch(old(self)@, parent),
            !kids(old(self)@, parent).contains_key(name@),
            old(self).next_free() < u64::MAX,
            node.node_ok(),
            node@ is Leaf || node@ == NodeView::Branch(Map::empty()),
        ensures
            id == old(self).next_free(),
            final(self).next_free() == id + 1,
            final(self).wf(),
            final(self)@ == with_child(old(self)@, parent, name@, id, node@),
    {
        let id = self.next_id;
        let ghost m = self@;
        let ghost nv = node@;
        proof {
            lemma_with_child(m, id, parent, name@, nv);
        }
        let ghost name_v = name@;
        let removed = self.data.remove(&parent);
        proof {
            assert(m[parent] == removed.unwrap()@);
        }
        if let Some(NewArenaElement::Branch(mut cs)) = removed {
            proof {
                assert(names_unique(cs@));
                assert forall|k: int| 0 <= k < cs@.len() implies (#[trigger] cs@[k]).0@ != name_v by {
                    lemma_child_map_index(cs@, k);
                }
            }
            let ghost cs0 = cs@;
            cs.push((name, id));
            proof {
                lemma_child_map_push(cs0, (cs@.last().0, id));
                assert(names_unique(cs@)) by {
                    assert forall|a: int, b: int| 0 <= a < b < cs@.len() implies (
                    #[trigger] cs@[a]).0@ != (#[trigger] cs@[b]).0@ by {
                        if b < cs0.len() {
                            assert(cs@[a] == cs0[a] && cs@[b] == cs0[b]);
                        } else {
                            assert(cs@[a] == cs0[a]);
                        }
                    }
                }
            }
            self.data.insert(parent, NewArenaElement::Branch(cs));
        }
        self.data.insert(id, node);
        self.next_id = id + 1;
        proof {
            assert(self@ =~= with_child(m, parent, name_v, id, nv));
            assert forall|x: u64| #[trigger] self.data@.contains_key(x) implies self.data@[x].node_ok() by {
                if x != parent && x != id {
                    assert(old(self).data@.contains_key(x));
                }
            }
        }
        id
    }

    /// Places a file holding `value` at `path`, creating the directories on
    /// the way that are missing. A file already at `path` is kept, value and
    /// all, and its identifier returned.
    pub fn insert(&mut self, path: &Vec<String>, value: u64) -> (r: Result<u64, ArenaError>)
        requires
            old(self).wf(),
            path.len() > 0,
        ensures
            final(self).wf(),
            final(self).next_free() >= old(self).next_free(),
            final(self).next_free() <= old(self).next_free() + path.len(),
            match r {
                Ok(id) => {
                    &&& lookup(final(self)@, 0, crate::path::seg_views(path@)) == Some(id)
                    &&& is_leaf(final(self)@, id)
                    &&& extends(old(self)@, final(self)@)
                    &&& match placement(old(self)@, 0, crate::path::seg_views(path@)) {
                        Placement::Existing(e) => id == e && final(self)@ == old(self)@,
                        Placement::Fresh => {
                            &&& !old(self)@.contains_key(id)
                            &&& final(self)@[id] == NodeView::Leaf(value)
                            &&& one_new_leaf(old(self)@, final(self)@, id)
                            &&& new_on_path(old(self)@, final(self)@, crate::path::seg_views(path@))
                            &&& final(self)@.len() == old(self)@.len() + path.len() - present_depth(
                                old(self)@,
                                0,
                                crate::path::seg_views(path@),
                            )
                        },
                        Placement::Conflict => false,
                    }
                },
                Err(ArenaError::NameConflict) => {
                    &&& placement(old(self)@, 0, crate::path::seg_views(path@)) == Placement::Conflict
                    &&& final(self)@ == old(self)@
                },
                Err(ArenaError::Exhausted) => {
                    &&& old(self).next_free() + path.len() > u64::MAX
                    &&& final(self)@ == old(self)@
                },
                Err(ArenaError::Occupied) => false,
            },
    {
        let ghost pv = crate::path::seg_views(path@);
        let ghost m0 = self@;
        let n = path.len();
        if self.next_id > u64::MAX - (n as u64) {
            return Err(ArenaError::Exhausted);
        }
        let mut cur: u64 = 0;
        let mut i: usize = 0;
        let mut missing = false;
        proof {
            assert(pv.take(0) =~= Seq::<Seq<char>>::empty());
            assert(pv.skip(0) =~= pv);
        }
        while i + 1 < n && !missing
            invariant
                self.wf(),
                self@ == m0,
                self.next_free() == old(self).next_free(),
                m0 == old(self)@,
                pv == crate::path::seg_views(path@),
                n == path.len(),
                i + 1 <= n,
                lookup(m0, 0, pv.take(i as int)) == Some(cur),
                is_branch(m0, cur),
                placement(m0, 0, pv) == placement(m0, cur, pv.skip(i as int)),
                present_depth(m0, 0, pv) == i + present_depth(m0, cur, pv.skip(i as int)),
                missing ==> !kids(m0, cur).contains_key(pv[i as int]) && i + 1 < n,
            decreases n - i + (if missing { 0int } else { 1int }),
        {
            let ghost rest = pv.skip(i as int);
            proof {
                assert(rest[0] == pv[i as int]);
                assert(rest.drop_first() =~= pv.skip(i + 1));
                assert(pv.take(i + 1) =~= pv.take(i as int).push(pv[i as int]));
                lemma_lookup_push(m0, 0, pv.take(i as int), pv[i as int]);
                self.lemma_shape();
            }
            match self.find_child(cur, path[i].as_str()) {
                None => {
                    missing = true;
                },
                Some(c) => {
                    let is_file = match self.get(c) {
                        Some(node) => node.is_file(),
                        None => false,
                    };
                    if is_file {
                        return Err(ArenaError::NameConflict);
                    }
                    cur = c;
                    i = i + 1;
                },
            }
        }
        proof {
            self.lemma_shape();
        }
        if !missing {
            let ghost rest = pv.skip(i as int);
            proof {
                assert(i + 1 == n);
                assert(rest.len() == 1);
                assert(rest[0] == pv[i as int]);
                assert(pv.take(i + 1) =~= pv);
                assert(pv.take(i as int).push(pv[i as int]) =~= pv);
                lemma_lookup_push(m0, 0, pv.take(i as int), pv[i as int]);
            }
            match self.find_child(cur, path[i].as_str()) {
                Some(c) => {
                    let is_file = match self.get(c) {
                        Some(node) => node.is_file(),
                        None => false,
                    };
                    if is_file {
                        proof {
                            lemma_extends_refl(m0);
                        }
                        return Ok(c);
                    } else {
                        return Err(ArenaError::NameConflict);
                    }
                },
                None => {},
            }
        }
        proof {
            lemma_extends_refl(m0);
            let rest = pv.skip(i as int);
            assert(rest[0] == pv[i as int]);
            assert(placement(m0, 0, pv) == Placement::Fresh);
            assert(present_depth(m0, cur, rest) == 0);
            self.lemma_finite();
        }
        let ghost depth = i as nat;
        while i + 1 < n
            invariant
                self.wf(),
                m0 == old(self)@,
                pv == crate::path::seg_views(path@),
                n == path.len(),
                i + 1 <= n,
                extends(m0, self@),
                no_new_leaf(m0, self@),
                self.next_free() >= old(self).next_free(),
                self.next_free() <= old(self).next_free() + i,
                self.next_free() + (n - i) <= u64::MAX,
                forall|x: u64| #[trigger]
                    self@.contains_key(x) && !m0.contains_key(x) ==> exists|j: int|
                        1 <= j <= i && lookup(self@, 0, pv.take(j)) == Some(x),
                lookup(self@, 0, pv.take(i as int)) == Some(cur),
                is_branch(self@, cur),
                !kids(self@, cur).contains_key(pv[i as int]),
                depth == present_depth(m0, 0, pv),
                depth <= i,
                self@.dom().finite(),
                self@.len() == m0.len() + (i - depth),
            decreases n - i,
        {
            let ghost before = self@;
            proof {
                self.lemma_shape();
            }
            let seg = path[i].clone();
            let id = self.add_child(cur, seg, NewArenaElement::Branch(Vec::new()));
            proof {
                assert(before.contains_key(cur));
                assert(before.insert(cur, NodeView::Branch(kids(before, cur).insert(pv[i as int], id))).dom()
                    =~= before.dom());
                self.lemma_finite();
                assert(child_map(Seq::<(String, u64)>::empty()) == Map::<Seq<char>, u64>::empty());
                lemma_with_child(before, id, cur, pv[i as int], NodeView::Branch(Map::empty()));
                lemma_extends_trans(m0, before, self@);
                lemma_extends_lookup(before, self@, 0, pv.take(i as int));
                assert(pv.take(i + 1) =~= pv.take(i as int).push(pv[i as int]));
                lemma_lookup_push(self@, 0, pv.take(i as int), pv[i as int]);
                assert(kids(self@, id) =~= Map::<Seq<char>, u64>::empty());
                assert forall|x: u64| #[trigger] is_leaf(self@, x) implies is_leaf(m0, x) && self@[x]
                    == m0[x] by {
                    assert(x != id);
                    assert(is_leaf(before, x));
                }
                assert forall|x: u64| #[trigger]
                    self@.contains_key(x) && !m0.contains_key(x) implies exists|j: int|
                    1 <= j <= i + 1 && lookup(self@, 0, pv.take(j)) == Some(x) by {
                    if x == id {
                        assert(lookup(self@, 0, pv.take(i + 1)) == Some(id));
                    } else {
                        assert(before.contains_key(x));
                        let j = choose|j: int| 1 <= j <= i && lookup(before, 0, pv.take(j)) == Some(x);
                        lemma_extends_lookup(before, self@, 0, pv.take(j));
                    }
                }
            }
            cur = id;
            i = i + 1;
        }
        let ghost before = self@;
        proof {
            self.lemma_shape();
        }
        let seg = path[i].clone();
        let id = self.add_child(cur, seg, NewArenaElement::Leaf(value));
        proof {
            assert(before.contains_key(cur));
            assert(before.insert(cur, NodeView::Branch(kids(before, cur).insert(pv[i as int], id))).dom()
                =~= before.dom());
            lemma_with_child(before, id, cur, pv[i as int], NodeView::Leaf(value));
            lemma_extends_trans(m0, before, self@);
            lemma_extends_lookup(before, self@, 0, pv.take(i as int));
            assert(pv.take(i + 1) =~= pv);
            assert(pv.take(i + 1) =~= pv.take(i as int).push(pv[i as int]));
            lemma_lookup_push(self@, 0, pv.take(i as int), pv[i as int]);
            assert forall|x: u64| #[trigger] is_leaf(self@, x) implies x == id || (is_leaf(m0, x)
                && self@[x] == m0[x]) by {
                if x != id {
                    assert(is_leaf(before, x));
                }
            }
            assert(!m0.contains_key(id));
            assert forall|x: u64| #[trigger]
                self@.contains_key(x) && !m0.contains_key(x) implies exists|j: int|
                1 <= j <= pv.len() && lookup(self@, 0, pv.take(j)) == Some(x) by {
                if x == id {
                    assert(lookup(self@, 0, pv.take(i + 1)) == Some(id));
                } else {
                    assert(before.contains_key(x));
                    let j = choose|j: int| 1 <= j <= i && lookup(before, 0, pv.take(j)) == Some(x);
                    lemma_extends_lookup(before, self@, 0, pv.take(j));
                }
            }
        }
        Ok(id)
    }
}

/// `m` without the child `name` of `p` and without that child's node.
pub open spec fn detached(m: Map<u64, NodeView>, p: u64, name: Seq<char>) -> Map<u64, NodeView> {
    m.remove(kids(m, p)[name]).insert(p, NodeView::Branch(kids(m, p).remove(name)))
}

proof fn lemma_detach_ok(m: Map<u64, NodeView>, next: u64, p: u64, name: Seq<char>)
    requires
        tree_ok(m, next),
        kids(m, p).contains_key(name),
    ensures
        tree_ok(detached(m, p, name), next),
{
    let c = kids(m, p)[name];
    let m2 = detached(m, p, name);
    assert(is_branch(m, p));
    assert(c > p);
    assert(kids(m2, p) == kids(m, p).remove(name));
    assert(kids(m2, c) =~= Map::<Seq<char>, u64>::empty());
    assert forall|x: u64| x != p && x != c implies #[trigger] kids(m2, x) == kids(m, x) by {
        if m.contains_key(x) {
            assert(m2[x] == m[x]);
        }
    }
    assert forall|x: u64, n: Seq<char>| #[trigger] kids(m2, x).contains_key(n) implies kids(
        m,
        x,
    ).contains_key(n) && kids(m2, x)[n] == kids(m, x)[n] && !(x == p && n == name) by {
        if x == p {
            assert(kids(m2, x)[n] == kids(m, x)[n]);
        }
    }
    assert forall|x: u64, n: Seq<char>| #[trigger] kids(m2, x).contains_key(n) implies m2.contains_key(
        kids(m2, x)[n],
    ) && kids(m2, x)[n] > x by {
        assert(kids(m, x).contains_key(n));
        if kids(m, x)[n] == c {
            assert(x == p && n == name);
        }
    }
    assert forall|p1: u64, n1: Seq<char>, p2: u64, n2: Seq<char>|
        kids(m2, p1).contains_key(n1) && kids(m2, p2).contains_key(n2) && #[trigger] kids(m2, p1)[n1]
            == #[trigger] kids(m2, p2)[n2] implies p1 == p2 && n1 == n2 by {
        assert(kids(m, p1).contains_key(n1));
        assert(kids(m, p2).contains_key(n2));
    }
}

/// Where `name` stands in `cs`.
fn index_of(cs: &Vec<(String, u64)>, name: &str) -> (r: usize)
    requires
        child_map(cs@).contains_key(name@),
    ensures
        r < cs.len(),
        cs@[r as int].0@ == name@,
{
    proof {
        lemma_child_map_names(cs@, name@);
    }
    let mut j: usize = 0;
    while j < cs.len()
        invariant
            j <= cs.len(),
            exists|k: int| j <= k < cs.len() && (#[trigger] cs@[k]).0@ == name@,
        decreases cs.len() - j,
    {
        if str_eq(cs[j].0.as_str(), name) {
            return j;
        }
        j = j + 1;
    }
    j
}

impl NewArena {
    /// Removes the node at `path` and its name from its parent directory.
    /// What lies below a removed directory is kept but no longer reachable.
    pub fn remove(&mut self, path: &Vec<String>) -> (r: bool)
        requires
            old(self).wf(),
        ensures
            final(self).wf(),
            final(self).next_free() == old(self).next_free(),
            r == (path.len() > 0 && match lookup(
                old(self)@,
                0,
                crate::path::seg_views(path@).drop_last(),
            ) {
                Some(p) => kids(old(self)@, p).contains_key(crate::path::seg_views(path@).last()),
                None => false,
            }),
            r ==> final(self)@ == detached(
                old(self)@,
                lookup(old(self)@, 0, crate::path::seg_views(path@).drop_last()).unwrap(),
                crate::path::seg_views(path@).last(),
            ),
            r ==> lookup(final(self)@, 0, crate::path::seg_views(path@)).is_none(),
            !r ==> final(self)@ == old(self)@,
    {
        let ghost pv = crate::path::seg_views(path@);
        let n = path.len();
        if n == 0 {
            return false;
        }
        let ghost init = pv.drop_last();
        let mut cur: u64 = 0;
        let mut i: usize = 0;
        proof {
            assert(init.take(0) =~= Seq::<Seq<char>>::empty());
        }
        while i + 1 < n
            invariant
                self.wf(),
                self@ == old(self)@,
                self.next_free() == old(self).next_free(),
                pv == crate::path::seg_views(path@),
                init == pv.drop_last(),
                n == path.len(),
                n > 0,
                i + 1 <= n,
                lookup(self@, 0, init.take(i as int)) == Some(cur),
            decreases n - i,
        {
            proof {
                assert(init.take(i + 1) =~= init.take(i as int).push(init[i as int]));
                assert(init[i as int] == pv[i as int]);
                lemma_lookup_push(self@, 0, init.take(i as int), init[i as int]);
            }
            match self.find_child(cur, path[i].as_str()) {
                Some(c) => {
                    cur = c;
                },
                None => {
                    proof {
                        lemma_none_stays(self@, 0, init, i as int + 1);
                    }
                    return false;
                },
            }
            i = i + 1;
        }
        proof {
            assert(init.take(i as int) =~= init);
            assert(pv.last() == pv[n - 1]);
        }
        let c = match self.find_child(cur, path[n - 1].as_str()) {
            Some(c) => c,
            None => {
                return false;
            },
        };
        let ghost m = self@;
        let ghost name = pv.last();
        proof {
            self.lemma_shape();
            lemma_detach_ok(m, self.next_id, cur, name);
        }
        let removed = self.data.remove(&cur);
        proof {
            assert(m[cur] == removed.unwrap()@);
        }
        if let Some(NewArenaElement::Branch(mut cs)) = removed {
            let j = index_of(&cs, path[n - 1].as_str());
            proof {
                lemma_child_map_remove(cs@, j as int);
            }
            let _ = cs.remove(j);
            self.data.insert(cur, NewArenaElement::Branch(cs));
        }
        let _ = self.data.remove(&c);
        proof {
            assert(self@ =~= detached(m, cur, name));
            assert forall|x: u64| #[trigger] self.data@.contains_key(x) implies self.data@[x].node_ok() by {
                if x != cur {
                    assert(old(self).data@.contains_key(x));
                }
            }
            assert(c > cur);
            lemma_lookup_climbs(m, self.next_id, 0, init);
            lemma_detach_lookup(m, self.next_id, cur, name, c, 0, init);
            assert(pv =~= init.push(name));
            lemma_lookup_push(self@, 0, init, name);
        }
        true
    }

    /// The children of node `id`, by name; none unless it is a directory.
    pub fn children(&self, id: u64) -> (r: Vec<(String, u64)>)
        requires
            self.wf(),
        ensures
            names_unique(r@),
            child_map(r@) == kids(self@, id),
    {
        let mut r: Vec<(String, u64)> = Vec::new();
        match self.data.get(&id) {
            Some(NewArenaElement::Branch(cs)) => {
                proof {
                    assert(self.data@[id].node_ok());
                    assert(self@[id] == self.data@[id]@);
                }
                let mut j: usize = 0;
                while j < cs.len()
                    invariant
                        j <= cs.len(),
                        r@ =~= cs@.take(j as int),
                    decreases cs.len() - j,
                {
                    let name = cs[j].0.clone();
                    r.push((name, cs[j].1));
                    j = j + 1;
                }
                proof {
                    assert(cs@.take(cs.len() as int) =~= cs@);
                }
            },
            _ => {
                proof {
                    if self.data@.contains_key(id) {
                        assert(self@[id] == self.data@[id]@);
                    }
                    assert(child_map(r@) == Map::<Seq<char>, u64>::empty());
                }
            },
        }
        r
    }
}

/// Every node a lookup from the root reaches is in the tree.
pub proof fn lemma_lookup_present(m: Map<u64, NodeView>, next: u64, id: u64, path: Seq<Seq<char>>)
    requires
        tree_ok(m, next),
        m.contains_key(id),
    ensures
        lookup(m, id, path) matches Some(r) ==> m.contains_key(r),
    decreases path.len(),
{
    if path.len() > 0 && kids(m, id).contains_key(path[0]) {
        lemma_lookup_present(m, next, kids(m, id)[path[0]], path.drop_first());
    }
}

/// Children with distinct names: as many entries as names.
pub proof fn lemma_child_map_len(cs: Seq<(String, u64)>)
    requires
        names_unique(cs),
    ensures
        child_map(cs).dom().finite(),
        child_map(cs).len() == cs.len(),
    decreases cs.len(),
{
    if cs.len() > 0 {
        let init = cs.drop_last();
        assert(names_unique(init)) by {
            assert forall|a: int, b: int| 0 <= a < b < init.len() implies (#[trigger] init[a]).0@
                != (#[trigger] init[b]).0@ by {
                assert(init[a] == cs[a] && init[b] == cs[b]);
            }
        }
        lemma_child_map_len(init);
        assert forall|j: int| 0 <= j < init.len() implies (#[trigger] init[j]).0@ != cs.last().0@ by {
            assert(init[j] == cs[j]);
        }
        lemma_child_map_absent(init, cs.last().0@);
    }
}

/// In a tree, one node is reached from the root by one path only.
pub proof fn lemma_lookup_unique(
    m: Map<u64, NodeView>,
    next: u64,
    p1: Seq<Seq<char>>,
    p2: Seq<Seq<char>>,
)
    requires
        tree_ok(m, next),
        lookup(m, 0, p1).is_some(),
        lookup(m, 0, p1) == lookup(m, 0, p2),
    ensures
        p1 == p2,
    decreases p1.len() + p2.len(),
{
    let x = lookup(m, 0, p1).unwrap();
    lemma_lookup_climbs(m, next, 0, p1);
    lemma_lookup_climbs(m, next, 0, p2);
    if p1.len() == 0 || p2.len() == 0 {
        assert(p1.len() == 0 && p2.len() == 0);
        assert(p1 =~= p2);
    } else {
        let a1 = p1.drop_last();
        let a2 = p2.drop_last();
        let s1 = p1.last();
        let s2 = p2.last();
        assert(p1 =~= a1.push(s1));
        assert(p2 =~= a2.push(s2));
        lemma_lookup_push(m, 0, a1, s1);
        lemma_lookup_push(m, 0, a2, s2);
        let y1 = lookup(m, 0, a1).unwrap();
        let y2 = lookup(m, 0, a2).unwrap();
        assert(kids(m, y1)[s1] == kids(m, y2)[s2]);
        assert(y1 == y2 && s1 == s2);
        lemma_lookup_unique(m, next, a1, a2);
    }
}

/// The prefix of `path` of length `j` reaches a file before the end of
/// `path`, or the whole of it reaches a directory.
pub open spec fn conflict_at(m: Map<u64, NodeView>, x: u64, path: Seq<Seq<char>>, j: int) -> bool {
    match lookup(m, x, path.take(j)) {
        Some(c) => (j < path.len() && is_leaf(m, c)) || (j == path.len() && is_branch(m, c)),
        None => false,
    }
}

/// Where inserting `path` below `x` conflicts, some prefix of it reaches a
/// file before its end, or the whole of it reaches a directory.
pub proof fn lemma_conflict_witness(m: Map<u64, NodeView>, next: u64, x: u64, path: Seq<Seq<char>>)
    requires
        tree_ok(m, next),
        placement(m, x, path) == Placement::Conflict,
        path.len() > 0,
    ensures
        exists|j: int| 1 <= j <= path.len() && #[trigger] conflict_at(m, x, path, j),
    decreases path.len(),
{
    let c = kids(m, x)[path[0]];
    assert(path.take(1).drop_first() =~= Seq::<Seq<char>>::empty());
    assert(path.take(1)[0] == path[0]);
    assert(kids(m, x).contains_key(path[0]));
    assert(lookup(m, c, path.take(1).drop_first()) == Some(c));
    assert(lookup(m, x, path.take(1)) == Some(c));
    if path.len() == 1 {
        assert(m.contains_key(c));
        assert(is_branch(m, c));
        assert(conflict_at(m, x, path, 1));
    } else if !is_leaf(m, c) {
        let rest = path.drop_first();
        lemma_conflict_witness(m, next, c, rest);
        let j = choose|j: int| 1 <= j <= rest.len() && #[trigger] conflict_at(m, c, rest, j);
        assert(path.take(j + 1).drop_first() =~= rest.take(j));
        assert(path.take(j + 1)[0] == path[0]);
        assert(lookup(m, x, path.take(j + 1)) == lookup(m, c, rest.take(j)));
        assert(conflict_at(m, x, path, j + 1));
    } else {
        assert(conflict_at(m, x, path, 1));
    }
}

/// An `Existing` placement names the file that the whole path reaches.
pub proof fn lemma_placement_existing(m: Map<u64, NodeView>, next: u64, x: u64, path: Seq<Seq<char>>)
    requires
        tree_ok(m, next),
        placement(m, x, path) is Existing,
    ensures
        lookup(m, x, path) == Some(placement(m, x, path)->Existing_0),
        is_leaf(m, placement(m, x, path)->Existing_0),
    decreases path.len(),
{
    let c = kids(m, x)[path[0]];
    if path.len() == 1 {
        assert(path.drop_first() =~= Seq::<Seq<char>>::empty());
        assert(lookup(m, c, path.drop_first()) == Some(c));
    } else {
        lemma_placement_existing(m, next, c, path.drop_first());
    }
}

} // verus!
