use vstd::prelude::*;
use std::collections::HashMap;

use crate::arena::{
    child_map, detached, extends, is_branch, is_leaf, kids, lemma_detach_lookup,
    lemma_extends_lookup, lemma_lookup_push, lookup, names_unique, new_on_path, one_new_leaf,
    placement, ArenaError, NewArena, NodeView, Placement,
};
use crate::entry::OrganizeFSEntry;
use crate::path::{join, resolve, seg_views, split};

verus! {

broadcast use vstd::std_specs::hash::group_hash_axioms;

/// The entry key held by the file node `x` of `m`.
pub open spec fn leaf_key(m: Map<u64, NodeView>, x: u64) -> u64 {
    match m[x] {
        NodeView::Leaf(k) => k,
        NodeView::Branch(_) => 0,
    }
}

/// Every file node of `tree` stands for an entry of `table` and is the node
/// found at that entry's virtual path; every entry of `table` is found at
/// its virtual path as a file node that stands for it.
pub open spec fn consistent(
    tree: Map<u64, NodeView>,
    table: Map<u64, OrganizeFSEntry>,
    pattern: Seq<Seq<char>>,
) -> bool {
    &&& forall|x: u64| #[trigger] is_leaf(tree, x) ==> {
        &&& table.contains_key(leaf_key(tree, x))
        &&& lookup(tree, 0, table[leaf_key(tree, x)].local_path_spec(pattern)) == Some(x)
    }
    &&& forall|k: u64| #[trigger] table.contains_key(k) ==> {
        &&& lookup(tree, 0, table[k].local_path_spec(pattern)) matches Some(x)
        &&& is_leaf(tree, x)
        &&& leaf_key(tree, x) == k
    }
}

/// Every directory of `tree` but the root is reached by a proper prefix of
/// the virtual path of an entry of `table`.
pub open spec fn compact_tree(
    tree: Map<u64, NodeView>,
    table: Map<u64, OrganizeFSEntry>,
    pattern: Seq<Seq<char>>,
) -> bool {
    forall|x: u64| #[trigger]
        is_branch(tree, x) && x != 0 ==> exists|k: u64, j: int| #[trigger]
            on_path_of(tree, table, pattern, k, j, x)
}

/// The store: the current pattern, the table of entries by key, and the tree
/// that places each entry at its virtual path.
pub struct TreeStorage {
    pattern: Vec<String>,
    nodes: NewArena,
    entries: HashMap<u64, OrganizeFSEntry>,
    next_key: u64,
}

/// A node found in a store.
pub struct StorageEntry<'a> {
    node_id: u64,
    store: &'a TreeStorage,
}

impl TreeStorage {
    /// The tree of the store.
    pub closed spec fn tree(&self) -> Map<u64, NodeView> {
        self.nodes@
    }

    /// The entries of the store, by key.
    pub closed spec fn table(&self) -> Map<u64, OrganizeFSEntry> {
        self.entries@
    }

    /// The segments of the current pattern.
    pub closed spec fn pattern_segs(&self) -> Seq<Seq<char>> {
        seg_views(self.pattern@)
    }

    /// Keys and node identifiers remain for an entry whose virtual path has
    /// `n` segments.
    pub closed spec fn has_room(&self, n: nat) -> bool {
        self.next_key + n < u64::MAX && self.nodes.next_free() + n <= u64::MAX
    }

    /// Every directory but the root lies on the virtual path of an entry:
    /// no directory was left behind by a removal.
    pub open spec fn compact(&self) -> bool {
        compact_tree(self.tree(), self.table(), self.pattern_segs())
    }

    /// The store's invariant.
    pub closed spec fn wf(&self) -> bool {
        &&& self.nodes.wf()
        &&& forall|k: u64| #[trigger] self.entries@.contains_key(k) ==> k < self.next_key
        &&& consistent(self.nodes@, self.entries@, seg_views(self.pattern@))
    }

    /// The node that `path` names, once normalized.
    pub open spec fn find_spec(&self, path: Seq<char>) -> Option<u64> {
        lookup(self.tree(), 0, resolve(split(path)))
    }

    /// A well-formed store places every file node at the virtual path of
    /// the entry it stands for, and every entry at a file node.
    pub proof fn lemma_consistent(&self)
        requires
            self.wf(),
        ensures
            consistent(self.tree(), self.table(), self.pattern_segs()),
            crate::arena::tree_ok(self.tree(), self.next_node()),
            self.tree().dom().finite(),
    {
        self.nodes.lemma_shape();
        self.nodes.lemma_finite();
    }

    /// The identifier the tree's next new node gets.
    pub closed spec fn next_node(&self) -> u64 {
        self.nodes.next_free()
    }

    /// Every node that a path names is a directory or a file.
    pub proof fn lemma_node_kinds(&self)
        requires
            self.wf(),
        ensures
            crate::arena::tree_ok(self.tree(), self.next_node()),
            forall|p: Seq<char>| #[trigger]
                self.find_spec(p).is_some() ==> self.tree().contains_key(self.find_spec(p).unwrap()),
    {
        self.nodes.lemma_shape();
        assert forall|p: Seq<char>| #[trigger]
            self.find_spec(p).is_some() implies self.tree().contains_key(self.find_spec(p).unwrap()) by {
            crate::arena::lemma_lookup_present(self.tree(), self.next_node(), 0, resolve(split(p)));
        }
    }

    /// An empty store whose tree is shaped by `pattern`.
    pub fn new(pattern: &str) -> (r: Self)
        ensures
            r.wf(),
            r.pattern_segs() == resolve(split(pattern@)),
            r.table() == Map::<u64, OrganizeFSEntry>::empty(),
            r.tree() == map![0u64 => NodeView::Branch(Map::empty())],
            r.compact(),
            forall|n: nat| n < u64::MAX ==> #[trigger] r.has_room(n),
    {
        let segs = crate::path::path_segments(pattern);
        let nodes = NewArena::new();
        let entries: HashMap<u64, OrganizeFSEntry> = HashMap::new();
        let r = TreeStorage { pattern: segs, nodes, entries, next_key: 0 };
        proof {
            assert forall|x: u64| #[trigger] is_leaf(r.nodes@, x) implies false by {}
        }
        r
    }

    /// The current pattern, as a normal path.
    pub fn get_pattern(&self) -> (r: String)
        ensures
            r@ == join(self.pattern_segs()),
    {
        crate::path::join_path(&self.pattern)
    }

    /// Number of files in the store: its entries, as many as the file
    /// nodes of its tree.
    pub fn len(&self) -> (r: usize)
        requires
            self.wf(),
        ensures
            r == self.table().len(),
            r == file_nodes(self.tree()).len(),
    {
        proof {
            self.lemma_consistent();
            self.nodes.lemma_finite();
            lemma_files_match_entries(self.tree(), self.table(), self.pattern_segs());
        }
        self.entries.len()
    }

    /// Whether the store holds no file.
    pub fn is_empty(&self) -> (r: bool)
        ensures
            r == (self.table().len() == 0),
    {
        self.entries.len() == 0
    }

    /// Number of nodes of the tree, directories and files together.
    pub fn node_count(&self) -> (r: usize)
        ensures
            r == self.tree().len(),
    {
        self.nodes.len()
    }

    /// Adds `entry` at its virtual path under the current pattern and returns
    /// its key. Fails, changing nothing, where a file already stands at that
    /// path, where the path runs into a file or ends on a directory, or where
    /// no key or identifier is left.
    pub fn add_entry(&mut self, entry: OrganizeFSEntry) -> (r: Result<u64, ArenaError>)
        requires
            old(self).wf(),
        ensures
            final(self).wf(),
            final(self).pattern_segs() == old(self).pattern_segs(),
            match r {
                Ok(k) => {
                    &&& !old(self).table().contains_key(k)
                    &&& final(self).table() == old(self).table().insert(k, entry)
                    &&& placement(
                        old(self).tree(),
                        0,
                        entry.local_path_spec(old(self).pattern_segs()),
                    ) == Placement::Fresh
                    &&& lookup(final(self).tree(), 0, entry.local_path_spec(old(self).pattern_segs()))
                        matches Some(x)
                    &&& is_leaf(final(self).tree(), x)
                    &&& leaf_key(final(self).tree(), x) == k
                    &&& extends(old(self).tree(), final(self).tree())
                    &&& forall|q: Seq<char>| #[trigger]
                        old(self).find_spec(q).is_some() ==> final(self).find_spec(q) == old(
                            self,
                        ).find_spec(q)
                    &&& one_new_leaf(old(self).tree(), final(self).tree(), x)
                    &&& new_on_path(
                        old(self).tree(),
                        final(self).tree(),
                        entry.local_path_spec(old(self).pattern_segs()),
                    )
                    &&& final(self).tree().len() == old(self).tree().len()
                        + entry.local_path_spec(old(self).pattern_segs()).len()
                        - crate::arena::present_depth(
                        old(self).tree(),
                        0,
                        entry.local_path_spec(old(self).pattern_segs()),
                    )
                    &&& old(self).compact() ==> final(self).compact()
                    &&& forall|n: nat| #[trigger]
                        old(self).has_room(n + entry.local_path_spec(old(self).pattern_segs()).len())
                            ==> final(self).has_room(n)
                },
                Err(e) => {
                    &&& final(self).table() == old(self).table()
                    &&& final(self).tree() == old(self).tree()
                    &&& e == ArenaError::Occupied ==> placement(
                        old(self).tree(),
                        0,
                        entry.local_path_spec(old(self).pattern_segs()),
                    ) is Existing
                    &&& placement(
                        old(self).tree(),
                        0,
                        entry.local_path_spec(old(self).pattern_segs()),
                    ) is Existing ==> e == ArenaError::Occupied || e == ArenaError::Exhausted
                    &&& e == ArenaError::NameConflict ==> placement(
                        old(self).tree(),
                        0,
                        entry.local_path_spec(old(self).pattern_segs()),
                    ) == Placement::Conflict
                    &&& e == ArenaError::Exhausted ==> !old(self).has_room(
                        entry.local_path_spec(old(self).pattern_segs()).len(),
                    )
                },
            },
            placement(old(self).tree(), 0, entry.local_path_spec(old(self).pattern_segs()))
                == Placement::Fresh && old(self).has_room(
                entry.local_path_spec(old(self).pattern_segs()).len(),
            ) ==> r is Ok,
    {
        if self.next_key == u64::MAX {
            return Err(ArenaError::Exhausted);
        }
        let lp = entry.local_path(&self.pattern);
        if lp.len() == 0 {
            return Err(ArenaError::NameConflict);
        }
        let k = self.next_key;
        let ghost tree0 = self.nodes@;
        let ghost table0 = self.entries@;
        let ghost pat = seg_views(self.pattern@);
        proof {
            self.nodes.lemma_shape();
        }
        match self.nodes.insert(&lp, k) {
            Err(e) => Err(e),
            Ok(id) => {
                let fresh = match self.nodes.get(id) {
                    Some(node) => node.inner() == Some(k),
                    None => false,
                };
                if !fresh {
                    proof {
                        if placement(tree0, 0, seg_views(lp@)) == Placement::Fresh {
                            assert(leaf_key(self.nodes@, id) == k);
                        }
                    }
                    return Err(ArenaError::Occupied);
                }
                proof {
                    if placement(tree0, 0, seg_views(lp@)) is Existing {
                        assert(is_leaf(tree0, id));
                        assert(table0.contains_key(leaf_key(tree0, id)));
                    }
                }
                let ghost e = entry;
                self.entries.insert(k, entry);
                self.next_key = k + 1;
                proof {
                    let tree = self.nodes@;
                    let table = self.entries@;
                    assert(!table0.contains_key(k));
                    assert forall|x: u64| #[trigger] is_leaf(tree, x) implies table.contains_key(
                        leaf_key(tree, x),
                    ) && lookup(tree, 0, table[leaf_key(tree, x)].local_path_spec(pat)) == Some(
                        x,
                    ) by {
                        if x != id {
                            assert(is_leaf(tree0, x) && tree[x] == tree0[x]);
                            let kx = leaf_key(tree0, x);
                            assert(kx != k);
                            lemma_extends_lookup(tree0, tree, 0, table0[kx].local_path_spec(pat));
                        }
                    }
                    assert forall|j: u64| #[trigger] table.contains_key(j) implies (lookup(
                        tree,
                        0,
                        table[j].local_path_spec(pat),
                    ) matches Some(x) && is_leaf(tree, x) && leaf_key(tree, x) == j) by {
                        if j == k {
                            assert(table[k] == e);
                            assert(lookup(tree, 0, e.local_path_spec(pat)) == Some(id));
                        } else {
                            assert(table0.contains_key(j));
                            let x = lookup(tree0, 0, table0[j].local_path_spec(pat)).unwrap();
                            lemma_extends_lookup(tree0, tree, 0, table0[j].local_path_spec(pat));
                            assert(tree[x] == tree0[x]);
                        }
                    }
                }
                proof {
                    assert forall|q: Seq<char>| #[trigger]
                        old(self).find_spec(q).is_some() implies self.find_spec(q) == old(
                        self,
                    ).find_spec(q) by {
                        lemma_extends_lookup(tree0, self.nodes@, 0, resolve(split(q)));
                    }
                }
                proof {
                    let tree = self.nodes@;
                    let table = self.entries@;
                    let lpk = e.local_path_spec(pat);
                    assert(table[k] == e);
                    if compact_tree(tree0, table0, pat) {
                        assert forall|x: u64| #[trigger]
                            is_branch(tree, x) && x != 0 implies exists|k2: u64, j: int| #[trigger]
                            on_path_of(tree, table, pat, k2, j, x) by {
                            if tree0.contains_key(x) {
                                if is_leaf(tree0, x) {
                                    assert(tree[x] == tree0[x]);
                                }
                                assert(is_branch(tree0, x));
                                let (k2, j) = choose|k2: u64, j: int| #[trigger]
                                    on_path_of(tree0, table0, pat, k2, j, x);
                                assert(k2 != k);
                                assert(table[k2] == table0[k2]);
                                lemma_extends_lookup(
                                    tree0,
                                    tree,
                                    0,
                                    table0[k2].local_path_spec(pat).take(j),
                                );
                                assert(on_path_of(tree, table, pat, k2, j, x));
                            } else {
                                let j = choose|j: int|
                                    1 <= j <= lpk.len() && lookup(tree, 0, lpk.take(j)) == Some(x);
                                if j == lpk.len() {
                                    assert(lpk.take(j) =~= lpk);
                                }
                                assert(on_path_of(tree, table, pat, k, j, x));
                            }
                        }
                    }
                }
                Ok(k)
            },
        }
    }

    /// The node at `path`, once normalized.
    pub fn find(&self, path: &str) -> (r: Option<StorageEntry<'_>>)
        requires
            self.wf(),
        ensures
            match r {
                Some(e) => self.find_spec(path@) == Some(e.node()) && e.store() == *self,
                None => self.find_spec(path@).is_none(),
            },
    {
        let segs = crate::path::path_segments(path);
        match self.nodes.find(&segs) {
            Some(id) => Some(StorageEntry { node_id: id, store: self }),
            None => None,
        }
    }

    /// Removes the file at `path` (once normalized) and its entry. Directories
    /// are not removed, nor any directory left empty.
    pub fn remove(&mut self, path: &str) -> (r: bool)
        requires
            old(self).wf(),
        ensures
            final(self).wf(),
            final(self).pattern_segs() == old(self).pattern_segs(),
            r == (old(self).find_spec(path@) matches Some(x) && is_leaf(old(self).tree(), x)),
            r ==> final(self).find_spec(path@).is_none(),
            r ==> final(self).table() == old(self).table().remove(
                leaf_key(old(self).tree(), old(self).find_spec(path@).unwrap()),
            ),
            r ==> old(self).table().contains_key(
                leaf_key(old(self).tree(), old(self).find_spec(path@).unwrap()),
            ),
            r ==> final(self).table().len() == old(self).table().len() - 1,
            r ==> forall|q: Seq<char>| #[trigger]
                old(self).find_spec(q).is_some() && old(self).find_spec(q) != old(self).find_spec(
                    path@,
                ) ==> final(self).find_spec(q) == old(self).find_spec(q),
            r ==> final(self).tree() == detached(
                old(self).tree(),
                lookup(old(self).tree(), 0, resolve(split(path@)).drop_last()).unwrap(),
                resolve(split(path@)).last(),
            ),
            !r ==> final(self).table() == old(self).table() && final(self).tree() == old(
                self,
            ).tree(),
    {
        let segs = crate::path::path_segments(path);
        let ghost sv = seg_views(segs@);
        let ghost tree0 = self.nodes@;
        let ghost table0 = self.entries@;
        let ghost pat = seg_views(self.pattern@);
        let id = match self.nodes.find(&segs) {
            Some(id) => id,
            None => {
                return false;
            },
        };
        let key = match self.nodes.get(id) {
            Some(node) => match node.inner() {
                Some(k) => k,
                None => {
                    return false;
                },
            },
            None => {
                return false;
            },
        };
        proof {
            self.nodes.lemma_shape();
            assert(sv.len() > 0);
            assert(sv =~= sv.drop_last().push(sv.last()));
            lemma_lookup_push(tree0, 0, sv.drop_last(), sv.last());
        }
        let removed = self.nodes.remove(&segs);
        let _ = self.entries.remove(&key);
        proof {
            assert(is_leaf(tree0, id));
            assert(leaf_key(tree0, id) == key);
            assert(table0.contains_key(key));
            assert(self.entries@.dom() =~= table0.dom().remove(key));
            assert(table0.dom().finite());
        }
        proof {
            let tree = self.nodes@;
            let table = self.entries@;
            let p = lookup(tree0, 0, sv.drop_last()).unwrap();
            let name = sv.last();
            assert(kids(tree0, p)[name] == id);
            assert(is_leaf(tree0, id));
            assert(leaf_key(tree0, id) == key);
            assert(lookup(tree0, 0, table0[key].local_path_spec(pat)) == Some(id));
            assert forall|x: u64| #[trigger] is_leaf(tree, x) implies table.contains_key(
                leaf_key(tree, x),
            ) && lookup(tree, 0, table[leaf_key(tree, x)].local_path_spec(pat)) == Some(x) by {
                assert(x != id);
                assert(tree[x] == tree0[x]);
                assert(is_leaf(tree0, x));
                let kx = leaf_key(tree0, x);
                assert(kx != key);
                lemma_detach_lookup(
                    tree0,
                    self.nodes.next_free(),
                    p,
                    name,
                    id,
                    0,
                    table0[kx].local_path_spec(pat),
                );
            }
            assert forall|j: u64| #[trigger] table.contains_key(j) implies (lookup(
                tree,
                0,
                table[j].local_path_spec(pat),
            ) matches Some(x) && is_leaf(tree, x) && leaf_key(tree, x) == j) by {
                assert(table0.contains_key(j) && j != key);
                let x = lookup(tree0, 0, table0[j].local_path_spec(pat)).unwrap();
                assert(x != id);
                lemma_detach_lookup(
                    tree0,
                    self.nodes.next_free(),
                    p,
                    name,
                    id,
                    0,
                    table0[j].local_path_spec(pat),
                );
                assert(tree[x] == tree0[x]);
            }
        }
        proof {
            let p = lookup(tree0, 0, sv.drop_last()).unwrap();
            let name = sv.last();
            assert forall|q: Seq<char>| #[trigger]
                old(self).find_spec(q).is_some() && old(self).find_spec(q) != old(self).find_spec(
                    path@,
                ) implies self.find_spec(q) == old(self).find_spec(q) by {
                assert(kids(tree0, p)[name] == id);
                assert(id > p);
                lemma_detach_lookup(tree0, self.nodes.next_free(), p, name, id, 0, resolve(split(q)));
            }
        }
        removed
    }
}

impl<'a> StorageEntry<'a> {
    /// The identifier of the node.
    pub closed spec fn node(&self) -> u64 {
        self.node_id
    }

    /// The store the node was found in.
    pub closed spec fn store(&self) -> TreeStorage {
        *self.store
    }

    /// Whether the node is a directory.
    pub fn is_directory(&self) -> (r: bool)
        ensures
            r == is_branch(self.store().tree(), self.node()),
    {
        match self.store.nodes.get(self.node_id) {
            Some(n) => n.is_directory(),
            None => false,
        }
    }

    /// Whether the node is a file.
    pub fn is_file(&self) -> (r: bool)
        ensures
            r == is_leaf(self.store().tree(), self.node()),
    {
        match self.store.nodes.get(self.node_id) {
            Some(n) => n.is_file(),
            None => false,
        }
    }

    /// Where the file lives on the host.
    pub fn host_path(&self) -> (r: String)
        requires
            self.store().wf(),
            is_leaf(self.store().tree(), self.node()),
        ensures
            r@ == self.store().table()[leaf_key(self.store().tree(), self.node())].host_path@,
    {
        let k = match self.store.nodes.get(self.node_id) {
            Some(n) => match n.inner() {
                Some(k) => k,
                None => 0,
            },
            None => 0,
        };
        proof {
            self.store.lemma_consistent();
        }
        match self.store.entries.get(&k) {
            Some(e) => e.host_path.clone(),
            None => String::new(),
        }
    }

    /// The children of a directory, by name, each with its node; none for a
    /// file.
    pub fn children(&self) -> (r: Vec<(String, StorageEntry<'a>)>)
        requires
            self.store().wf(),
        ensures
            names_unique(listing_ids(r@)),
            child_map(listing_ids(r@)) == kids(self.store().tree(), self.node()),
            forall|i: int| 0 <= i < r.len() ==> (#[trigger] r@[i]).1.store() == self.store(),
    {
        proof {
            self.store.lemma_consistent();
        }
        let cs = self.store.nodes.children(self.node_id);
        let mut r: Vec<(String, StorageEntry<'a>)> = Vec::new();
        let mut j: usize = 0;
        while j < cs.len()
            invariant
                j <= cs.len(),
                listing_ids(r@) =~= cs@.take(j as int),
                forall|i: int| 0 <= i < r.len() ==> (#[trigger] r@[i]).1.store() == *self.store,
            decreases cs.len() - j,
        {
            let name = cs[j].0.clone();
            let ghost r0 = r@;
            r.push((name, StorageEntry { node_id: cs[j].1, store: self.store }));
            proof {
                assert(r@ == r0.push(r@.last()));
                assert(r@.last().1.node() == cs@[j as int].1);
                assert(r@.last().0 == cs@[j as int].0);
                assert(listing_ids(r@) =~= listing_ids(r0).push(cs@[j as int]));
                assert(cs@.take(j + 1) =~= cs@.take(j as int).push(cs@[j as int]));
                assert(listing_ids(r@) =~= cs@.take(j + 1));
            }
            j = j + 1;
        }
        proof {
            assert(cs@.take(cs.len() as int) =~= cs@);
        }
        r
    }
}

/// The names and node identifiers of a listing.
pub open spec fn listing_ids<'a>(r: Seq<(String, StorageEntry<'a>)>) -> Seq<(String, u64)> {
    r.map_values(|p: (String, StorageEntry<'a>)| (p.0, p.1.node()))
}

/// Round trip: once `add_entry` has stored `e` under the key `k`, looking up
/// the virtual path of `e` under the store's pattern, written out as a path,
/// finds a file that stands for `e` and has the host path of `e`.
pub proof fn lemma_round_trip(st: &TreeStorage, k: u64, e: OrganizeFSEntry)
    requires
        st.wf(),
        st.table().contains_key(k),
        st.table()[k] == e,
    ensures
        st.find_spec(join(e.local_path_spec(st.pattern_segs()))) matches Some(x) && is_leaf(
            st.tree(),
            x,
        ) && leaf_key(st.tree(), x) == k && st.table()[leaf_key(st.tree(), x)].host_path
            == e.host_path,
{
    st.lemma_consistent();
    let q = join(e.raw_path_spec(st.pattern_segs()));
    crate::path::lemma_normalize_idempotent(q);
}

/// The file nodes of `tree`.
pub open spec fn file_nodes(tree: Map<u64, NodeView>) -> Set<u64> {
    tree.dom().filter(|x: u64| is_leaf(tree, x))
}

/// In a consistent store there are as many file nodes as entries.
pub proof fn lemma_files_match_entries(
    tree: Map<u64, NodeView>,
    table: Map<u64, OrganizeFSEntry>,
    pattern: Seq<Seq<char>>,
)
    requires
        tree.dom().finite(),
        consistent(tree, table, pattern),
    ensures
        file_nodes(tree).len() == table.len(),
{
    let xs = file_nodes(tree);
    let f = |x: u64| leaf_key(tree, x);
    assert(xs.finite());
    assert(vstd::relations::injective_on(f, xs)) by {
        assert forall|a: u64, b: u64| xs.contains(a) && xs.contains(b) && #[trigger] f(a) == #[trigger] f(b)
            implies a == b by {
            assert(is_leaf(tree, a) && is_leaf(tree, b));
        }
    }
    assert(xs.map(f) =~= table.dom()) by {
        assert forall|k: u64| table.dom().contains(k) implies xs.map(f).contains(k) by {
            let x = lookup(tree, 0, table[k].local_path_spec(pattern)).unwrap();
            assert(xs.contains(x));
            assert(f(x) == k);
        }
        assert forall|k: u64| xs.map(f).contains(k) implies table.dom().contains(k) by {
            let x = choose|x: u64| xs.contains(x) && f(x) == k;
            assert(is_leaf(tree, x));
        }
    }
    vstd::set_lib::lemma_map_size(xs, table.dom(), f);
}

/// `a` is `b` or begins it.
pub open spec fn is_prefix(a: Seq<Seq<char>>, b: Seq<Seq<char>>) -> bool {
    a.len() <= b.len() && b.take(a.len() as int) == a
}

/// No entry's virtual path under `pattern` is another's or begins another's:
/// the entries can all be placed in one tree.
pub open spec fn paths_apart(table: Map<u64, OrganizeFSEntry>, pattern: Seq<Seq<char>>) -> bool {
    &&& forall|k: u64| #[trigger] table.contains_key(k) ==> table[k].local_path_spec(pattern).len() > 0
    &&& forall|k1: u64, k2: u64|
        table.contains_key(k1) && table.contains_key(k2) && k1 != k2 ==> !is_prefix(
            #[trigger] table[k1].local_path_spec(pattern),
            #[trigger] table[k2].local_path_spec(pattern),
        )
}

/// Every virtual path under `pattern` has at most `l` segments, and `l`
/// identifiers for each entry fit below the largest one.
pub open spec fn rebuild_bound(table: Map<u64, OrganizeFSEntry>, pattern: Seq<Seq<char>>, l: nat) -> bool {
    &&& forall|k: u64| #[trigger] table.contains_key(k) ==> table[k].local_path_spec(pattern).len() <= l
    &&& table.len() * l < u64::MAX
}

/// A tree for all the entries under `pattern` fits in the identifiers.
pub open spec fn rebuild_fits(table: Map<u64, OrganizeFSEntry>, pattern: Seq<Seq<char>>) -> bool {
    exists|l: nat| rebuild_bound(table, pattern, l)
}

/// Number of keys of `table` below `key`.
pub open spec fn keys_below(table: Map<u64, OrganizeFSEntry>, key: u64) -> nat {
    table.dom().filter(|k: u64| k < key).len()
}

proof fn lemma_keys_below_step(table: Map<u64, OrganizeFSEntry>, key: u64)
    requires
        table.dom().finite(),
        key < u64::MAX,
    ensures
        keys_below(table, (key + 1) as u64) == keys_below(table, key) + if table.contains_key(key) {
            1nat
        } else {
            0nat
        },
        keys_below(table, (key + 1) as u64) <= table.len(),
{
    let a = table.dom().filter(|k: u64| k < key);
    let b = table.dom().filter(|k: u64| k < (key + 1) as u64);
    if table.contains_key(key) {
        assert(b =~= a.insert(key));
    } else {
        assert(b =~= a);
    }
    vstd::set_lib::lemma_len_subset(b, table.dom());
}

/// Node `x` is reached by the first `j` segments of the virtual path of
/// entry `k`, short of its end.
pub open spec fn on_path_of(
    tree: Map<u64, NodeView>,
    table: Map<u64, OrganizeFSEntry>,
    pattern: Seq<Seq<char>>,
    k: u64,
    j: int,
    x: u64,
) -> bool {
    &&& table.contains_key(k)
    &&& 1 <= j < table[k].local_path_spec(pattern).len()
    &&& lookup(tree, 0, table[k].local_path_spec(pattern).take(j)) == Some(x)
}

impl TreeStorage {
    /// Replaces the pattern and, where its normal form differs from the
    /// current one, rebuilds the tree from the entries. Where two entries
    /// cannot both be placed under the new pattern, fails and keeps the old
    /// pattern and tree. The entries are never changed.
    pub fn set_pattern(&mut self, pattern: &str) -> (r: Result<(), ArenaError>)
        requires
            old(self).wf(),
        ensures
            final(self).wf(),
            final(self).table() == old(self).table(),
            final(self).table().len() == old(self).table().len(),
            match r {
                Ok(()) => final(self).pattern_segs() == resolve(split(pattern@)),
                Err(e) => {
                    &&& final(self).pattern_segs() == old(self).pattern_segs()
                    &&& final(self).tree() == old(self).tree()
                    &&& e != ArenaError::Exhausted ==> !paths_apart(
                        old(self).table(),
                        resolve(split(pattern@)),
                    )
                    &&& e == ArenaError::Exhausted ==> !rebuild_fits(
                        old(self).table(),
                        resolve(split(pattern@)),
                    )
                },
            },
            resolve(split(pattern@)) == old(self).pattern_segs() ==> r is Ok && final(self).tree()
                == old(self).tree(),
            r is Ok && (old(self).compact() || resolve(split(pattern@)) != old(self).pattern_segs())
                ==> final(self).compact(),
            paths_apart(old(self).table(), resolve(split(pattern@))) && rebuild_fits(
                old(self).table(),
                resolve(split(pattern@)),
            ) ==> r is Ok,
    {
        let segs = crate::path::path_segments(pattern);
        if crate::path::segments_eq(&segs, &self.pattern) {
            return Ok(());
        }
        let ghost pat = seg_views(segs@);
        let ghost table0 = self.entries@;
        let ghost fits = rebuild_fits(table0, pat);
        let ghost l: nat = if fits {
            choose|l: nat| rebuild_bound(table0, pat, l)
        } else {
            0
        };
        let mut nodes = NewArena::new();
        let mut key: u64 = 0;
        proof {
            assert(table0.dom().filter(|k: u64| k < 0u64) =~= Set::<u64>::empty());
            assert(keys_below(table0, 0) == 0);
            assert forall|x: u64| #[trigger] is_leaf(nodes@, x) implies false by {}
        }
        while key < self.next_key
            invariant
                self.wf(),
                self.entries@ == table0,
                table0 == old(self).table(),
                pat == seg_views(segs@),
                pat == resolve(split(pattern@)),
                self.tree() == old(self).tree(),
                self.pattern_segs() == old(self).pattern_segs(),
                nodes.wf(),
                key <= self.next_key,
                table0.dom().finite(),
                fits == rebuild_fits(table0, pat),
                pat != old(self).pattern_segs(),
                fits ==> rebuild_bound(table0, pat, l),
                fits ==> nodes.next_free() <= 1 + l * keys_below(table0, key),
                keys_below(table0, key) <= table0.len(),
                forall|x: u64| #[trigger] is_leaf(nodes@, x) ==> {
                    &&& leaf_key(nodes@, x) < key
                    &&& table0.contains_key(leaf_key(nodes@, x))
                    &&& lookup(nodes@, 0, table0[leaf_key(nodes@, x)].local_path_spec(pat)) == Some(x)
                },
                forall|k: u64| #[trigger] table0.contains_key(k) && k < key ==> {
                    &&& lookup(nodes@, 0, table0[k].local_path_spec(pat)) matches Some(x)
                    &&& is_leaf(nodes@, x)
                    &&& leaf_key(nodes@, x) == k
                },
                forall|x: u64| #[trigger]
                    is_branch(nodes@, x) && x != 0 ==> exists|k: u64, j: int|
                        k < key && #[trigger] on_path_of(nodes@, table0, pat, k, j, x),
            decreases self.next_key - key,
        {
            match self.entries.get(&key) {
                Some(e) => {
                    let lp = e.local_path(&segs);
                    let ghost tree0 = nodes@;
                    let ghost next0 = nodes.next_free();
                    proof {
                        nodes.lemma_shape();
                        assert(table0[key] == *e);
                        lemma_keys_below_step(table0, key);
                        if fits {
                            let c = keys_below(table0, key);
                            let t = table0.len();
                            assert(l * c + l == l * (c + 1)) by (nonlinear_arith);
                            assert(c + 1 <= t);
                            assert(l * (c + 1) <= l * t) by (nonlinear_arith)
                                requires
                                    c + 1 <= t,
                            ;
                            assert(t * l == l * t) by (nonlinear_arith);
                            assert(lp@.len() <= l);
                        }
                    }
                    if lp.len() == 0 {
                        proof {
                            assert(!paths_apart(table0, pat)) by {
                                assert(table0.contains_key(key));
                            }
                        }
                        return Err(ArenaError::NameConflict);
                    }
                    match nodes.insert(&lp, key) {
                        Ok(id) => {
                            let fresh = match nodes.get(id) {
                                Some(node) => node.inner() == Some(key),
                                None => false,
                            };
                            if !fresh {
                                proof {
                                    let lpk = table0[key].local_path_spec(pat);
                                    let k2 = leaf_key(tree0, id);
                                    assert(is_leaf(tree0, id));
                                    crate::arena::lemma_lookup_unique(
                                        tree0,
                                        next0,
                                        table0[k2].local_path_spec(pat),
                                        lpk,
                                    );
                                    assert(lpk.take(lpk.len() as int) =~= lpk);
                                    assert(is_prefix(table0[k2].local_path_spec(pat), lpk));
                                    assert(k2 < key);
                                    assert(!paths_apart(table0, pat)) by {
                                        assert(table0.contains_key(k2) && table0.contains_key(key));
                                    }
                                }
                                return Err(ArenaError::Occupied);
                            }
                            proof {
                                let tree = nodes@;
                                if placement(tree0, 0, seg_views(lp@)) is Existing {
                                    assert(is_leaf(tree0, id));
                                    assert(false);
                                }
                                assert forall|x: u64| #[trigger] is_leaf(tree, x) implies {
                                    &&& leaf_key(tree, x) < key + 1
                                    &&& table0.contains_key(leaf_key(tree, x))
                                    &&& lookup(tree, 0, table0[leaf_key(tree, x)].local_path_spec(pat))
                                        == Some(x)
                                } by {
                                    if x != id {
                                        assert(is_leaf(tree0, x) && tree[x] == tree0[x]);
                                        let kx = leaf_key(tree0, x);
                                        lemma_extends_lookup(
                                            tree0,
                                            tree,
                                            0,
                                            table0[kx].local_path_spec(pat),
                                        );
                                    } else {
                                        assert(table0[key] == *e);
                                    }
                                }
                                assert forall|k: u64| #[trigger] table0.contains_key(k) && k < key
                                    + 1 implies {
                                    &&& lookup(tree, 0, table0[k].local_path_spec(pat)) matches Some(x)
                                    &&& is_leaf(tree, x)
                                    &&& leaf_key(tree, x) == k
                                } by {
                                    if k == key {
                                        assert(table0[key] == *e);
                                    } else {
                                        let x = lookup(tree0, 0, table0[k].local_path_spec(pat)).unwrap();
                                        lemma_extends_lookup(
                                            tree0,
                                            tree,
                                            0,
                                            table0[k].local_path_spec(pat),
                                        );
                                        assert(tree[x] == tree0[x]);
                                    }
                                }
                                assert forall|x: u64| #[trigger]
                                    is_branch(tree, x) && x != 0 implies exists|k: u64, j: int|
                                    k < key + 1 && #[trigger] on_path_of(tree, table0, pat, k, j, x) by {
                                    let lpk = table0[key].local_path_spec(pat);
                                    if tree0.contains_key(x) {
                                        if is_leaf(tree0, x) {
                                            assert(tree[x] == tree0[x]);
                                        }
                                        assert(is_branch(tree0, x));
                                        let (k, j) = choose|k: u64, j: int|
                                            k < key && #[trigger] on_path_of(tree0, table0, pat, k, j, x);
                                        lemma_extends_lookup(
                                            tree0,
                                            tree,
                                            0,
                                            table0[k].local_path_spec(pat).take(j),
                                        );
                                        assert(on_path_of(tree, table0, pat, k, j, x));
                                    } else {
                                        let j = choose|j: int|
                                            1 <= j <= lpk.len() && lookup(tree, 0, lpk.take(j)) == Some(x);
                                        if j == lpk.len() {
                                            assert(lpk.take(j) =~= lpk);
                                        }
                                        assert(on_path_of(tree, table0, pat, key, j, x));
                                    }
                                }
                            }
                        },
                        Err(err) => {
                            proof {
                                if err == ArenaError::NameConflict {
                                    let lpk = table0[key].local_path_spec(pat);
                                    crate::arena::lemma_conflict_witness(tree0, next0, 0, lpk);
                                    let j = choose|j: int|
                                        1 <= j <= lpk.len() && #[trigger] crate::arena::conflict_at(
                                            tree0,
                                            0,
                                            lpk,
                                            j,
                                        );
                                    let c = lookup(tree0, 0, lpk.take(j)).unwrap();
                                    if j < lpk.len() {
                                        let k2 = leaf_key(tree0, c);
                                        crate::arena::lemma_lookup_unique(
                                            tree0,
                                            next0,
                                            table0[k2].local_path_spec(pat),
                                            lpk.take(j),
                                        );
                                        assert(is_prefix(table0[k2].local_path_spec(pat), lpk));
                                        assert(!paths_apart(table0, pat)) by {
                                            assert(table0.contains_key(k2) && table0.contains_key(key));
                                        }
                                    } else {
                                        assert(lpk.take(j) =~= lpk);
                                        crate::arena::lemma_lookup_climbs(tree0, next0, 0, lpk);
                                        let (k2, j2) = choose|k2: u64, j2: int|
                                            k2 < key && #[trigger] on_path_of(
                                                tree0,
                                                table0,
                                                pat,
                                                k2,
                                                j2,
                                                c,
                                            );
                                        let lp2 = table0[k2].local_path_spec(pat);
                                        crate::arena::lemma_lookup_unique(
                                            tree0,
                                            next0,
                                            lp2.take(j2),
                                            lpk,
                                        );
                                        assert(lp2.take(j2).len() == j2);
                                        assert(is_prefix(lpk, lp2));
                                        assert(!paths_apart(table0, pat)) by {
                                            assert(table0.contains_key(k2) && table0.contains_key(key));
                                        }
                                    }
                                }
                            }
                            return Err(err);
                        },
                    }
                },
                None => {
                    proof {
                        lemma_keys_below_step(table0, key);
                    }
                },
            }
            key = key + 1;
        }
        proof {
            assert forall|k: u64| #[trigger] table0.contains_key(k) implies k < key by {
                assert(self.entries@.contains_key(k));
            }
        }
        self.pattern = segs;
        self.nodes = nodes;
        Ok(())
    }
}

/// In a compact store, an entry whose virtual path is not empty and is
/// neither the virtual path of a stored entry, nor begins one, nor is begun
/// by one, is placed at fresh nodes: `add_entry` stores it when there is room.
pub proof fn lemma_fresh_when_apart(st: &TreeStorage, e: OrganizeFSEntry)
    requires
        st.wf(),
        st.compact(),
        e.local_path_spec(st.pattern_segs()).len() > 0,
        forall|k: u64| #[trigger]
            st.table().contains_key(k) ==> !is_prefix(
                st.table()[k].local_path_spec(st.pattern_segs()),
                e.local_path_spec(st.pattern_segs()),
            ) && !is_prefix(
                e.local_path_spec(st.pattern_segs()),
                st.table()[k].local_path_spec(st.pattern_segs()),
            ),
    ensures
        placement(st.tree(), 0, e.local_path_spec(st.pattern_segs())) == Placement::Fresh,
{
    st.lemma_consistent();
    let tree = st.tree();
    let table = st.table();
    let pat = st.pattern_segs();
    let next = st.next_node();
    let lpe = e.local_path_spec(pat);
    match placement(tree, 0, lpe) {
        Placement::Existing(c) => {
            crate::arena::lemma_placement_existing(tree, next, 0, lpe);
            let k2 = leaf_key(tree, c);
            crate::arena::lemma_lookup_unique(tree, next, table[k2].local_path_spec(pat), lpe);
            assert(lpe.take(lpe.len() as int) =~= lpe);
            assert(table.contains_key(k2));
            assert(false);
        },
        Placement::Conflict => {
            crate::arena::lemma_conflict_witness(tree, next, 0, lpe);
            let j = choose|j: int|
                1 <= j <= lpe.len() && #[trigger] crate::arena::conflict_at(tree, 0, lpe, j);
            let c = lookup(tree, 0, lpe.take(j)).unwrap();
            if j < lpe.len() {
                let k2 = leaf_key(tree, c);
                crate::arena::lemma_lookup_unique(tree, next, table[k2].local_path_spec(pat), lpe.take(j));
                assert(table.contains_key(k2));
                assert(false);
            } else {
                assert(lpe.take(j) =~= lpe);
                crate::arena::lemma_lookup_climbs(tree, next, 0, lpe);
                let (k2, j2) = choose|k2: u64, j2: int| #[trigger] on_path_of(tree, table, pat, k2, j2, c);
                let lp2 = table[k2].local_path_spec(pat);
                crate::arena::lemma_lookup_unique(tree, next, lp2.take(j2), lpe);
                assert(lp2.take(j2).len() == j2);
                assert(is_prefix(lpe, lp2));
                assert(false);
            }
        },
        Placement::Fresh => {},
    }
}

} // verus!
