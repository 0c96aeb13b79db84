use vstd::prelude::*;
use crate::label::{label_spec, segment_label};
use crate::path::{entry_segments, relative_spec, segs_view, split_spec};

verus! {

/// One path segment of the tree: a directory (branch) or an archive entry (leaf).
pub struct Node {
    /// The display text of the segment.
    pub label: String,
    /// The raw bytes of the segment.
    pub segment: Vec<u8>,
    /// Whether the node stands for a directory.
    pub is_branch: bool,
    /// Arena indices of the children, in the order they were attached.
    pub children: Vec<usize>,
}

/// A directory tree held in an arena; node 0 is the root directory.
///
/// A directory is found by walking from the root through directory
/// children segment by segment, so the tree itself is the index from
/// directory path to node: `dirs` lists those paths, each once.
pub struct FileTree {
    pub nodes: Vec<Node>,
    /// The path of each node below the root, segment by segment.
    pub paths: Ghost<Seq<Seq<Seq<u8>>>>,
    /// The arena index of each node's parent (unused for the root).
    pub parent: Ghost<Seq<int>>,
    /// The paths of the directories below the root, once each.
    pub dirs: Ghost<Seq<Seq<Seq<u8>>>>,
    /// The entries inserted so far, as paths below the root.
    pub entries: Ghost<Seq<Seq<Seq<u8>>>>,
    /// For each inserted entry, the leaf node made for it.
    pub leaf_of: Ghost<Seq<int>>,
    /// For each node, the index of the entry whose insertion made it.
    pub made_by: Ghost<Seq<int>>,
}

/// Number of `true` values in `s`.
pub open spec fn count_true(s: Seq<bool>) -> nat
    decreases s.len(),
{
    if s.len() == 0 {
        0
    } else {
        count_true(s.drop_last()) + if s.last() {
            1nat
        } else {
            0nat
        }
    }
}

/// `p` is a directory of some entry: a non-empty proper prefix of its path.
pub open spec fn is_dir_prefix(entries: Seq<Seq<Seq<u8>>>, p: Seq<Seq<u8>>) -> bool {
    exists|k: int, m: int|
        0 <= k < entries.len() && 1 <= m < entries[k].len() && p == #[trigger] entries[k].take(m)
}

/// The set of directories that a list of entries implies, the root excluded.
pub open spec fn dir_prefixes(entries: Seq<Seq<Seq<u8>>>) -> Set<Seq<Seq<u8>>> {
    Set::new(|p: Seq<Seq<u8>>| is_dir_prefix(entries, p))
}

impl FileTree {
    pub open spec fn len(&self) -> int {
        self.nodes@.len() as int
    }

    pub open spec fn branch(&self, i: int) -> bool {
        self.nodes@[i].is_branch
    }

    pub open spec fn path(&self, i: int) -> Seq<Seq<u8>> {
        self.paths@[i]
    }

    /// Node `i` is listed among the children of node `p`.
    pub open spec fn has_child(&self, p: int, i: int) -> bool {
        exists|q: int| 0 <= q < self.nodes@[p].children@.len() && #[trigger] self.nodes@[p].children@[q] as int == i
    }

    /// Some directory node below the root has path `p`.
    pub open spec fn has_branch(&self, p: Seq<Seq<u8>>) -> bool {
        exists|i: int| 0 < i < self.len() && self.branch(i) && #[trigger] self.path(i) == p
    }

    /// The paths of the directories below the root.
    pub open spec fn directory_paths(&self) -> Set<Seq<Seq<u8>>> {
        Set::new(|p: Seq<Seq<u8>>| self.has_branch(p))
    }

    /// The path of each entry's leaf, in insertion order.
    pub open spec fn leaf_paths(&self) -> Seq<Seq<Seq<u8>>> {
        self.leaf_of@.map_values(|i: int| self.path(i))
    }

    /// Whether each node is a directory, in arena order.
    pub open spec fn kinds(&self) -> Seq<bool> {
        self.nodes@.map_values(|n: Node| n.is_branch)
    }

    /// The arena's links agree with the node paths, and directories are unique.
    pub open spec fn shape(&self) -> bool {
        &&& self.len() >= 1
        &&& self.paths@.len() == self.len()
        &&& self.parent@.len() == self.len()
        &&& self.branch(0)
        &&& self.path(0) == Seq::<Seq<u8>>::empty()
        &&& forall|i: int|
            0 < i < self.len() ==> {
                let p = #[trigger] self.parent@[i];
                &&& 0 <= p < i
                &&& self.branch(p)
                &&& self.path(i).len() >= 1
                &&& self.path(p) == self.path(i).drop_last()
                &&& self.has_child(p, i)
                &&& self.nodes@[i].segment@ == self.path(i).last()
                &&& self.nodes@[i].label@ == label_spec(self.path(i).last())
            }
        &&& forall|i: int, j: int|
            0 <= i < self.len() && 0 <= j < self.nodes@[i].children@.len() ==> {
                let c = #[trigger] self.nodes@[i].children@[j];
                &&& i < c < self.len()
                &&& self.parent@[c as int] == i
            }
        &&& forall|i: int, k: int|
            0 <= i < self.len() && 0 <= k < self.len() && i != k && self.branch(i) && self.branch(k)
                ==> #[trigger] self.path(i) != #[trigger] self.path(k)
        &&& forall|i: int|
            0 <= i < self.len() && !#[trigger] self.branch(i) ==> self.nodes@[i].children@.len() == 0
        &&& forall|i: int, j1: int, j2: int|
            0 <= i < self.len() && 0 <= j1 < j2 < self.nodes@[i].children@.len()
                ==> #[trigger] self.nodes@[i].children@[j1] < #[trigger] self.nodes@[i].children@[j2]
        &&& self.dirs@.no_duplicates()
        &&& count_true(self.kinds()) == self.dirs@.len() + 1
        &&& forall|j: int| 0 <= j < self.dirs@.len() ==> self.has_branch(#[trigger] self.dirs@[j])
        &&& forall|i: int|
            0 < i < self.len() && #[trigger] self.branch(i) ==> self.dirs@.contains(self.path(i))
    }

    /// Every directory below the root is a directory of one of `es`.
    pub open spec fn branches_within(&self, es: Seq<Seq<Seq<u8>>>) -> bool {
        forall|i: int| 0 < i < self.len() && #[trigger] self.branch(i) ==> is_dir_prefix(es, self.path(i))
    }

    /// Every directory of one of `es` has a node.
    pub open spec fn prefixes_present(&self, es: Seq<Seq<Seq<u8>>>) -> bool {
        forall|k: int, m: int|
            0 <= k < es.len() && 1 <= m < es[k].len() ==> self.has_branch(#[trigger] es[k].take(m))
    }

    /// Entries and leaves correspond one to one.
    pub open spec fn leaves_match(&self) -> bool {
        &&& self.leaf_of@.len() == self.entries@.len()
        &&& forall|k: int| 0 <= k < self.entries@.len() ==> (#[trigger] self.entries@[k]).len() >= 1
        &&& forall|k: int|
            0 <= k < self.leaf_of@.len() ==> {
                let i = #[trigger] self.leaf_of@[k];
                &&& 0 < i < self.len()
                &&& !self.branch(i)
                &&& self.path(i) == self.entries@[k]
            }
        &&& forall|k1: int, k2: int|
            0 <= k1 < self.leaf_of@.len() && 0 <= k2 < self.leaf_of@.len() && k1 != k2
                ==> #[trigger] self.leaf_of@[k1] != #[trigger] self.leaf_of@[k2]
        &&& forall|i: int|
            0 <= i < self.len() && !#[trigger] self.branch(i) ==> exists|k: int|
                0 <= k < self.leaf_of@.len() && #[trigger] self.leaf_of@[k] == i
    }

    /// Node `i` was made for entry `made_by[i]` of `es`: its path is a prefix
    /// of that entry, and a directory's path is a directory of no earlier entry.
    pub open spec fn made_for(&self, i: int, es: Seq<Seq<Seq<u8>>>) -> bool {
        let k = self.made_by@[i];
        &&& 0 <= k < es.len()
        &&& self.path(i).len() <= es[k].len()
        &&& es[k].take(self.path(i).len() as int) == self.path(i)
        &&& self.branch(i) ==> forall|kk: int, m: int|
            0 <= kk < k && 1 <= m < es[kk].len() ==> #[trigger] es[kk].take(m) != self.path(i)
    }

    /// Node `i`, made while `e` is being added after `es`, has a path that is
    /// a prefix of `e` of at most `d` segments and a directory of no entry of `es`.
    pub open spec fn made_for_new(&self, i: int, es: Seq<Seq<Seq<u8>>>, e: Seq<Seq<u8>>, d: int) -> bool {
        &&& self.made_by@[i] == es.len()
        &&& self.path(i).len() <= d
        &&& e.take(self.path(i).len() as int) == self.path(i)
        &&& forall|kk: int, m: int|
            0 <= kk < es.len() && 1 <= m < es[kk].len() ==> #[trigger] es[kk].take(m) != self.path(i)
    }

    /// Nodes are laid out in the order of the entries that made them.
    pub open spec fn made_in_order(&self) -> bool {
        &&& self.made_by@.len() == self.len()
        &&& self.made_by@[0] == 0
        &&& forall|i: int, j: int|
            0 <= i < j < self.len() ==> #[trigger] self.made_by@[i] <= #[trigger] self.made_by@[j]
        &&& forall|i: int| 0 < i < self.len() ==> #[trigger] self.made_for(i, self.entries@)
        &&& forall|k: int| 0 <= k < self.leaf_of@.len() ==> self.made_by@[#[trigger] self.leaf_of@[k]] == k
    }

    /// The tree is well formed and holds exactly the entries inserted so far.
    pub open spec fn wf(&self) -> bool {
        &&& self.made_in_order()
        &&& self.shape()
        &&& self.branches_within(self.entries@)
        &&& self.prefixes_present(self.entries@)
        &&& self.leaves_match()
    }

    /// A tree holding only the root directory, labelled `root_label`.
    pub fn new(root_label: String) -> (r: FileTree)
        ensures
            r.wf(),
            r.entries@.len() == 0,
            r.len() == 1,
            r.nodes@[0].label@ == root_label@,
            r.nodes@[0].children@.len() == 0,
    {
        let root = Node { label: root_label, segment: Vec::new(), is_branch: true, children: Vec::new() };
        let mut nodes: Vec<Node> = Vec::new();
        nodes.push(root);
        let r = FileTree {
            nodes,
            paths: Ghost(Seq::<Seq<Seq<u8>>>::empty().push(Seq::<Seq<u8>>::empty())),
            parent: Ghost(Seq::<int>::empty().push(0int)),
            dirs: Ghost(Seq::empty()),
            entries: Ghost(Seq::empty()),
            leaf_of: Ghost(Seq::empty()),
            made_by: Ghost(Seq::<int>::empty().push(0int)),
        };
        assert(r.kinds().drop_last() =~= Seq::<bool>::empty());
        assert(r.kinds().last());
        assert(count_true(Seq::<bool>::empty()) == 0);
        assert(count_true(r.kinds()) == 1);
        assert(r.shape());
        r
    }
}

proof fn lemma_count_push(s: Seq<bool>, b: bool)
    ensures
        count_true(s.push(b)) == count_true(s) + if b {
            1nat
        } else {
            0nat
        },
{
    assert(s.push(b).drop_last() =~= s);
}

impl FileTree {
    /// Appends a node for segment `seg` below the directory `parent`.
    fn add_node(&mut self, parent: usize, seg: Vec<u8>, is_branch: bool, by: Ghost<int>) -> (r: usize)
        requires
            old(self).shape(),
            parent < old(self).len(),
            old(self).branch(parent as int),
            is_branch ==> forall|i: int|
                0 <= i < old(self).len() && #[trigger] old(self).branch(i) ==> old(self).path(i)
                    != old(self).path(parent as int).push(seg@),
        ensures
            final(self).shape(),
            r == old(self).len(),
            final(self).len() == old(self).len() + 1,
            final(self).paths@ == old(self).paths@.push(old(self).path(parent as int).push(seg@)),
            final(self).branch(r as int) == is_branch,
            forall|i: int| 0 <= i < old(self).len() ==> #[trigger] final(self).branch(i) == old(self).branch(i),
            forall|i: int|
                0 <= i < old(self).len() && i != parent ==> #[trigger] final(self).nodes@[i] == old(self).nodes@[i],
            final(self).nodes@[parent as int].children@ == old(self).nodes@[parent as int].children@.push(r),
            final(self).nodes@[parent as int].label == old(self).nodes@[parent as int].label,
            final(self).nodes@[r as int].children@.len() == 0,
            final(self).dirs@ == if is_branch {
                old(self).dirs@.push(old(self).path(parent as int).push(seg@))
            } else {
                old(self).dirs@
            },
            final(self).entries@ == old(self).entries@,
            final(self).leaf_of@ == old(self).leaf_of@,
            appends_only(*old(self), *final(self)),
            final(self).made_by@ == old(self).made_by@.push(by@),
    {
        let ghost np = self.path(parent as int).push(seg@);
        let ghost old_self = *self;
        let label = segment_label(&seg);
        let node = Node { label, segment: seg, is_branch, children: Vec::new() };
        let r = self.nodes.len();
        self.nodes.push(node);
        self.nodes[parent].children.push(r);
        proof {
            self.paths@ = self.paths@.push(np);
            self.parent@ = self.parent@.push(parent as int);
            self.made_by@ = self.made_by@.push(by@);
            if is_branch {
                if self.dirs@.contains(np) {
                    let j = choose|j: int| 0 <= j < self.dirs@.len() && self.dirs@[j] == np;
                    assert(old_self.has_branch(old_self.dirs@[j]));
                    let i = choose|i: int|
                        0 < i < old_self.len() && old_self.branch(i) && #[trigger] old_self.path(i) == old_self.dirs@[j];
                    assert(false);
                }
                self.dirs@ = self.dirs@.push(np);
            }
            assert(np.drop_last() =~= old_self.path(parent as int));
            assert forall|i: int| 0 <= i < r implies #[trigger] self.branch(i) == old_self.branch(i)
                && self.path(i) == old_self.path(i) by {
                if i == parent {
                } else {
                    assert(self.nodes@[i] == old_self.nodes@[i]);
                }
            }
            assert(self.kinds() =~= old_self.kinds().push(is_branch));
            lemma_count_push(old_self.kinds(), is_branch);
            assert forall|i: int| 0 < i < self.len() implies {
                let p = #[trigger] self.parent@[i];
                &&& 0 <= p < i
                &&& self.branch(p)
                &&& self.path(i).len() >= 1
                &&& self.path(p) == self.path(i).drop_last()
                &&& self.has_child(p, i)
                &&& self.nodes@[i].segment@ == self.path(i).last()
                &&& self.nodes@[i].label@ == label_spec(self.path(i).last())
            } by {
                if i < r {
                    let p = self.parent@[i];
                    if p == parent {
                        assert(old_self.has_child(p, i));
                        let j = choose|j: int| 0 <= j < old_self.nodes@[p].children@.len() && #[trigger] old_self.nodes@[p].children@[j] as int == i;
                        assert(self.nodes@[p].children@[j] as int == i);
                    } else {
                        assert(old_self.has_child(p, i));
                        assert(self.nodes@[p] == old_self.nodes@[p]);
                        let j = choose|j: int| 0 <= j < old_self.nodes@[p].children@.len() && #[trigger] old_self.nodes@[p].children@[j] as int == i;
                        assert(self.nodes@[p].children@[j] as int == i);
                    }
                } else {
                    assert(self.nodes@[parent as int].children@.last() == r);
                    assert(self.nodes@[parent as int].children@[self.nodes@[parent as int].children@.len() - 1] as int == i);
                }
            }
            assert forall|i: int, j: int|
                0 <= i < self.len() && 0 <= j < self.nodes@[i].children@.len() implies {
                    let c = #[trigger] self.nodes@[i].children@[j];
                    &&& i < c < self.len()
                    &&& self.parent@[c as int] == i
                } by {
                if i == parent && j == old_self.nodes@[i].children@.len() {
                } else if i < r {
                    let c = old_self.nodes@[i].children@[j];
                    assert(self.nodes@[i].children@[j] == c);
                }
            }
            assert forall|j: int| 0 <= j < self.dirs@.len() implies self.has_branch(#[trigger] self.dirs@[j]) by {
                if j < old_self.dirs@.len() {
                    assert(old_self.has_branch(old_self.dirs@[j]));
                    let i = choose|i: int|
                        0 < i < old_self.len() && old_self.branch(i) && #[trigger] old_self.path(i) == old_self.dirs@[j];
                    assert(0 < i < old_self.len() && old_self.branch(i));
                    assert(self.branch(i));
                    assert(self.dirs@[j] == old_self.dirs@[j]);
                    assert(self.path(i) == self.dirs@[j]);
                } else {
                    assert(is_branch);
                    assert(self.nodes@[r as int].is_branch);
                    assert(self.branch(r as int));
                    assert(self.path(r as int) == self.dirs@[j]);
                }
            }
            assert forall|i: int, k: int|
                0 <= i < self.len() && 0 <= k < self.len() && i != k && self.branch(i) && self.branch(k)
                implies #[trigger] self.path(i) != #[trigger] self.path(k) by {
                if i < r && k < r {
                    assert(old_self.path(i) != old_self.path(k));
                }
            }
            assert forall|i: int| 0 <= i < self.len() && !#[trigger] self.branch(i)
                implies self.nodes@[i].children@.len() == 0 by {
                if i < r {
                    assert(!old_self.branch(i));
                }
            }
            assert forall|i: int| 0 < i < self.len() && #[trigger] self.branch(i) implies self.dirs@.contains(self.path(i)) by {
                if i < r {
                    assert(old_self.branch(i));
                    assert(old_self.dirs@.contains(old_self.path(i)));
                    let j = choose|j: int| 0 <= j < old_self.dirs@.len() && old_self.dirs@[j] == old_self.path(i);
                    assert(self.dirs@[j] == self.path(i));
                } else {
                    assert(self.dirs@[self.dirs@.len() - 1] == self.path(i));
                }
            }
            assert(self.len() >= 1);
            assert(self.branch(0));
            assert(self.path(0) == Seq::<Seq<u8>>::empty());
            assert(self.dirs@.no_duplicates());
            assert(count_true(self.kinds()) == self.dirs@.len() + 1);
            assert(self.shape());
            assert forall|i: int| 0 <= i < old_self.len() implies #[trigger] node_appends(old_self, *self, i) by {
                if i == parent {
                    assert(self.nodes@[i].children@.take(old_self.nodes@[i].children@.len() as int) =~= old_self.nodes@[i].children@);
                } else {
                    assert(self.nodes@[i] == old_self.nodes@[i]);
                    assert(self.nodes@[i].children@.take(old_self.nodes@[i].children@.len() as int) =~= old_self.nodes@[i].children@);
                }
            }
        }
        r
    }
}

/// Byte-wise equality of two segments.
pub fn bytes_eq(a: &Vec<u8>, b: &Vec<u8>) -> (r: bool)
    ensures
        r == (a@ == b@),
{
    if a.len() != b.len() {
        return false;
    }
    let mut i: usize = 0;
    while i < a.len()
        invariant
            a@.len() == b@.len(),
            0 <= i <= a@.len(),
            forall|j: int| 0 <= j < i ==> a@[j] == b@[j],
        decreases a@.len() - i,
    {
        if a[i] != b[i] {
            return false;
        }
        i = i + 1;
    }
    assert(a@ =~= b@);
    true
}

/// `b` keeps every node of `a` as it was, and may have more.
pub open spec fn extends(a: FileTree, b: FileTree) -> bool {
    &&& a.len() <= b.len()
    &&& forall|i: int| 0 <= i < a.len() ==> #[trigger] b.path(i) == a.path(i)
    &&& forall|i: int| 0 <= i < a.len() ==> #[trigger] b.branch(i) == a.branch(i)
}

/// Every node of `a` is still in `b` with the same label and segment, and
/// its children in `a` are the first children it has in `b`.
pub open spec fn appends_only(a: FileTree, b: FileTree) -> bool {
    &&& a.len() <= b.len()
    &&& forall|i: int| 0 <= i < a.len() ==> #[trigger] node_appends(a, b, i)
}

/// Node `i` keeps its label and segment from `a` to `b`, and its children
/// in `b` are those it had in `a` followed by nodes that `a` did not have.
pub open spec fn node_appends(a: FileTree, b: FileTree, i: int) -> bool {
    let old_c = a.nodes@[i].children@;
    let new_c = b.nodes@[i].children@;
    &&& b.nodes@[i].label == a.nodes@[i].label
    &&& b.nodes@[i].segment == a.nodes@[i].segment
    &&& old_c.len() <= new_c.len()
    &&& new_c.take(old_c.len() as int) == old_c
    &&& forall|q: int| old_c.len() <= q < new_c.len() ==> #[trigger] new_c[q] >= a.len()
}

proof fn lemma_appends_only_trans(a: FileTree, b: FileTree, c: FileTree)
    requires
        appends_only(a, b),
        appends_only(b, c),
    ensures
        appends_only(a, c),
{
    assert forall|i: int| 0 <= i < a.len() implies #[trigger] node_appends(a, c, i) by {
        assert(node_appends(a, b, i));
        assert(node_appends(b, c, i));
        let ac = a.nodes@[i].children@;
        let bc = b.nodes@[i].children@;
        let cc = c.nodes@[i].children@;
        assert(cc.take(ac.len() as int) =~= bc.take(ac.len() as int));
        assert forall|q: int| ac.len() <= q < cc.len() implies #[trigger] cc[q] >= a.len() by {
            if q < bc.len() {
                assert(cc[q] == cc.take(bc.len() as int)[q]);
                assert(bc[q] >= a.len());
            } else {
                assert(cc[q] >= b.len());
            }
        }
    }
}

proof fn lemma_appends_only_refl(a: FileTree)
    ensures
        appends_only(a, a),
{
    assert forall|i: int| 0 <= i < a.len() implies #[trigger] node_appends(a, a, i) by {
        assert(a.nodes@[i].children@.take(a.nodes@[i].children@.len() as int) =~= a.nodes@[i].children@);
    }
}

proof fn lemma_has_branch_extends(a: FileTree, b: FileTree, p: Seq<Seq<u8>>)
    requires
        extends(a, b),
        a.has_branch(p),
    ensures
        b.has_branch(p),
{
    let i = choose|i: int| 0 < i < a.len() && a.branch(i) && #[trigger] a.path(i) == p;
    assert(b.path(i) == p);
}

proof fn lemma_shape_frame(a: FileTree, b: FileTree)
    requires
        a.shape(),
        b.nodes@ == a.nodes@,
        b.paths@ == a.paths@,
        b.parent@ == a.parent@,
        b.dirs@ == a.dirs@,
    ensures
        b.shape(),
{
    assert(b.kinds() == a.kinds());
    assert forall|i: int| 0 < i < b.len() implies {
        let p = #[trigger] b.parent@[i];
        &&& 0 <= p < i
        &&& b.branch(p)
        &&& b.path(i).len() >= 1
        &&& b.path(p) == b.path(i).drop_last()
        &&& b.has_child(p, i)
        &&& b.nodes@[i].segment@ == b.path(i).last()
        &&& b.nodes@[i].label@ == label_spec(b.path(i).last())
    } by {
        let p = a.parent@[i];
        assert(a.has_child(p, i));
        let q = choose|q: int| 0 <= q < a.nodes@[p].children@.len() && #[trigger] a.nodes@[p].children@[q] as int == i;
        assert(b.nodes@[p].children@[q] as int == i);
    }
    assert forall|i: int, j: int| 0 <= i < b.len() && 0 <= j < b.nodes@[i].children@.len() implies {
        let c = #[trigger] b.nodes@[i].children@[j];
        &&& i < c < b.len()
        &&& b.parent@[c as int] == i
    } by {
        assert(a.nodes@[i].children@[j] == b.nodes@[i].children@[j]);
    }
    assert forall|i: int, k: int|
        0 <= i < b.len() && 0 <= k < b.len() && i != k && b.branch(i) && b.branch(k)
        implies #[trigger] b.path(i) != #[trigger] b.path(k) by {
        assert(a.branch(i) && a.branch(k));
        assert(a.path(i) != a.path(k));
    }
    assert forall|i: int| 0 <= i < b.len() && !#[trigger] b.branch(i) implies b.nodes@[i].children@.len() == 0 by {
        assert(!a.branch(i));
    }
    assert forall|j: int| 0 <= j < b.dirs@.len() implies b.has_branch(#[trigger] b.dirs@[j]) by {
        assert(a.has_branch(a.dirs@[j]));
        let i = choose|i: int| 0 < i < a.len() && a.branch(i) && #[trigger] a.path(i) == a.dirs@[j];
        assert(b.path(i) == b.dirs@[j] && b.branch(i));
    }
    assert forall|i: int| 0 < i < b.len() && #[trigger] b.branch(i) implies b.dirs@.contains(b.path(i)) by {
        assert(a.branch(i));
    }
}

impl FileTree {
    /// The directory below node `cur` whose segment is `seg`, if there is one.
    fn find_branch_child(&self, cur: usize, seg: &Vec<u8>) -> (r: Option<usize>)
        requires
            self.shape(),
            cur < self.len(),
            self.branch(cur as int),
        ensures
            match r {
                Some(c) => 0 < c < self.len() && self.branch(c as int) && self.path(c as int) == self.path(
                    cur as int,
                ).push(seg@),
                None => forall|i: int|
                    0 <= i < self.len() && #[trigger] self.branch(i) ==> self.path(i) != self.path(
                        cur as int,
                    ).push(seg@),
            },
    {
        let n = self.nodes[cur].children.len();
        let mut j: usize = 0;
        while j < n
            invariant
                self.shape(),
                cur < self.len(),
                n == self.nodes@[cur as int].children@.len(),
                0 <= j <= n,
                forall|q: int|
                    0 <= q < j ==> {
                        let c = #[trigger] self.nodes@[cur as int].children@[q] as int;
                        !(self.branch(c) && self.nodes@[c].segment@ == seg@)
                    },
            decreases n - j,
        {
            let c = self.nodes[cur].children[j];
            assert(cur < c < self.len()) by {
                assert(self.nodes@[cur as int].children@[j as int] == c);
            }
            if self.nodes[c].is_branch && bytes_eq(&self.nodes[c].segment, seg) {
                assert(self.path(c as int).drop_last() =~= self.path(cur as int));
                assert(self.path(c as int) =~= self.path(cur as int).push(seg@));
                return Some(c);
            }
            j = j + 1;
        }
        assert forall|i: int|
            0 <= i < self.len() && #[trigger] self.branch(i) implies self.path(i) != self.path(cur as int).push(seg@) by {
            if self.path(i) == self.path(cur as int).push(seg@) {
                assert(self.path(i).len() > 0);
                assert(i != 0);
                let p = self.parent@[i];
                assert(self.path(p) == self.path(i).drop_last());
                assert(self.path(p) =~= self.path(cur as int));
                assert(p == cur);
                assert(self.has_child(cur as int, i));
                let q = choose|q: int| 0 <= q < n && #[trigger] self.nodes@[cur as int].children@[q] as int == i;
                assert(self.nodes@[i].segment@ == seg@);
                let c = self.nodes@[cur as int].children@[q] as int;
                assert(c == i);
                assert(false);
            }
        }
        None
    }

    /// Adds one entry, given as its path below the root: the directories on
    /// the way are looked up and made where missing, then a leaf is attached
    /// as the last child of its directory. Every new node is appended to the
    /// arena and to the end of exactly one child list, its parent's.
    ///
    /// A path that is both an entry and a directory of another entry gets
    /// two sibling nodes, a leaf and a directory: directories are looked up
    /// among directory nodes only, and leaves are never merged.
    pub fn insert(&mut self, entry: &Vec<Vec<u8>>)
        requires
            old(self).wf(),
            entry@.len() >= 1,
        ensures
            final(self).wf(),
            final(self).entries@ == old(self).entries@.push(segs_view(entry@)),
            extends(*old(self), *final(self)),
            appends_only(*old(self), *final(self)),
            final(self).len() > old(self).len(),
            final(self).leaf_of@ == old(self).leaf_of@.push(final(self).len() - 1),
            forall|i: int|
                old(self).len() <= i < final(self).len() ==> #[trigger] final(self).made_by@[i]
                    == old(self).entries@.len(),
            forall|i: int|
                old(self).len() <= i < final(self).len() - 1 ==> #[trigger] final(self).branch(i),
    {
        let ghost e = segs_view(entry@);
        let ghost start = *self;
        let d = entry.len() - 1;
        assert forall|i: int| 0 < i < self.len() && #[trigger] self.branch(i) implies is_dir_prefix(
            start.entries@.push(e),
            self.path(i),
        ) by {
            assert(is_dir_prefix(start.entries@, self.path(i)));
            let (kk, m) = choose|kk: int, m: int|
                0 <= kk < start.entries@.len() && 1 <= m < start.entries@[kk].len() && self.path(i)
                    == #[trigger] start.entries@[kk].take(m);
            assert(start.entries@.push(e)[kk] == start.entries@[kk]);
        }
        let mut cur: usize = 0;
        let mut k: usize = 0;
        proof {
            lemma_appends_only_refl(start);
        }
        while k < d
            invariant
                start.wf(),
                e == segs_view(entry@),
                d + 1 == e.len(),
                self.shape(),
                extends(start, *self),
                self.branches_within(start.entries@.push(e)),
                self.entries@ == start.entries@,
                self.leaf_of@ == start.leaf_of@,
                0 <= k <= d,
                cur < self.len(),
                self.branch(cur as int),
                self.path(cur as int) == e.take(k as int),
                forall|m: int| 1 <= m <= k ==> self.has_branch(#[trigger] e.take(m)),
                forall|i: int| start.len() <= i < self.len() ==> #[trigger] self.branch(i),
                appends_only(start, *self),
                self.made_by@.len() == self.len(),
                self.made_by@[0] == 0,
                forall|i: int| 0 <= i < start.len() ==> #[trigger] self.made_by@[i] == start.made_by@[i],
                forall|i: int|
                    start.len() <= i < self.len() ==> #[trigger] self.made_for_new(i, start.entries@, e, d as int),
            decreases d - k,
        {
            let ghost before = *self;
            let ghost cur_before = cur;
            assert(e.take(k as int).push(e[k as int]) =~= e.take(k as int + 1));
            let found = self.find_branch_child(cur, &entry[k]);
            match found {
                Some(c) => {
                    cur = c;
                },
                None => {
                    let seg = entry[k].clone();
                    assert(seg@ == e[k as int]);
                    cur = self.add_node(cur, seg, true, Ghost(start.entries@.len() as int));
                    proof {
                        lemma_appends_only_trans(start, before, *self);
                        assert(extends(before, *self));
                        assert(is_dir_prefix(start.entries@.push(e), e.take(k as int + 1))) by {
                            assert(start.entries@.push(e)[start.entries@.len() as int] == e);
                        }
                        assert forall|m: int| 1 <= m <= k implies self.has_branch(#[trigger] e.take(m)) by {
                            lemma_has_branch_extends(before, *self, e.take(m));
                        }
                        assert forall|i: int| 0 < i < self.len() && #[trigger] self.branch(i)
                            implies is_dir_prefix(start.entries@.push(e), self.path(i)) by {
                            if i < before.len() {
                                assert(before.branch(i));
                            }
                        }
                        let np = e.take(k as int + 1);
                        assert forall|kk: int, m: int|
                            0 <= kk < start.entries@.len() && 1 <= m < start.entries@[kk].len()
                            implies #[trigger] start.entries@[kk].take(m) != np by {
                            if start.entries@[kk].take(m) == np {
                                assert(start.has_branch(start.entries@[kk].take(m)));
                                lemma_has_branch_extends(start, before, np);
                                let i = choose|i: int| 0 < i < before.len() && before.branch(i) && #[trigger] before.path(i) == np;
                                assert(before.path(i) != before.path(cur_before as int).push(e[k as int]));
                            }
                        }
                        assert forall|i: int| start.len() <= i < self.len() implies #[trigger] self.made_for_new(i, start.entries@, e, d as int) by {
                            if i < before.len() {
                                assert(before.made_for_new(i, start.entries@, e, d as int));
                                assert(self.made_by@[i] == before.made_by@[i]);
                                assert(self.path(i) == before.path(i));
                            } else {
                                assert(self.path(i) == np);
                                assert(e.take(np.len() as int) =~= np);
                            }
                        }
                        assert forall|i: int| 0 <= i < start.len() implies #[trigger] self.made_by@[i] == start.made_by@[i] by {
                            assert(self.made_by@[i] == before.made_by@[i]);
                        }
                    }
                },
            }
            assert(self.has_branch(e.take(k as int + 1))) by {
                assert(self.path(cur as int) == e.take(k as int + 1));
            }
            k = k + 1;
        }
        let ghost before = *self;
        let seg = entry[d].clone();
        assert(seg@ == e[d as int]);
        let leaf = self.add_node(cur, seg, false, Ghost(start.entries@.len() as int));
        proof {
            lemma_appends_only_trans(start, before, *self);
            assert(e.take(d as int).push(e[d as int]) =~= e);
            assert(self.path(leaf as int) == e);
            assert(extends(before, *self));
            let es = start.entries@.push(e);
            let before_ghost = *self;
            self.entries@ = es;
            self.leaf_of@ = start.leaf_of@.push(leaf as int);
            lemma_shape_frame(before_ghost, *self);
            assert forall|i: int| 0 <= i < start.len() implies #[trigger] node_appends(start, *self, i) by {
                assert(node_appends(start, before_ghost, i));
                assert(self.nodes@ == before_ghost.nodes@);
            }
            assert forall|i: int| 0 <= i < start.len() implies #[trigger] self.path(i) == start.path(i) by {
                assert(before.path(i) == start.path(i));
                assert(self.path(i) == before.path(i));
            }
            assert forall|i: int| 0 <= i < start.len() implies #[trigger] self.branch(i) == start.branch(i) by {
                assert(before.branch(i) == start.branch(i));
                assert(self.branch(i) == before.branch(i));
            }
            assert(extends(start, *self));
            assert forall|i: int| 0 < i < self.len() && #[trigger] self.branch(i) implies is_dir_prefix(es, self.path(i)) by {
                if i < before.len() {
                    assert(before.branch(i));
                }
            }
            assert forall|kk: int, m: int| 0 <= kk < es.len() && 1 <= m < es[kk].len() implies self.has_branch(
                #[trigger] es[kk].take(m),
            ) by {
                if kk < start.entries@.len() {
                    assert(es[kk] == start.entries@[kk]);
                    assert(start.has_branch(start.entries@[kk].take(m)));
                    lemma_has_branch_extends(start, *self, es[kk].take(m));
                } else {
                    assert(before.has_branch(e.take(m)));
                    lemma_has_branch_extends(before, *self, e.take(m));
                }
            }
            assert forall|kk: int| 0 <= kk < self.leaf_of@.len() implies {
                let i = #[trigger] self.leaf_of@[kk];
                &&& 0 < i < self.len()
                &&& !self.branch(i)
                &&& self.path(i) == self.entries@[kk]
            } by {
                if kk < start.leaf_of@.len() {
                    let i = start.leaf_of@[kk];
                    assert(self.path(i) == start.path(i));
                }
            }
            assert forall|i: int| 0 <= i < self.len() && !#[trigger] self.branch(i) implies exists|kk: int|
                0 <= kk < self.leaf_of@.len() && #[trigger] self.leaf_of@[kk] == i by {
                if i < start.len() {
                    assert(!start.branch(i));
                    let kk = choose|kk: int| 0 <= kk < start.leaf_of@.len() && #[trigger] start.leaf_of@[kk] == i;
                    assert(self.leaf_of@[kk] == i);
                } else if i < before.len() {
                    assert(before.branch(i));
                } else {
                    assert(self.leaf_of@[start.leaf_of@.len() as int] == i);
                }
            }
            let kn = start.entries@.len() as int;
            assert(self.made_by@ == before.made_by@.push(kn));
            assert forall|i: int, j: int| 0 <= i < j < self.len() implies #[trigger] self.made_by@[i]
                <= #[trigger] self.made_by@[j] by {
                if j >= start.len() {
                    assert(self.made_by@[j] == kn) by {
                        if j < before.len() {
                            assert(before.made_for_new(j, start.entries@, e, d as int));
                        }
                    }
                    if i >= start.len() {
                        if i < before.len() {
                            assert(before.made_for_new(i, start.entries@, e, d as int));
                        }
                    } else if i == 0 {
                        assert(self.made_by@[0] == before.made_by@[0]);
                    } else {
                        assert(start.made_for(i, start.entries@));
                        assert(self.made_by@[i] == before.made_by@[i]);
                    }
                } else {
                    assert(self.made_by@[i] == before.made_by@[i]);
                    assert(self.made_by@[j] == before.made_by@[j]);
                    assert(start.made_by@[i] <= start.made_by@[j]);
                }
            }
            assert forall|i: int| 0 < i < self.len() implies #[trigger] self.made_for(i, self.entries@) by {
                if i < start.len() {
                    assert(start.made_for(i, start.entries@));
                    assert(self.made_by@[i] == before.made_by@[i]);
                    assert(before.made_by@[i] == start.made_by@[i]);
                    let k = start.made_by@[i];
                    assert(es[k] == start.entries@[k]);
                    assert(self.path(i) == start.path(i));
                    assert(self.branch(i) == start.branch(i));
                    if self.branch(i) {
                        assert forall|kk: int, m: int| 0 <= kk < k && 1 <= m < es[kk].len()
                            implies #[trigger] es[kk].take(m) != self.path(i) by {
                            assert(es[kk] == start.entries@[kk]);
                        }
                    }
                } else if i < before.len() {
                    assert(before.made_for_new(i, start.entries@, e, d as int));
                    assert(self.made_by@[i] == before.made_by@[i]);
                    assert(es[kn] == e);
                    assert(self.path(i) == before.path(i));
                    assert forall|kk: int, m: int| 0 <= kk < kn && 1 <= m < es[kk].len()
                        implies #[trigger] es[kk].take(m) != self.path(i) by {
                        assert(es[kk] == start.entries@[kk]);
                    }
                } else {
                    assert(es[kn] == e);
                    assert(e.take(e.len() as int) =~= e);
                }
            }
            assert forall|kk: int| 0 <= kk < self.leaf_of@.len() implies self.made_by@[#[trigger] self.leaf_of@[kk]] == kk by {
                if kk < start.leaf_of@.len() {
                    let i = start.leaf_of@[kk];
                    assert(start.made_by@[i] == kk);
                    assert(self.made_by@[i] == before.made_by@[i]);
                }
            }
            assert forall|i: int| start.len() <= i < self.len() implies #[trigger] self.made_by@[i] == kn by {
                if i < before.len() {
                    assert(before.made_for_new(i, start.entries@, e, d as int));
                }
            }
            assert forall|i: int| start.len() <= i < self.len() - 1 implies #[trigger] self.branch(i) by {
                assert(before.branch(i));
            }
            assert forall|kk: int| 0 <= kk < self.entries@.len() implies (#[trigger] self.entries@[kk]).len() >= 1 by {
                if kk < start.entries@.len() {
                    assert(self.entries@[kk] == start.entries@[kk]);
                }
            }
        }
    }
}

/// The entries of a list of byte paths, each as its path below the root.
pub open spec fn entries_of(paths: Seq<Vec<u8>>) -> Seq<Seq<Seq<u8>>> {
    paths.map_values(|p: Vec<u8>| relative_spec(split_spec(p@)))
}

impl FileTree {
    /// Builds the tree of an archive listing. The root, labelled
    /// `root_label`, stands for the top directory that every path starts
    /// with; each path becomes a leaf below the directories it names.
    pub fn build(root_label: String, paths: &Vec<Vec<u8>>) -> (r: FileTree)
        ensures
            r.wf(),
            r.entries@ == entries_of(paths@),
            r.nodes@[0].label@ == root_label@,
    {
        let ghost rl = root_label@;
        let mut t = FileTree::new(root_label);
        let mut i: usize = 0;
        assert(entries_of(paths@.take(0)) =~= t.entries@);
        while i < paths.len()
            invariant
                t.wf(),
                0 <= i <= paths@.len(),
                t.entries@ == entries_of(paths@.take(i as int)),
                t.nodes@[0].label@ == rl,
                rl == root_label@,
            decreases paths@.len() - i,
        {
            let segs = entry_segments(&paths[i]);
            let ghost prev = t;
            t.insert(&segs);
            assert(node_appends(prev, t, 0));
            assert(entries_of(paths@.take(i as int + 1)) =~= entries_of(paths@.take(i as int)).push(
                relative_spec(split_spec(paths@[i as int]@)),
            ));
            i = i + 1;
        }
        assert(paths@.take(paths@.len() as int) =~= paths@);
        t
    }
}

} // verus!
