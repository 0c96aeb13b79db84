use vstd::prelude::*;
use crate::label::label_spec;
use crate::tree::{count_true, dir_prefixes, is_dir_prefix, FileTree};

verus! {

/// `ids` is the walk from the root along the segments of `p`: each step goes
/// from a directory to one of its children whose segment is the next one.
pub open spec fn is_route(t: FileTree, ids: Seq<int>, p: Seq<Seq<u8>>) -> bool {
    &&& ids.len() == p.len() + 1
    &&& ids[0] == 0
    &&& forall|m: int|
        0 <= m < p.len() ==> {
            &&& t.branch(#[trigger] ids[m])
            &&& t.has_child(ids[m], ids[m + 1])
            &&& t.nodes@[ids[m + 1]].segment@ == p[m]
        }
}

/// Some route from the root along the segments of `p` ends at node `i`.
pub open spec fn has_route(t: FileTree, p: Seq<Seq<u8>>, i: int) -> bool {
    exists|ids: Seq<int>| #[trigger] is_route(t, ids, p) && ids.last() == i
}

proof fn lemma_route_to(t: FileTree, i: int) -> (ids: Seq<int>)
    requires
        t.shape(),
        0 <= i < t.len(),
    ensures
        is_route(t, ids, t.path(i)),
        ids.last() == i,
    decreases i,
{
    if i == 0 {
        seq![0int]
    } else {
        let p = t.parent@[i];
        let prev = lemma_route_to(t, p);
        let ids = prev.push(i);
        let pi = t.path(i);
        assert(pi.drop_last() == t.path(p));
        assert forall|m: int| 0 <= m < pi.len() implies {
            &&& t.branch(#[trigger] ids[m])
            &&& t.has_child(ids[m], ids[m + 1])
            &&& t.nodes@[ids[m + 1]].segment@ == pi[m]
        } by {
            if m < pi.len() - 1 {
                assert(ids[m] == prev[m] && ids[m + 1] == prev[m + 1]);
                assert(pi[m] == t.path(p)[m]);
            } else {
                assert(ids[m] == p);
            }
        }
        ids
    }
}

/// Each distinct directory is made once: the tree has exactly one directory
/// node per distinct non-empty directory prefix of its entries, plus the root.
pub proof fn lemma_directory_count(t: FileTree)
    requires
        t.wf(),
    ensures
        dir_prefixes(t.entries@).finite(),
        count_true(t.kinds()) == dir_prefixes(t.entries@).len() + 1,
        t.directory_paths() == dir_prefixes(t.entries@),
{
    let ds = t.dirs@;
    ds.unique_seq_to_set();
    assert forall|p: Seq<Seq<u8>>| ds.to_set().contains(p) <==> #[trigger] dir_prefixes(t.entries@).contains(p) by {
        if ds.to_set().contains(p) {
            let j = choose|j: int| 0 <= j < ds.len() && ds[j] == p;
            assert(t.has_branch(ds[j]));
            let i = choose|i: int| 0 < i < t.len() && t.branch(i) && #[trigger] t.path(i) == ds[j];
            assert(is_dir_prefix(t.entries@, t.path(i)));
        }
        if dir_prefixes(t.entries@).contains(p) {
            let (k, m) = choose|k: int, m: int|
                0 <= k < t.entries@.len() && 1 <= m < t.entries@[k].len() && p == #[trigger] t.entries@[k].take(m);
            assert(t.has_branch(t.entries@[k].take(m)));
            let i = choose|i: int| 0 < i < t.len() && t.branch(i) && #[trigger] t.path(i) == p;
            assert(ds.contains(t.path(i)));
        }
    }
    assert(ds.to_set() =~= dir_prefixes(t.entries@));
    assert forall|p: Seq<Seq<u8>>| t.directory_paths().contains(p) <==> #[trigger] dir_prefixes(t.entries@).contains(p) by {
        if t.directory_paths().contains(p) {
            let i = choose|i: int| 0 < i < t.len() && t.branch(i) && #[trigger] t.path(i) == p;
            assert(is_dir_prefix(t.entries@, t.path(i)));
        }
        if dir_prefixes(t.entries@).contains(p) {
            let (k, m) = choose|k: int, m: int|
                0 <= k < t.entries@.len() && 1 <= m < t.entries@[k].len() && p == #[trigger] t.entries@[k].take(m);
            assert(t.has_branch(t.entries@[k].take(m)));
        }
    }
    assert(t.directory_paths() =~= dir_prefixes(t.entries@));
}

/// Every entry has exactly one leaf of its own, reached from the root by
/// following the entry's segments in order; and every leaf belongs to an entry.
pub proof fn lemma_entries_reach_leaves(t: FileTree)
    requires
        t.wf(),
    ensures
        t.leaf_of@.len() == t.entries@.len(),
        forall|k: int|
            0 <= k < t.entries@.len() ==> !t.branch(#[trigger] t.leaf_of@[k]) && has_route(
                t,
                t.entries@[k],
                t.leaf_of@[k],
            ),
        forall|k1: int, k2: int|
            0 <= k1 < t.leaf_of@.len() && 0 <= k2 < t.leaf_of@.len() && k1 != k2
                ==> #[trigger] t.leaf_of@[k1] != #[trigger] t.leaf_of@[k2],
        forall|i: int|
            0 <= i < t.len() && !#[trigger] t.branch(i) ==> exists|k: int|
                0 <= k < t.leaf_of@.len() && #[trigger] t.leaf_of@[k] == i,
{
    assert forall|k: int| 0 <= k < t.entries@.len() implies !t.branch(#[trigger] t.leaf_of@[k]) && has_route(
        t,
        t.entries@[k],
        t.leaf_of@[k],
    ) by {
        let i = t.leaf_of@[k];
        let ids = lemma_route_to(t, i);
        assert(t.path(i) == t.entries@[k]);
        assert(is_route(t, ids, t.entries@[k]) && ids.last() == i);
    }
    assert(t.leaf_of@.len() == t.entries@.len());
    assert(forall|k1: int, k2: int|
        0 <= k1 < t.leaf_of@.len() && 0 <= k2 < t.leaf_of@.len() && k1 != k2
            ==> #[trigger] t.leaf_of@[k1] != #[trigger] t.leaf_of@[k2]);
    assert(forall|i: int|
        0 <= i < t.len() && !#[trigger] t.branch(i) ==> exists|k: int|
            0 <= k < t.leaf_of@.len() && #[trigger] t.leaf_of@[k] == i);
}

/// `t` has a node below the root with path `p`, kind `branch` and label `label`.
pub open spec fn has_node_like(t: FileTree, p: Seq<Seq<u8>>, branch: bool, label: Seq<char>) -> bool {
    exists|j: int|
        0 < j < t.len() && #[trigger] t.path(j) == p && t.branch(j) == branch && t.nodes@[j].label@ == label
}

/// The order of the entries does not matter: lists that hold the same
/// entries, counted with repetition, give the same directories and the
/// same leaves. Every node of one tree has a node of the same path, kind
/// and label in the other, and in both a node's parent is the directory
/// whose path is the node's path without its last segment.
pub proof fn lemma_order_independent(t1: FileTree, t2: FileTree)
    requires
        t1.wf(),
        t2.wf(),
        t1.entries@.to_multiset() == t2.entries@.to_multiset(),
    ensures
        t1.directory_paths() == t2.directory_paths(),
        count_true(t1.kinds()) == count_true(t2.kinds()),
        t1.leaf_paths().to_multiset() == t2.leaf_paths().to_multiset(),
        forall|i: int|
            0 < i < t1.len() ==> has_node_like(t2, #[trigger] t1.path(i), t1.branch(i), t1.nodes@[i].label@),
{
    broadcast use vstd::seq_lib::group_to_multiset_ensures;

    lemma_directory_count(t1);
    lemma_directory_count(t2);
    lemma_prefixes_of_same_entries(t1.entries@, t2.entries@);
    lemma_prefixes_of_same_entries(t2.entries@, t1.entries@);
    assert(dir_prefixes(t1.entries@) =~= dir_prefixes(t2.entries@));
    assert(t1.leaf_paths() =~= t1.entries@);
    assert(t2.leaf_paths() =~= t2.entries@);
    assert forall|i: int| 0 < i < t1.len() implies has_node_like(
        t2,
        #[trigger] t1.path(i),
        t1.branch(i),
        t1.nodes@[i].label@,
    ) by {
        let p = t1.path(i);
        if t1.branch(i) {
            assert(t1.directory_paths().contains(p));
            assert(t2.directory_paths().contains(p));
            let j = choose|j: int| 0 < j < t2.len() && t2.branch(j) && #[trigger] t2.path(j) == p;
            assert(0 <= t2.parent@[j] < j);
            assert(0 <= t1.parent@[i] < i);
            assert(t2.nodes@[j].label@ == label_spec(t2.path(j).last()));
            assert(t1.nodes@[i].label@ == label_spec(t1.path(i).last()));
        } else {
            let k = choose|k: int| 0 <= k < t1.leaf_of@.len() && #[trigger] t1.leaf_of@[k] == i;
            assert(t1.entries@.contains(p));
            assert(t1.entries@.to_multiset().count(p) > 0);
            assert(t2.entries@.contains(p));
            let k2 = choose|k2: int| 0 <= k2 < t2.entries@.len() && t2.entries@[k2] == p;
            let j = t2.leaf_of@[k2];
            assert(t2.path(j) == p && !t2.branch(j));
            assert(0 <= t2.parent@[j] < j);
            assert(0 <= t1.parent@[i] < i);
            assert(t2.nodes@[j].label@ == label_spec(t2.path(j).last()));
            assert(t1.nodes@[i].label@ == label_spec(t1.path(i).last()));
        }
    }
}

proof fn lemma_prefixes_of_same_entries(e1: Seq<Seq<Seq<u8>>>, e2: Seq<Seq<Seq<u8>>>)
    requires
        e1.to_multiset() == e2.to_multiset(),
    ensures
        forall|p: Seq<Seq<u8>>| is_dir_prefix(e1, p) ==> is_dir_prefix(e2, p),
{
    broadcast use vstd::seq_lib::group_to_multiset_ensures;

    assert forall|p: Seq<Seq<u8>>| is_dir_prefix(e1, p) implies is_dir_prefix(e2, p) by {
        let (k, m) = choose|k: int, m: int| 0 <= k < e1.len() && 1 <= m < e1[k].len() && p == #[trigger] e1[k].take(m);
        assert(e1.contains(e1[k]));
        assert(e1.to_multiset().count(e1[k]) > 0);
        assert(e2.contains(e1[k]));
        let k2 = choose|k2: int| 0 <= k2 < e2.len() && e2[k2] == e1[k];
        assert(p == e2[k2].take(m));
    }
}

/// Children are listed once each and in first-seen order: a node's child
/// list holds exactly the nodes whose parent it is, in the order they were
/// made, and each node was made for the first entry that needed it (a
/// directory for the first entry under it, a leaf for its own entry), so an
/// earlier sibling never belongs to a later entry than a later sibling.
pub proof fn lemma_children_first_seen(t: FileTree)
    requires
        t.wf(),
    ensures
        forall|i: int, j1: int, j2: int|
            0 <= i < t.len() && 0 <= j1 < j2 < t.nodes@[i].children@.len() ==> {
                let c1 = #[trigger] t.nodes@[i].children@[j1] as int;
                let c2 = #[trigger] t.nodes@[i].children@[j2] as int;
                &&& c1 < c2
                &&& t.made_by@[c1] <= t.made_by@[c2]
            },
        forall|i: int, c: int|
            0 <= i < t.len() && 0 < c < t.len() ==> (#[trigger] t.has_child(i, c) <==> t.parent@[c] == i),
        forall|c: int| 0 < c < t.len() ==> #[trigger] t.made_for(c, t.entries@),
        forall|k: int| 0 <= k < t.leaf_of@.len() ==> t.made_by@[#[trigger] t.leaf_of@[k]] == k,
{
    assert forall|i: int, j1: int, j2: int|
        0 <= i < t.len() && 0 <= j1 < j2 < t.nodes@[i].children@.len() implies {
            let c1 = #[trigger] t.nodes@[i].children@[j1] as int;
            let c2 = #[trigger] t.nodes@[i].children@[j2] as int;
            &&& c1 < c2
            &&& t.made_by@[c1] <= t.made_by@[c2]
        } by {
        let c1 = t.nodes@[i].children@[j1] as int;
        let c2 = t.nodes@[i].children@[j2] as int;
        assert(c1 < c2);
        assert(t.made_by@[c1] <= t.made_by@[c2]);
    }
    assert forall|i: int, c: int| 0 <= i < t.len() && 0 < c < t.len() implies (#[trigger] t.has_child(i, c)
        <==> t.parent@[c] == i) by {
        if t.has_child(i, c) {
            let q = choose|q: int| 0 <= q < t.nodes@[i].children@.len() && #[trigger] t.nodes@[i].children@[q] as int == c;
            let cc = t.nodes@[i].children@[q];
            assert(t.parent@[cc as int] == i);
        }
    }
    assert forall|k: int| 0 <= k < t.leaf_of@.len() implies t.made_by@[#[trigger] t.leaf_of@[k]] == k by {
    }
}

} // verus!
