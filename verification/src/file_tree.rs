use vstd::prelude::*;

use crate::print_tree::{lemma_sorted_children_views, sort_children, sorted_views};
use crate::size::Size;
use crate::snapshot::{
    entry_model, entry_path, entry_paths, entry_size, entry_under, lemma_file_paths_among_list,
    lemma_list_model_files, list_child_paths, list_file_paths, list_has_file, list_model,
    list_paths, list_size, list_under, snap_model, snap_wf, str_views, strictly_under,
    view_children, view_size, FsEntry, FsSnapshot, NodeView,
};

verus! {

/// Why a tree could not be built.
#[derive(Clone, Copy, PartialEq, Eq, Structural, Debug)]
pub enum BuildError {
    /// The root path does not exist or is not a directory.
    InvalidRoot,
    /// The root listing could not be obtained at all. The verified builder
    /// never returns this variant — a snapshot reader that follows the
    /// skip-on-error policy absorbs listing failures — but a reader that
    /// chooses to surface such a failure reports it here.
    Io,
}

enum EntryNode {
    File { size: Size },
    Directory { children: Vec<usize>, size: Size },
}

struct Node {
    path: String,
    entry: EntryNode,
}

/// An immutable snapshot of a directory subtree: one node per path, each
/// directory carrying its children and its aggregated size. Nodes are held
/// in the order the builder finished them, so the children of a directory
/// always sit strictly before the directory itself.
pub struct FileTree {
    root: String,
    nodes: Vec<Node>,
}

// ---------------------------------------------------------------------------
// The abstract view of the node store.
// ---------------------------------------------------------------------------

spec fn node_size(n: Node) -> nat {
    match n.entry {
        EntryNode::File { size } => size.0 as nat,
        EntryNode::Directory { size, .. } => size.0 as nat,
    }
}

spec fn paths_of(nodes: Seq<Node>) -> Seq<Seq<char>> {
    nodes.map_values(|n: Node| n.path@)
}

spec fn node_view(nodes: Seq<Node>, n: Node) -> NodeView {
    match n.entry {
        EntryNode::File { size } => NodeView::File { size: size.0 as nat },
        EntryNode::Directory { children, size } => NodeView::Dir {
            children: children@.map_values(|c: usize| nodes[c as int].path@),
            size: size.0 as nat,
        },
    }
}

spec fn sum_children(nodes: Seq<Node>, ch: Seq<usize>) -> nat
    decreases ch,
{
    if ch.len() == 0 {
        0
    } else {
        sum_children(nodes, ch.drop_last()) + node_size(nodes[ch.last() as int])
    }
}

spec fn node_ok(nodes: Seq<Node>, i: int) -> bool {
    match nodes[i].entry {
        EntryNode::File { .. } => true,
        EntryNode::Directory { children, size } => {
            &&& forall|k: int| 0 <= k < children@.len() ==> 0 <= (#[trigger] children@[k]) < i
            &&& size.0 as nat == sum_children(nodes, children@)
        },
    }
}

spec fn arena_ok(nodes: Seq<Node>) -> bool {
    forall|i: int| 0 <= i < nodes.len() ==> #[trigger] node_ok(nodes, i)
}

spec fn map_upto(nodes: Seq<Node>, n: int) -> Map<Seq<char>, NodeView>
    decreases n,
{
    if n <= 0 {
        Map::empty()
    } else {
        map_upto(nodes, n - 1).insert(nodes[n - 1].path@, node_view(nodes, nodes[n - 1]))
    }
}

impl FileTree {
    /// The root path the tree was built for.
    pub closed spec fn spec_root(self) -> Seq<char> {
        self.root@
    }

    /// The path-keyed map of every node of the tree.
    pub closed spec fn model(self) -> Map<Seq<char>, NodeView> {
        map_upto(self.nodes@, self.nodes@.len() as int)
    }

    /// How many nodes the tree holds.
    pub closed spec fn node_count(self) -> nat {
        self.nodes@.len()
    }

    /// The internal invariant: one node per path, every directory's children
    /// finished before it with the directory's size the sum of theirs, the
    /// root node a directory, and every other node strictly below the root.
    pub closed spec fn wf(self) -> bool {
        &&& self.nodes@.len() >= 1
        &&& arena_ok(self.nodes@)
        &&& paths_of(self.nodes@).no_duplicates()
        &&& self.nodes@.last().path@ == self.root@
        &&& self.nodes@.last().entry is Directory
        &&& forall|i: int|
            0 <= i < self.nodes@.len() - 1 ==> strictly_under(
                self.root@,
                (#[trigger] self.nodes@[i]).path@,
            )
    }
}

// ---------------------------------------------------------------------------
// Facts about the abstract view.
// ---------------------------------------------------------------------------

proof fn lemma_map_upto_dom(nodes: Seq<Node>, n: int)
    requires
        0 <= n <= nodes.len(),
    ensures
        forall|p: Seq<char>|
            #[trigger] map_upto(nodes, n).contains_key(p) <==> (exists|i: int|
                0 <= i < n && (#[trigger] nodes[i]).path@ == p),
    decreases n,
{
    if n > 0 {
        lemma_map_upto_dom(nodes, n - 1);
        assert forall|p: Seq<char>|
            #[trigger] map_upto(nodes, n).contains_key(p) implies (exists|i: int|
            0 <= i < n && (#[trigger] nodes[i]).path@ == p) by {
            if p == nodes[n - 1].path@ {
                assert(nodes[n - 1].path@ == p);
            } else {
                assert(map_upto(nodes, n - 1).contains_key(p));
                let i = choose|i: int| 0 <= i < n - 1 && (#[trigger] nodes[i]).path@ == p;
                assert(nodes[i].path@ == p);
            }
        }
        assert forall|p: Seq<char>|
            (exists|i: int| 0 <= i < n && (#[trigger] nodes[i]).path@ == p) implies #[trigger] map_upto(
            nodes,
            n,
        ).contains_key(p) by {
            let i = choose|i: int| 0 <= i < n && (#[trigger] nodes[i]).path@ == p;
            if i < n - 1 {
                assert(map_upto(nodes, n - 1).contains_key(p));
            }
        }
    }
}

proof fn lemma_map_upto_lookup(nodes: Seq<Node>, n: int, i: int)
    requires
        0 <= i < n <= nodes.len(),
        paths_of(nodes).no_duplicates(),
    ensures
        map_upto(nodes, n).contains_key(nodes[i].path@),
        map_upto(nodes, n)[nodes[i].path@] == node_view(nodes, nodes[i]),
    decreases n,
{
    assert(paths_of(nodes)[i] == nodes[i].path@);
    if i == n - 1 {
    } else {
        lemma_map_upto_lookup(nodes, n - 1, i);
        assert(paths_of(nodes)[n - 1] == nodes[n - 1].path@);
    }
}

// ---------------------------------------------------------------------------
// Facts used while building: unfolding the listing folds one entry at a
// time, keeping paths distinct, and keeping earlier nodes untouched.
// ---------------------------------------------------------------------------

proof fn lemma_no_dup_from_counts(x: Seq<Seq<char>>, y: Seq<Seq<char>>)
    requires
        y.no_duplicates(),
        forall|e: Seq<char>| #[trigger] x.to_multiset().count(e) <= y.to_multiset().count(e),
    ensures
        x.no_duplicates(),
{
    broadcast use vstd::seq_lib::group_to_multiset_ensures;

    y.lemma_multiset_has_no_duplicates();
    assert forall|e: Seq<char>| x.to_multiset().contains(e) implies x.to_multiset().count(e)
        == 1 by {
        assert(x.to_multiset().count(e) <= y.to_multiset().count(e));
        assert(y.to_multiset().contains(e));
    }
    x.lemma_multiset_has_no_duplicates_conv();
}

proof fn lemma_list_take_step(s: Seq<FsEntry>, i: int)
    requires
        0 <= i < s.len(),
    ensures
        list_size(s.take(i + 1)) == list_size(s.take(i)) + entry_size(s[i]),
        list_paths(s.take(i + 1)) == list_paths(s.take(i)) + entry_paths(s[i]),
        list_model(s.take(i + 1)) == list_model(s.take(i)).union_prefer_right(entry_model(s[i])),
{
    let t = s.take(i + 1);
    assert(t.drop_last() =~= s.take(i));
    assert(t.last() == s[i]);
}

proof fn lemma_list_size_take_le(s: Seq<FsEntry>, j: int)
    requires
        0 <= j <= s.len(),
    ensures
        list_size(s.take(j)) <= list_size(s),
    decreases s.len() - j,
{
    if j == s.len() {
        assert(s.take(j) =~= s);
    } else {
        lemma_list_take_step(s, j);
        lemma_list_size_take_le(s, j + 1);
    }
}

proof fn lemma_under_trans(a: Seq<char>, b: Seq<char>, c: Seq<char>)
    requires
        strictly_under(a, b),
        strictly_under(b, c),
    ensures
        strictly_under(a, c),
{
    assert forall|i: int| 0 <= i < a.len() implies c.subrange(0, a.len() as int)[i] == a[i] by {
        assert(b.subrange(0, a.len() as int)[i] == b[i]);
        assert(c.subrange(0, b.len() as int)[i] == c[i]);
    }
    assert(c.subrange(0, a.len() as int) =~= a);
}

proof fn lemma_entry_under_paths(parent: Seq<char>, e: FsEntry)
    requires
        entry_under(parent, e),
    ensures
        forall|p: Seq<char>| #[trigger] entry_paths(e).contains(p) ==> strictly_under(parent, p),
    decreases e,
{
    match e {
        FsEntry::File { .. } => {
            assert forall|p: Seq<char>| #[trigger] entry_paths(e).contains(p) implies strictly_under(
                parent,
                p,
            ) by {
                assert(entry_paths(e)[0] == entry_path(e));
            }
        },
        FsEntry::Dir { path, entries } => {
            lemma_list_under_paths(path@, entries@);
            assert forall|p: Seq<char>| #[trigger] entry_paths(e).contains(p) implies strictly_under(
                parent,
                p,
            ) by {
                let j = choose|j: int| 0 <= j < entry_paths(e).len() && entry_paths(e)[j] == p;
                if j == 0 {
                    assert(p == path@);
                } else {
                    assert(list_paths(entries@)[j - 1] == p);
                    assert(list_paths(entries@).contains(p));
                    lemma_under_trans(parent, path@, p);
                }
            }
        },
    }
}

proof fn lemma_list_under_paths(parent: Seq<char>, s: Seq<FsEntry>)
    requires
        list_under(parent, s),
    ensures
        forall|p: Seq<char>| #[trigger] list_paths(s).contains(p) ==> strictly_under(parent, p),
    decreases s,
{
    if s.len() > 0 {
        lemma_list_under_paths(parent, s.drop_last());
        lemma_entry_under_paths(parent, s.last());
        assert forall|p: Seq<char>| #[trigger] list_paths(s).contains(p) implies strictly_under(
            parent,
            p,
        ) by {
            let j = choose|j: int| 0 <= j < list_paths(s).len() && list_paths(s)[j] == p;
            let front = list_paths(s.drop_last());
            if j < front.len() {
                assert(front[j] == p);
                assert(front.contains(p));
            } else {
                assert(entry_paths(s.last())[j - front.len()] == p);
                assert(entry_paths(s.last()).contains(p));
            }
        }
    }
}

proof fn lemma_sum_children_stable(a: Seq<Node>, b: Seq<Node>, ch: Seq<usize>)
    requires
        forall|k: int|
            0 <= k < ch.len() ==> 0 <= ((#[trigger] ch[k]) as int) < a.len() && (ch[k] as int)
                < b.len() && a[ch[k] as int] == b[ch[k] as int],
    ensures
        sum_children(a, ch) == sum_children(b, ch),
    decreases ch,
{
    if ch.len() > 0 {
        lemma_sum_children_stable(a, b, ch.drop_last());
    }
}

proof fn lemma_sum_children_matches(nodes: Seq<Node>, ch: Seq<usize>, s: Seq<FsEntry>)
    requires
        ch.len() == s.len(),
        forall|j: int|
            0 <= j < ch.len() ==> 0 <= ((#[trigger] ch[j]) as int) < nodes.len() && node_size(
                nodes[ch[j] as int],
            ) == entry_size(s[j]),
    ensures
        sum_children(nodes, ch) == list_size(s),
    decreases ch,
{
    if ch.len() > 0 {
        lemma_sum_children_matches(nodes, ch.drop_last(), s.drop_last());
    }
}

proof fn lemma_map_upto_stable(a: Seq<Node>, b: Seq<Node>, n: int)
    requires
        0 <= n <= a.len(),
        n <= b.len(),
        forall|j: int| 0 <= j < n ==> a[j] == b[j],
        forall|i: int| 0 <= i < n ==> #[trigger] node_ok(a, i),
    ensures
        map_upto(a, n) == map_upto(b, n),
    decreases n,
{
    if n > 0 {
        lemma_map_upto_stable(a, b, n - 1);
        assert(node_ok(a, n - 1));
        match a[n - 1].entry {
            EntryNode::Directory { children, .. } => {
                assert(children@.map_values(|c: usize| a[c as int].path@) =~= children@.map_values(
                    |c: usize| b[c as int].path@,
                ));
            },
            EntryNode::File { .. } => {},
        }
        assert(node_view(a, a[n - 1]) == node_view(b, b[n - 1]));
    }
}

proof fn lemma_arena_push(a: Seq<Node>, b: Seq<Node>)
    requires
        b.len() == a.len() + 1,
        forall|j: int| 0 <= j < a.len() ==> a[j] == b[j],
        arena_ok(a),
        node_ok(b, a.len() as int),
    ensures
        arena_ok(b),
{
    assert forall|i: int| 0 <= i < b.len() implies #[trigger] node_ok(b, i) by {
        if i < a.len() {
            assert(node_ok(a, i));
            match a[i].entry {
                EntryNode::Directory { children, .. } => {
                    lemma_sum_children_stable(a, b, children@);
                },
                EntryNode::File { .. } => {},
            }
        }
    }
}

// ---------------------------------------------------------------------------
// Laws of the query surface.
// ---------------------------------------------------------------------------

/// Sum of the sizes the map records at the given paths.
pub open spec fn sum_child_sizes(m: Map<Seq<char>, NodeView>, cs: Seq<Seq<char>>) -> nat
    decreases cs,
{
    if cs.len() == 0 {
        0
    } else {
        sum_child_sizes(m, cs.drop_last()) + view_size(m[cs.last()])
    }
}

proof fn lemma_sum_children_as_paths(t: FileTree, ch: Seq<usize>)
    requires
        t.wf(),
        forall|k: int| 0 <= k < ch.len() ==> 0 <= ((#[trigger] ch[k]) as int) < t.nodes@.len(),
    ensures
        sum_child_sizes(t.model(), ch.map_values(|c: usize| t.nodes@[c as int].path@))
            == sum_children(t.nodes@, ch),
        forall|k: int|
            0 <= k < ch.len() ==> t.model().contains_key(
                t.nodes@[(#[trigger] ch[k]) as int].path@,
            ),
    decreases ch,
{
    let nodes = t.nodes@;
    let cs = ch.map_values(|c: usize| nodes[c as int].path@);
    if ch.len() > 0 {
        lemma_sum_children_as_paths(t, ch.drop_last());
        lemma_map_upto_lookup(nodes, nodes.len() as int, ch.last() as int);
        assert(cs.drop_last() =~= ch.drop_last().map_values(|c: usize| nodes[c as int].path@));
        assert(cs.last() == nodes[ch.last() as int].path@);
        assert(view_size(t.model()[cs.last()]) == node_size(nodes[ch.last() as int]));
        assert forall|k: int|
            0 <= k < ch.len() implies t.model().contains_key(
            nodes[(#[trigger] ch[k]) as int].path@,
        ) by {
            lemma_map_upto_lookup(nodes, nodes.len() as int, ch[k] as int);
        }
    }
}

/// Aggregation invariant: in a well-formed tree, every directory's recorded
/// size equals the sum of its children's recorded sizes, and every child
/// path of a directory is itself a key of the tree.
pub proof fn lemma_dir_size_is_sum_of_children(t: FileTree, p: Seq<char>)
    requires
        t.wf(),
        t.model().contains_key(p),
        t.model()[p] is Dir,
    ensures
        forall|k: int|
            0 <= k < view_children(t.model()[p]).len() ==> t.model().contains_key(
                #[trigger] view_children(t.model()[p])[k],
            ),
        view_size(t.model()[p]) == sum_child_sizes(t.model(), view_children(t.model()[p])),
{
    let nodes = t.nodes@;
    let n = nodes.len() as int;
    lemma_map_upto_dom(nodes, n);
    let i = choose|i: int| 0 <= i < n && (#[trigger] nodes[i]).path@ == p;
    lemma_map_upto_lookup(nodes, n, i);
    assert(node_ok(nodes, i));
    match nodes[i].entry {
        EntryNode::Directory { children, size } => {
            lemma_sum_children_as_paths(t, children@);
            assert(view_children(t.model()[p]) == children@.map_values(
                |c: usize| nodes[c as int].path@,
            ));
        },
        EntryNode::File { .. } => {
            assert(false);
        },
    }
}

proof fn lemma_snap_listing_no_dup(root: Seq<char>, entries: Seq<FsEntry>)
    requires
        (seq![root] + list_paths(entries)).no_duplicates(),
    ensures
        list_paths(entries).no_duplicates(),
        !list_paths(entries).contains(root),
{
    assert forall|a: int, b: int|
        0 <= a < list_paths(entries).len() && 0 <= b < list_paths(entries).len() && a
            != b implies list_paths(entries)[a] != list_paths(entries)[b] by {
        assert((seq![root] + list_paths(entries))[a + 1] == list_paths(entries)[a]);
        assert((seq![root] + list_paths(entries))[b + 1] == list_paths(entries)[b]);
    }
    if list_paths(entries).contains(root) {
        let k = choose|k: int|
            0 <= k < list_paths(entries).len() && list_paths(entries)[k] == root;
        assert((seq![root] + list_paths(entries))[k + 1] == root);
        assert((seq![root] + list_paths(entries))[0] == root);
    }
}

/// Leaf correctness: a regular file the snapshot records at `p` with byte
/// length `sz` stands in the built tree's map as a file node of exactly
/// that size.
pub proof fn lemma_leaf_size(root: Seq<char>, snap: FsSnapshot, t: FileTree, p: Seq<char>, sz: u64)
    requires
        snap_wf(root, snap),
        snap is Dir,
        list_has_file(snap->Dir_entries@, p, sz),
        t.model() == snap_model(root, snap),
    ensures
        t.model().contains_key(p),
        t.model()[p] == (NodeView::File { size: sz as nat }),
{
    let entries = snap->Dir_entries@;
    lemma_snap_listing_no_dup(root, entries);
    lemma_list_model_files(entries);
    assert(list_model(entries).contains_key(p));
    assert(list_paths(entries).contains(p));
    assert(p != root);
    assert(t.model()[p] == list_model(entries)[p]);
}

/// Completeness: the keys of a built tree that hold file nodes are exactly
/// the file paths of the snapshot it was built from; every other key is a
/// directory.
pub proof fn lemma_files_complete(root: Seq<char>, snap: FsSnapshot, t: FileTree)
    requires
        snap_wf(root, snap),
        snap is Dir,
        t.model() == snap_model(root, snap),
    ensures
        forall|p: Seq<char>|
            (t.model().contains_key(p) && #[trigger] t.model()[p] is File)
                <==> #[trigger] list_file_paths(snap->Dir_entries@).contains(p),
{
    let entries = snap->Dir_entries@;
    lemma_snap_listing_no_dup(root, entries);
    lemma_list_model_files(entries);
    lemma_file_paths_among_list(entries);
    assert forall|p: Seq<char>|
        (t.model().contains_key(p) && #[trigger] t.model()[p] is File)
            <==> #[trigger] list_file_paths(entries).contains(p) by {
        if t.model().contains_key(p) && t.model()[p] is File {
            assert(p != root);
            assert(t.model()[p] == list_model(entries)[p]);
            assert(list_model(entries).contains_key(p));
        }
        if list_file_paths(entries).contains(p) {
            assert(list_paths(entries).contains(p));
            assert(list_model(entries).contains_key(p));
            assert(p != root);
            assert(t.model()[p] == list_model(entries)[p]);
        }
    }
}

// ---------------------------------------------------------------------------
// Building a tree from a snapshot.
// ---------------------------------------------------------------------------

/// Appends one node per entry of `entries` (post-order: the nodes of a
/// directory's subtree first, then the directory itself) and returns the
/// indices of the entries' own nodes together with their total size.
fn build_list(nodes: &mut Vec<Node>, entries: &Vec<FsEntry>) -> (r: (Vec<usize>, u64))
    requires
        list_size(entries@) <= u64::MAX,
        (paths_of(old(nodes)@) + list_paths(entries@)).no_duplicates(),
        arena_ok(old(nodes)@),
    ensures
        arena_ok(final(nodes)@),
        final(nodes)@.len() == old(nodes)@.len() + list_paths(entries@).len(),
        forall|j: int| 0 <= j < old(nodes)@.len() ==> final(nodes)@[j] == old(nodes)@[j],
        paths_of(final(nodes)@).to_multiset() == (paths_of(old(nodes)@) + list_paths(
            entries@,
        )).to_multiset(),
        map_upto(final(nodes)@, final(nodes)@.len() as int) == map_upto(
            old(nodes)@,
            old(nodes)@.len() as int,
        ).union_prefer_right(list_model(entries@)),
        r.1 == list_size(entries@),
        r.0@.len() == entries@.len(),
        forall|j: int|
            0 <= j < entries@.len() ==> old(nodes)@.len() <= ((#[trigger] r.0@[j]) as int)
                && ((r.0@[j]) as int) < final(nodes)@.len(),
        forall|j: int|
            0 <= j < entries@.len() ==> final(nodes)@[(#[trigger] r.0@[j]) as int].path@
                == entry_path(entries@[j]),
        forall|j: int|
            0 <= j < entries@.len() ==> node_size(final(nodes)@[(#[trigger] r.0@[j]) as int])
                == entry_size(entries@[j]),
    decreases entries@,
{
    let ghost base = nodes@;
    let mut idxs: Vec<usize> = Vec::new();
    let mut total: u64 = 0;
    let n = entries.len();
    let mut i: usize = 0;
    while i < n
        invariant
            n == entries@.len(),
            i <= n,
            list_size(entries@) <= u64::MAX,
            (paths_of(base) + list_paths(entries@)).no_duplicates(),
            arena_ok(nodes@),
            nodes@.len() == base.len() + list_paths(entries@.take(i as int)).len(),
            forall|j: int| 0 <= j < base.len() ==> nodes@[j] == base[j],
            paths_of(nodes@).to_multiset() == (paths_of(base) + list_paths(
                entries@.take(i as int),
            )).to_multiset(),
            map_upto(nodes@, nodes@.len() as int) == map_upto(
                base,
                base.len() as int,
            ).union_prefer_right(list_model(entries@.take(i as int))),
            total == list_size(entries@.take(i as int)),
            idxs@.len() == i,
            forall|j: int|
                0 <= j < i ==> base.len() <= ((#[trigger] idxs@[j]) as int) < nodes@.len(),
            forall|j: int|
                0 <= j < i ==> nodes@[(#[trigger] idxs@[j]) as int].path@ == entry_path(
                    entries@[j],
                ),
            forall|j: int|
                0 <= j < i ==> node_size(nodes@[(#[trigger] idxs@[j]) as int]) == entry_size(
                    entries@[j],
                ),
        decreases n - i,
    {
        proof {
            lemma_list_take_step(entries@, i as int);
            lemma_list_size_take_le(entries@, i as int + 1);
        }
        let ghost prev = nodes@;
        match &entries[i] {
            FsEntry::File { path, size } => {
                let idx = nodes.len();
                nodes.push(
                    Node { path: path.clone(), entry: EntryNode::File { size: Size(*size) } },
                );
                idxs.push(idx);
                proof {
                    broadcast use vstd::seq_lib::group_to_multiset_ensures;

                    let cur = nodes@;
                    assert(entries@[i as int] == FsEntry::File { path: *path, size: *size });
                    assert(node_ok(cur, idx as int));
                    lemma_arena_push(prev, cur);
                    assert(paths_of(cur) =~= paths_of(prev).push(path@));
                    assert(entry_paths(entries@[i as int]) =~= seq![path@]);
                    assert((paths_of(base) + list_paths(entries@.take(i as int + 1))) =~= (
                    paths_of(base) + list_paths(entries@.take(i as int))).push(path@));
                    assert(forall|k: int| 0 <= k < prev.len() ==> #[trigger] node_ok(prev, k));
                    lemma_map_upto_stable(prev, cur, prev.len() as int);
                    assert(node_view(cur, cur.last()) == NodeView::File { size: *size as nat });
                    assert(entry_model(entries@[i as int]) == map![
                        path@ => NodeView::File { size: *size as nat },
                    ]);
                    assert(map_upto(cur, cur.len() as int) =~= map_upto(
                        base,
                        base.len() as int,
                    ).union_prefer_right(list_model(entries@.take(i as int + 1))));
                }
                total = total + *size;
            },
            FsEntry::Dir { path, entries: sub } => {
                proof {
                    broadcast use vstd::seq_lib::group_to_multiset_ensures;

                    assert(entries@[i as int] == FsEntry::Dir { path: *path, entries: *sub });
                    assert(entry_size(entries@[i as int]) == list_size(sub@));
                    assert(entry_paths(entries@[i as int]) == seq![path@] + list_paths(sub@));
                    // The paths of the whole listing decompose around entry i.
                    assert(entries@ =~= entries@.take(i as int) + entries@.skip(i as int));
                    assert(entries@.skip(i as int) =~= seq![entries@[i as int]] + entries@.skip(
                        i as int + 1,
                    ));
                    crate::snapshot::lemma_list_paths_split(entries@.take(i as int), entries@.skip(i as int));
                    crate::snapshot::lemma_list_paths_split(
                        seq![entries@[i as int]],
                        entries@.skip(i as int + 1),
                    );
                    assert(seq![entries@[i as int]].drop_last() =~= Seq::<FsEntry>::empty());
                    assert(list_paths(Seq::<FsEntry>::empty()) =~= Seq::<Seq<char>>::empty());
                    assert(list_paths(seq![entries@[i as int]]) == list_paths(
                        seq![entries@[i as int]].drop_last(),
                    ) + entry_paths(seq![entries@[i as int]].last()));
                    assert(list_paths(seq![entries@[i as int]]) =~= entry_paths(
                        entries@[i as int],
                    ));
                    // Every path the recursive call will add is still unclaimed.
                    vstd::seq_lib::lemma_multiset_commutative(paths_of(base), list_paths(entries@));
                    vstd::seq_lib::lemma_multiset_commutative(
                        list_paths(entries@.take(i as int)),
                        list_paths(entries@.skip(i as int)),
                    );
                    vstd::seq_lib::lemma_multiset_commutative(
                        entry_paths(entries@[i as int]),
                        list_paths(entries@.skip(i as int + 1)),
                    );
                    vstd::seq_lib::lemma_multiset_commutative(seq![path@], list_paths(sub@));
                    vstd::seq_lib::lemma_multiset_commutative(paths_of(prev), list_paths(sub@));
                    vstd::seq_lib::lemma_multiset_commutative(
                        paths_of(base),
                        list_paths(entries@.take(i as int)),
                    );
                    crate::snapshot::lemma_singleton_path_multiset(path@);
                    lemma_no_dup_from_counts(
                        paths_of(prev) + list_paths(sub@),
                        paths_of(base) + list_paths(entries@),
                    );
                }
                let (ch, sub_total) = build_list(nodes, sub);
                let ghost mid = nodes@;
                let idx = nodes.len();
                nodes.push(
                    Node {
                        path: path.clone(),
                        entry: EntryNode::Directory { children: ch, size: Size(sub_total) },
                    },
                );
                idxs.push(idx);
                proof {
                    broadcast use vstd::seq_lib::group_to_multiset_ensures;

                    let cur = nodes@;
                    // The pushed directory node is in order: children below it,
                    // size the sum of theirs.
                    lemma_sum_children_matches(cur, ch@, sub@);
                    assert(node_ok(cur, idx as int));
                    lemma_arena_push(mid, cur);
                    // Paths: the subtree added exactly its own paths.
                    assert(paths_of(cur) =~= paths_of(mid).push(path@));
                    vstd::seq_lib::lemma_multiset_commutative(paths_of(prev), list_paths(sub@));
                    vstd::seq_lib::lemma_multiset_commutative(
                        paths_of(base),
                        list_paths(entries@.take(i as int)),
                    );
                    vstd::seq_lib::lemma_multiset_commutative(
                        paths_of(base),
                        list_paths(entries@.take(i as int + 1)),
                    );
                    vstd::seq_lib::lemma_multiset_commutative(
                        list_paths(entries@.take(i as int)),
                        entry_paths(entries@[i as int]),
                    );
                    vstd::seq_lib::lemma_multiset_commutative(seq![path@], list_paths(sub@));
                    crate::snapshot::lemma_singleton_path_multiset(path@);
                    assert(paths_of(cur).to_multiset() =~= (paths_of(base) + list_paths(
                        entries@.take(i as int + 1),
                    )).to_multiset());
                    // The map gained the subtree's nodes and then the directory.
                    assert(forall|k: int| 0 <= k < mid.len() ==> #[trigger] node_ok(mid, k));
                    lemma_map_upto_stable(mid, cur, mid.len() as int);
                    assert(ch@.map_values(|c: usize| cur[c as int].path@) =~= list_child_paths(
                        sub@,
                    ));
                    assert(node_view(cur, cur.last()) == NodeView::Dir {
                        children: list_child_paths(sub@),
                        size: list_size(sub@),
                    });
                    assert(map_upto(cur, cur.len() as int) =~= map_upto(
                        base,
                        base.len() as int,
                    ).union_prefer_right(list_model(entries@.take(i as int + 1))));
                }
                total = total + sub_total;
            },
        }
        i += 1;
    }
    proof {
        assert(entries@.take(n as int) =~= entries@);
    }
    (idxs, total)
}

impl FileTree {
    /// Build the tree for `root` from a snapshot of its listing. Fails with
    /// `InvalidRoot` exactly when the snapshot is not a directory; otherwise
    /// the resulting tree holds one node per snapshot entry plus the root,
    /// with every directory's size the sum of its children's.
    pub fn new(root: &String, snap: &FsSnapshot) -> (r: Result<FileTree, BuildError>)
        requires
            snap_wf(root@, *snap),
        ensures
            r is Ok <==> *snap is Dir,
            match r {
                Ok(t) => t.wf() && t.spec_root() == root@ && t.model() == snap_model(
                    root@,
                    *snap,
                ),
                Err(e) => e == BuildError::InvalidRoot,
            },
    {
        match snap {
            FsSnapshot::Dir { entries } => {
                let mut nodes: Vec<Node> = Vec::new();
                let ghost base = nodes@;
                proof {
                    broadcast use vstd::seq_lib::group_to_multiset_ensures;

                    assert(paths_of(base) =~= Seq::<Seq<char>>::empty());
                    assert((seq![root@] + list_paths(entries@)).no_duplicates());
                    assert forall|a: int, b: int|
                        0 <= a < list_paths(entries@).len() && 0 <= b < list_paths(
                            entries@,
                        ).len() && a != b implies list_paths(entries@)[a] != list_paths(
                        entries@,
                    )[b] by {
                        assert((seq![root@] + list_paths(entries@))[a + 1] == list_paths(
                            entries@,
                        )[a]);
                        assert((seq![root@] + list_paths(entries@))[b + 1] == list_paths(
                            entries@,
                        )[b]);
                    }
                    assert((paths_of(base) + list_paths(entries@)) =~= list_paths(entries@));
                }
                let (ch, total) = build_list(&mut nodes, entries);
                let ghost mid = nodes@;
                nodes.push(
                    Node {
                        path: root.clone(),
                        entry: EntryNode::Directory { children: ch, size: Size(total) },
                    },
                );
                let t = FileTree { root: root.clone(), nodes };
                proof {
                    broadcast use vstd::seq_lib::group_to_multiset_ensures;

                    let cur = t.nodes@;
                    let last = cur.len() - 1;
                    // The root node is in order.
                    lemma_sum_children_matches(cur, ch@, entries@);
                    assert(node_ok(cur, last));
                    lemma_arena_push(mid, cur);
                    // One node per path, no path twice.
                    assert(paths_of(cur) =~= paths_of(mid).push(root@));
                    vstd::seq_lib::lemma_multiset_commutative(paths_of(base), list_paths(entries@));
                    vstd::seq_lib::lemma_multiset_commutative(seq![root@], list_paths(entries@));
                    crate::snapshot::lemma_singleton_path_multiset(root@);
                    lemma_no_dup_from_counts(paths_of(cur), seq![root@] + list_paths(entries@));
                    // Every other node lies strictly below the root.
                    lemma_list_under_paths(root@, entries@);
                    assert forall|i: int| 0 <= i < cur.len() - 1 implies strictly_under(
                        root@,
                        (#[trigger] cur[i]).path@,
                    ) by {
                        assert(paths_of(mid)[i] == cur[i].path@);
                        assert(paths_of(mid).contains(cur[i].path@));
                        assert(paths_of(mid).to_multiset().count(cur[i].path@) > 0);
                        assert(list_paths(entries@).to_multiset().count(cur[i].path@) > 0);
                        assert(list_paths(entries@).contains(cur[i].path@));
                    }
                    assert(t.wf());
                    // The map is exactly the snapshot's.
                    assert(forall|k: int| 0 <= k < mid.len() ==> #[trigger] node_ok(mid, k));
                    lemma_map_upto_stable(mid, cur, mid.len() as int);
                    assert(map_upto(base, 0) == Map::<Seq<char>, NodeView>::empty());
                    assert(map_upto(mid, mid.len() as int) =~= list_model(entries@));
                    assert(ch@.map_values(|c: usize| cur[c as int].path@) =~= list_child_paths(
                        entries@,
                    ));
                    assert(node_view(cur, cur.last()) == NodeView::Dir {
                        children: list_child_paths(entries@),
                        size: list_size(entries@),
                    });
                    assert(t.model() =~= snap_model(root@, *snap));
                }
                Ok(t)
            },
            FsSnapshot::File => Err(BuildError::InvalidRoot),
            FsSnapshot::Missing => Err(BuildError::InvalidRoot),
        }
    }
}

// ---------------------------------------------------------------------------
// The read-only query surface.
// ---------------------------------------------------------------------------

impl FileTree {
    fn find(&self, path: &String) -> (r: Option<usize>)
        ensures
            match r {
                Some(i) => i < self.nodes@.len() && self.nodes@[i as int].path@ == path@,
                None => forall|i: int|
                    0 <= i < self.nodes@.len() ==> (#[trigger] self.nodes@[i]).path@ != path@,
            },
    {
        let n = self.nodes.len();
        let mut k: usize = 0;
        while k < n
            invariant
                n == self.nodes@.len(),
                k <= n,
                forall|i: int| 0 <= i < k ==> (#[trigger] self.nodes@[i]).path@ != path@,
            decreases n - k,
        {
            if self.nodes[k].path == *path {
                return Some(k);
            }
            k += 1;
        }
        None
    }

    /// The root path the tree was built for.
    pub fn get_root(&self) -> (r: &String)
        ensures
            r@ == self.spec_root(),
    {
        &self.root
    }

    /// The size recorded for `path`: a file's byte length, or a directory's
    /// aggregated size. `None` exactly when the tree has no such path.
    pub fn get_size(&self, path: &String) -> (r: Option<Size>)
        requires
            self.wf(),
        ensures
            r is Some <==> self.model().contains_key(path@),
            match r {
                Some(s) => s.0 as nat == view_size(self.model()[path@]),
                None => true,
            },
    {
        proof {
            lemma_map_upto_dom(self.nodes@, self.nodes@.len() as int);
        }
        match self.find(path) {
            Some(i) => {
                proof {
                    lemma_map_upto_lookup(self.nodes@, self.nodes@.len() as int, i as int);
                }
                match &self.nodes[i].entry {
                    EntryNode::File { size } => Some(*size),
                    EntryNode::Directory { size, .. } => Some(*size),
                }
            },
            None => None,
        }
    }

    /// The children of the directory at `path`, in the order the listing
    /// discovered them. `None` exactly when `path` is not a directory of the
    /// tree (it is a file, or unknown).
    pub fn get_children(&self, path: &String) -> (r: Option<Vec<String>>)
        requires
            self.wf(),
        ensures
            r is Some <==> (self.model().contains_key(path@) && self.model()[path@] is Dir),
            match r {
                Some(v) => str_views(v@) == view_children(self.model()[path@]),
                None => true,
            },
    {
        proof {
            lemma_map_upto_dom(self.nodes@, self.nodes@.len() as int);
        }
        match self.find(path) {
            Some(i) => {
                proof {
                    lemma_map_upto_lookup(self.nodes@, self.nodes@.len() as int, i as int);
                    assert(node_ok(self.nodes@, i as int));
                }
                match &self.nodes[i].entry {
                    EntryNode::Directory { children, .. } => {
                        let m = children.len();
                        let mut out: Vec<String> = Vec::new();
                        let mut k: usize = 0;
                        while k < m
                            invariant
                                m == children@.len(),
                                k <= m,
                                i < self.nodes@.len(),
                                forall|j: int|
                                    0 <= j < m ==> 0 <= (#[trigger] children@[j]) < i,
                                out@.len() == k,
                                forall|j: int|
                                    0 <= j < k ==> (#[trigger] out@[j])@
                                        == self.nodes@[children@[j] as int].path@,
                            decreases m - k,
                        {
                            out.push(self.nodes[children[k]].path.clone());
                            k += 1;
                        }
                        proof {
                            assert(str_views(out@) =~= children@.map_values(
                                |c: usize| self.nodes@[c as int].path@,
                            ));
                        }
                        Some(out)
                    },
                    EntryNode::File { .. } => None,
                }
            },
            None => None,
        }
    }

    /// The path of every regular file of the tree, each exactly once, in an
    /// unspecified order.
    pub fn files(&self) -> (r: Vec<String>)
        requires
            self.wf(),
        ensures
            str_views(r@).no_duplicates(),
            forall|p: Seq<char>|
                #[trigger] str_views(r@).contains(p) <==> (
                self.model().contains_key(p) && self.model()[p] is File),
    {
        let n = self.nodes.len();
        let mut out: Vec<String> = Vec::new();
        let mut k: usize = 0;
        while k < n
            invariant
                n == self.nodes@.len(),
                k <= n,
                paths_of(self.nodes@).no_duplicates(),
                str_views(out@).no_duplicates(),
                forall|p: Seq<char>|
                    #[trigger] str_views(out@).contains(p) <==> (exists|i: int|
                        0 <= i < k && (#[trigger] self.nodes@[i]).path@ == p
                            && self.nodes@[i].entry is File),
            decreases n - k,
        {
            let ghost prev = str_views(out@);
            match &self.nodes[k].entry {
                EntryNode::File { .. } => {
                    out.push(self.nodes[k].path.clone());
                    proof {
                        let cur = str_views(out@);
                        assert(cur =~= prev.push(self.nodes@[k as int].path@));
                        assert forall|p: Seq<char>| #[trigger] cur.contains(p) implies (
                        exists|i: int|
                            0 <= i < k + 1 && (#[trigger] self.nodes@[i]).path@ == p
                                && self.nodes@[i].entry is File) by {
                            let j = choose|j: int| 0 <= j < cur.len() && cur[j] == p;
                            if j < prev.len() {
                                assert(prev.contains(p));
                            } else {
                                assert(self.nodes@[k as int].path@ == p);
                            }
                        }
                        assert forall|p: Seq<char>| (exists|i: int|
                            0 <= i < k + 1 && (#[trigger] self.nodes@[i]).path@ == p
                                && self.nodes@[i].entry is File) implies #[trigger] cur.contains(
                            p,
                        ) by {
                            let i = choose|i: int|
                                0 <= i < k + 1 && (#[trigger] self.nodes@[i]).path@ == p
                                    && self.nodes@[i].entry is File;
                            if i < k {
                                assert(prev.contains(p));
                                let j = choose|j: int| 0 <= j < prev.len() && prev[j] == p;
                                assert(cur[j] == p);
                            } else {
                                assert(cur[cur.len() - 1] == p);
                            }
                        }
                        assert(!prev.contains(self.nodes@[k as int].path@)) by {
                            if prev.contains(self.nodes@[k as int].path@) {
                                let i = choose|i: int|
                                    0 <= i < k && (#[trigger] self.nodes@[i]).path@
                                        == self.nodes@[k as int].path@
                                        && self.nodes@[i].entry is File;
                                assert(paths_of(self.nodes@)[i] == paths_of(self.nodes@)[
                                k as int]);
                            }
                        }
                    }
                },
                EntryNode::Directory { .. } => {
                    proof {
                        assert forall|p: Seq<char>|
                            #[trigger] str_views(out@).contains(p) <==> (
                        exists|i: int|
                            0 <= i < k + 1 && (#[trigger] self.nodes@[i]).path@ == p
                                && self.nodes@[i].entry is File) by {
                            if exists|i: int|
                                0 <= i < k + 1 && (#[trigger] self.nodes@[i]).path@ == p
                                    && self.nodes@[i].entry is File {
                                let i = choose|i: int|
                                    0 <= i < k + 1 && (#[trigger] self.nodes@[i]).path@ == p
                                        && self.nodes@[i].entry is File;
                                assert(i < k);
                            }
                        }
                    }
                },
            }
            k += 1;
        }
        proof {
            lemma_map_upto_dom(self.nodes@, n as int);
            assert forall|p: Seq<char>|
                #[trigger] str_views(out@).contains(p) <==> (
            self.model().contains_key(p) && self.model()[p] is File) by {
                if str_views(out@).contains(p) {
                    let i = choose|i: int|
                        0 <= i < n && (#[trigger] self.nodes@[i]).path@ == p
                            && self.nodes@[i].entry is File;
                    lemma_map_upto_lookup(self.nodes@, n as int, i);
                }
                if self.model().contains_key(p) && self.model()[p] is File {
                    let i = choose|i: int| 0 <= i < n && (#[trigger] self.nodes@[i]).path@ == p;
                    lemma_map_upto_lookup(self.nodes@, n as int, i);
                    assert(self.nodes@[i].entry is File);
                }
            }
        }
        out
    }
}

// ---------------------------------------------------------------------------
// Rows of the tree display.
// ---------------------------------------------------------------------------

/// One line of the tree display: a path, its recorded size, and its depth
/// below the node the display started from.
pub struct DisplayRow {
    pub path: String,
    pub size: Size,
    pub depth: usize,
}

/// The index of the node that carries path `p`, or -1 if none does.
spec fn index_of_path(nodes: Seq<Node>, p: Seq<char>) -> int
    decreases nodes.len(),
{
    if nodes.len() == 0 {
        -1
    } else if nodes.first().path@ == p {
        0
    } else if index_of_path(nodes.drop_first(), p) < 0 {
        -1
    } else {
        1 + index_of_path(nodes.drop_first(), p)
    }
}

proof fn lemma_index_of_path(nodes: Seq<Node>, j: int)
    requires
        paths_of(nodes).no_duplicates(),
        0 <= j < nodes.len(),
    ensures
        index_of_path(nodes, nodes[j].path@) == j,
    decreases nodes.len(),
{
    let p = nodes[j].path@;
    if j == 0 {
    } else {
        assert(nodes.first().path@ != p) by {
            assert(paths_of(nodes)[0] == nodes[0].path@);
            assert(paths_of(nodes)[j] == nodes[j].path@);
        }
        assert forall|a: int, b: int|
            0 <= a < nodes.drop_first().len() && 0 <= b < nodes.drop_first().len() && a
                != b implies paths_of(nodes.drop_first())[a] != paths_of(
            nodes.drop_first(),
        )[b] by {
            assert(paths_of(nodes.drop_first())[a] == paths_of(nodes)[a + 1]);
            assert(paths_of(nodes.drop_first())[b] == paths_of(nodes)[b + 1]);
        }
        lemma_index_of_path(nodes.drop_first(), j - 1);
        assert(nodes.drop_first()[j - 1] == nodes[j]);
    }
}

/// The (path, size, depth) triples of a row list.
pub open spec fn row_views(rows: Seq<DisplayRow>) -> Seq<(Seq<char>, nat, int)> {
    rows.map_values(|r: DisplayRow| (r.path@, r.size.0 as nat, r.depth as int))
}

/// The exact rows the display produces for the subtree at node `i`: the
/// node's own row, then the rows of each child's subtree in the order the
/// sort gives the children.
spec fn spec_rows_node(t: FileTree, lex: bool, i: int, depth: int) -> Seq<(Seq<char>, nat, int)>
    decreases i, 1int, 0int,
{
    if !(0 <= i < t.nodes@.len()) {
        seq![]
    } else {
        let n = t.nodes@[i];
        let own = (n.path@, node_size(n), depth);
        match n.entry {
            EntryNode::File { .. } => seq![own],
            EntryNode::Directory { children, .. } => seq![own] + spec_rows_list(
                t,
                lex,
                sorted_views(
                    t,
                    lex,
                    children@.map_values(|c: usize| t.nodes@[c as int].path@),
                ),
                i,
                depth + 1,
            ),
        }
    }
}

/// The rows of the subtrees at the given child paths, in order; a path of
/// no node below the bound contributes nothing (in a well-formed tree the
/// bound is the parent's index, which every child index lies under).
spec fn spec_rows_list(
    t: FileTree,
    lex: bool,
    kids: Seq<Seq<char>>,
    bound: int,
    depth: int,
) -> Seq<(Seq<char>, nat, int)>
    decreases bound, 0int, kids.len(),
{
    if kids.len() == 0 || bound < 0 {
        seq![]
    } else {
        let idx = index_of_path(t.nodes@, kids.first());
        (if 0 <= idx < bound {
            spec_rows_node(t, lex, idx, depth)
        } else {
            seq![]
        }) + spec_rows_list(t, lex, kids.drop_first(), bound, depth)
    }
}

proof fn lemma_spec_rows_list_concat(
    t: FileTree,
    lex: bool,
    a: Seq<Seq<char>>,
    b: Seq<Seq<char>>,
    bound: int,
    depth: int,
)
    requires
        bound >= 0,
    ensures
        spec_rows_list(t, lex, a + b, bound, depth) == spec_rows_list(t, lex, a, bound, depth)
            + spec_rows_list(t, lex, b, bound, depth),
    decreases a.len(),
{
    if a.len() == 0 {
        assert(a + b =~= b);
        assert(spec_rows_list(t, lex, a, bound, depth) + spec_rows_list(t, lex, b, bound, depth)
            =~= spec_rows_list(t, lex, b, bound, depth));
    } else {
        lemma_spec_rows_list_concat(t, lex, a.drop_first(), b, bound, depth);
        assert((a + b).first() == a.first());
        assert((a + b).drop_first() =~= a.drop_first() + b);
        let idx = index_of_path(t.nodes@, a.first());
        let chunk = if 0 <= idx < bound {
            spec_rows_node(t, lex, idx, depth)
        } else {
            seq![]
        };
        assert(chunk + (spec_rows_list(t, lex, a.drop_first(), bound, depth) + spec_rows_list(
            t,
            lex,
            b,
            bound,
            depth,
        )) =~= (chunk + spec_rows_list(t, lex, a.drop_first(), bound, depth)) + spec_rows_list(
            t,
            lex,
            b,
            bound,
            depth,
        ));
    }
}

impl FileTree {
    /// The exact rows the display produces for the subtree at `path`: the
    /// node's own row at the given depth, then, for each child in sorted
    /// order, that child's subtree rows one level deeper.
    pub closed spec fn spec_display(
        self,
        path: Seq<char>,
        depth: int,
        lex: bool,
    ) -> Seq<(Seq<char>, nat, int)> {
        spec_rows_node(self, lex, index_of_path(self.nodes@, path), depth)
    }
}

/// Every child of the directory shown by row `k` appears as a row within
/// the range `[lo, hi)`.
pub open spec fn row_children_present(
    t: FileTree,
    rows: Seq<DisplayRow>,
    lo: int,
    hi: int,
    k: int,
) -> bool {
    forall|c: int|
        0 <= c < view_children(t.model()[rows[k].path@]).len() ==> exists|j: int|
            #![auto]
            lo <= j < hi && rows[j].path@ == (#[trigger] view_children(
                t.model()[rows[k].path@],
            )[c])
}

/// The rows of the range `[lo, hi)` are closed under children: whenever a
/// row shows a directory, each of its children is shown by some row of the
/// same range.
pub open spec fn rows_closed(t: FileTree, rows: Seq<DisplayRow>, lo: int, hi: int) -> bool {
    forall|k: int| lo <= k < hi ==> #[trigger] row_children_present(t, rows, lo, hi, k)
}

#[verifier::loop_isolation(false)]
fn display_from(
    file_tree: &FileTree,
    i: usize,
    depth: usize,
    lexicographic_sort: bool,
    out: &mut Vec<DisplayRow>,
)
    requires
        file_tree.wf(),
        i < file_tree.nodes@.len(),
        depth + i + 1 <= usize::MAX,
    ensures
        final(out)@.len() > old(out)@.len(),
        forall|k: int| 0 <= k < old(out)@.len() ==> final(out)@[k] == old(out)@[k],
        final(out)@[old(out)@.len() as int].path@ == file_tree.nodes@[i as int].path@,
        final(out)@[old(out)@.len() as int].depth == depth,
        forall|k: int|
            old(out)@.len() <= k < final(out)@.len() ==> {
                &&& file_tree.model().contains_key((#[trigger] final(out)@[k]).path@)
                &&& final(out)@[k].size.0 as nat == view_size(
                    file_tree.model()[final(out)@[k].path@],
                )
                &&& final(out)@[k].depth >= depth
            },
        rows_closed(*file_tree, final(out)@, old(out)@.len() as int, final(out)@.len() as int),
        row_views(final(out)@.skip(old(out)@.len() as int)) == spec_rows_node(
            *file_tree,
            lexicographic_sort,
            i as int,
            depth as int,
        ),
    decreases i,
{
    proof {
        lemma_map_upto_lookup(file_tree.nodes@, file_tree.nodes@.len() as int, i as int);
        assert(node_ok(file_tree.nodes@, i as int));
    }
    let size = match &file_tree.nodes[i].entry {
        EntryNode::File { size } => *size,
        EntryNode::Directory { size, .. } => *size,
    };
    out.push(DisplayRow { path: file_tree.nodes[i].path.clone(), size, depth });
    let ghost base = out@;
    match &file_tree.nodes[i].entry {
        EntryNode::File { .. } => {
            proof {
                assert forall|k: int|
                    old(out)@.len() <= k < out@.len() implies row_children_present(
                    *file_tree,
                    out@,
                    old(out)@.len() as int,
                    out@.len() as int,
                    k,
                ) by {
                    assert(out@[k].path@ == file_tree.nodes@[i as int].path@);
                    assert(view_children(file_tree.model()[out@[k].path@]) =~= Seq::<
                        Seq<char>,
                    >::empty());
                }
                assert(out@.skip(old(out)@.len() as int) =~= seq![
                    out@[old(out)@.len() as int],
                ]);
                assert(row_views(out@.skip(old(out)@.len() as int)) =~= seq![
                    (
                        file_tree.nodes@[i as int].path@,
                        node_size(file_tree.nodes@[i as int]),
                        depth as int,
                    ),
                ]);
            }
        },
        EntryNode::Directory { children, .. } => {
            let m = children.len();
            let mut kids: Vec<String> = Vec::new();
            let mut k: usize = 0;
            while k < m
                invariant
                    kids@.len() == k,
                    k <= m,
                    forall|j: int|
                        0 <= j < k ==> (#[trigger] kids@[j])@
                            == file_tree.nodes@[children@[j] as int].path@,
                decreases m - k,
            {
                kids.push(file_tree.nodes[children[k]].path.clone());
                k += 1;
            }
            let ghost orig_kids = kids@;
            proof {
                assert forall|j: int|
                    0 <= j < orig_kids.len() implies file_tree.model().contains_key(
                    (#[trigger] orig_kids[j])@,
                ) by {
                    lemma_map_upto_lookup(
                        file_tree.nodes@,
                        file_tree.nodes@.len() as int,
                        children@[j] as int,
                    );
                }
            }
            sort_children(&mut kids, file_tree, lexicographic_sort);
            let ghost kid_views = children@.map_values(
                |c: usize| file_tree.nodes@[c as int].path@,
            );
            proof {
                lemma_sorted_children_views(*file_tree, lexicographic_sort, orig_kids);
                assert(str_views(orig_kids) =~= kid_views);
                assert(str_views(kids@) == sorted_views(
                    *file_tree,
                    lexicographic_sort,
                    kid_views,
                ));
                assert(out@.skip(base.len() as int) =~= Seq::<DisplayRow>::empty());
                assert(row_views(Seq::<DisplayRow>::empty()) =~= Seq::<
                    (Seq<char>, nat, int),
                >::empty());
                assert(str_views(kids@).take(0) =~= Seq::<Seq<char>>::empty());
                assert(row_views(out@.skip(base.len() as int)) =~= spec_rows_list(
                    *file_tree,
                    lexicographic_sort,
                    str_views(kids@).take(0),
                    i as int,
                    depth as int + 1,
                ));
            }
            let mut c: usize = 0;
            while c < kids.len()
                invariant
                    out@.len() >= base.len(),
                    c <= kids@.len(),
                    forall|k2: int| 0 <= k2 < base.len() ==> out@[k2] == base[k2],
                    forall|k2: int|
                        base.len() <= k2 < out@.len() ==> {
                            &&& file_tree.model().contains_key((#[trigger] out@[k2]).path@)
                            &&& out@[k2].size.0 as nat == view_size(
                                file_tree.model()[out@[k2].path@],
                            )
                            &&& out@[k2].depth >= depth + 1
                        },
                    rows_closed(*file_tree, out@, base.len() as int, out@.len() as int),
                    row_views(out@.skip(base.len() as int)) == spec_rows_list(
                        *file_tree,
                        lexicographic_sort,
                        str_views(kids@).take(c as int),
                        i as int,
                        depth as int + 1,
                    ),
                    forall|cc: int|
                        0 <= cc < c ==> exists|j2: int|
                            #![auto]
                            base.len() <= j2 < out@.len() && out@[j2].path@ == (
                            #[trigger] kids@[cc])@,
                decreases kids@.len() - c,
            {
                proof {
                    broadcast use vstd::seq_lib::group_to_multiset_ensures;

                    assert(kids@.contains(kids@[c as int]));
                    assert(orig_kids.to_multiset().count(kids@[c as int]) > 0);
                    assert(orig_kids.contains(kids@[c as int]));
                }
                let ghost j = choose|j: int|
                    0 <= j < orig_kids.len() && orig_kids[j] == kids@[c as int];
                match file_tree.find(&kids[c]) {
                    Option::Some(ci) => {
                        proof {
                            assert(file_tree.nodes@[ci as int].path@ == file_tree.nodes@[
                            children@[j] as int].path@);
                            assert(paths_of(file_tree.nodes@)[ci as int] == paths_of(
                                file_tree.nodes@,
                            )[children@[j] as int]);
                            assert(ci == children@[j]);
                            assert(ci < i);
                        }
                        let ghost out_pre = out@;
                        display_from(file_tree, ci, depth + 1, lexicographic_sort, out);
                        proof {
                            assert forall|k2: int|
                                base.len() <= k2 < out@.len() implies row_children_present(
                                *file_tree,
                                out@,
                                base.len() as int,
                                out@.len() as int,
                                k2,
                            ) by {
                                if k2 < out_pre.len() {
                                    assert(row_children_present(
                                        *file_tree,
                                        out_pre,
                                        base.len() as int,
                                        out_pre.len() as int,
                                        k2,
                                    ));
                                    assert(out@[k2] == out_pre[k2]);
                                    let key = out_pre[k2].path@;
                                    assert forall|cx: int|
                                        0 <= cx < view_children(
                                            file_tree.model()[out@[k2].path@],
                                        ).len() implies exists|j2: int|
                                        #![auto]
                                        base.len() <= j2 < out@.len() && out@[j2].path@ == (
                                        #[trigger] view_children(
                                            file_tree.model()[out@[k2].path@],
                                        )[cx]) by {
                                        let j2 = choose|j2: int|
                                            #![auto]
                                            base.len() <= j2 < out_pre.len()
                                                && out_pre[j2].path@ == view_children(
                                                file_tree.model()[key],
                                            )[cx];
                                        assert(out@[j2] == out_pre[j2]);
                                    }
                                } else {
                                    assert(row_children_present(
                                        *file_tree,
                                        out@,
                                        out_pre.len() as int,
                                        out@.len() as int,
                                        k2,
                                    ));
                                    let key = out@[k2].path@;
                                    assert forall|cx: int|
                                        0 <= cx < view_children(
                                            file_tree.model()[out@[k2].path@],
                                        ).len() implies exists|j2: int|
                                        #![auto]
                                        base.len() <= j2 < out@.len() && out@[j2].path@ == (
                                        #[trigger] view_children(
                                            file_tree.model()[out@[k2].path@],
                                        )[cx]) by {
                                        let j2 = choose|j2: int|
                                            #![auto]
                                            out_pre.len() <= j2 < out@.len() && out@[j2].path@
                                                == view_children(file_tree.model()[key])[cx];
                                        assert(base.len() <= j2 < out@.len());
                                    }
                                }
                            }
                            assert forall|cc: int|
                                0 <= cc < c + 1 implies exists|j2: int|
                                #![auto]
                                base.len() <= j2 < out@.len() && out@[j2].path@ == (
                            #[trigger] kids@[cc])@ by {
                                if cc < c {
                                    let j2 = choose|j2: int|
                                        #![auto]
                                        base.len() <= j2 < out_pre.len() && out_pre[j2].path@
                                            == kids@[cc]@;
                                    assert(out@[j2] == out_pre[j2]);
                                } else {
                                    assert(out@[out_pre.len() as int].path@ == kids@[c as int]@);
                                }
                            }
                            // The appended rows are exactly one more list
                            // chunk of the display spec.
                            let t = *file_tree;
                            let vc = kids@[c as int]@;
                            lemma_index_of_path(file_tree.nodes@, ci as int);
                            assert(index_of_path(file_tree.nodes@, vc) == ci);
                            assert(str_views(kids@).take(c + 1) =~= str_views(kids@).take(
                                c as int,
                            ) + seq![vc]);
                            lemma_spec_rows_list_concat(
                                t,
                                lexicographic_sort,
                                str_views(kids@).take(c as int),
                                seq![vc],
                                i as int,
                                depth as int + 1,
                            );
                            assert(seq![vc].first() == vc);
                            assert(seq![vc].drop_first() =~= Seq::<Seq<char>>::empty());
                            assert(spec_rows_list(
                                t,
                                lexicographic_sort,
                                seq![vc],
                                i as int,
                                depth as int + 1,
                            ) =~= spec_rows_node(t, lexicographic_sort, ci as int, depth as int
                                + 1));
                            assert(out@.skip(base.len() as int) =~= out_pre.skip(
                                base.len() as int,
                            ) + out@.skip(out_pre.len() as int));
                            assert(row_views(
                                out_pre.skip(base.len() as int) + out@.skip(out_pre.len() as int),
                            ) =~= row_views(out_pre.skip(base.len() as int)) + row_views(
                                out@.skip(out_pre.len() as int),
                            ));
                            assert(row_views(out@.skip(base.len() as int)) =~= spec_rows_list(
                                t,
                                lexicographic_sort,
                                str_views(kids@).take(c + 1),
                                i as int,
                                depth as int + 1,
                            ));
                        }
                    },
                    Option::None => {
                        proof {
                            assert(file_tree.nodes@[children@[j] as int].path@ == kids@[
                            c as int]@);
                            assert(false);
                        }
                    },
                }
                c += 1;
            }
            proof {
                assert(out@.len() > old(out)@.len());
                assert forall|k: int| 0 <= k < old(out)@.len() implies out@[k] == old(out)@[k] by {
                    assert(base[k] == old(out)@.push(base[base.len() - 1])[k]);
                    assert(out@[k] == base[k]);
                }
                assert(out@[old(out)@.len() as int] == base[old(out)@.len() as int]);
                assert(out@[old(out)@.len() as int].path@ == file_tree.nodes@[i as int].path@);
                // The rows are exactly the display spec's: the own row, then
                // the chunks of the sorted children.
                assert(str_views(kids@).take(kids@.len() as int) =~= str_views(kids@));
                assert(out@.skip(old(out)@.len() as int) =~= seq![
                    out@[old(out)@.len() as int],
                ] + out@.skip(base.len() as int));
                assert(row_views(
                    seq![out@[old(out)@.len() as int]] + out@.skip(base.len() as int),
                ) =~= row_views(seq![out@[old(out)@.len() as int]]) + row_views(
                    out@.skip(base.len() as int),
                ));
                assert(row_views(seq![out@[old(out)@.len() as int]]) =~= seq![
                    (
                        file_tree.nodes@[i as int].path@,
                        node_size(file_tree.nodes@[i as int]),
                        depth as int,
                    ),
                ]);
                assert(row_views(out@.skip(old(out)@.len() as int)) =~= spec_rows_node(
                    *file_tree,
                    lexicographic_sort,
                    i as int,
                    depth as int,
                ));
                // The range is closed under children: the nested rows by the
                // loop's bookkeeping, the directory's own row because every
                // child went through the sorted list.
                broadcast use vstd::seq_lib::group_to_multiset_ensures;

                let lo = old(out)@.len() as int;
                let hi = out@.len() as int;
                assert forall|k2: int|
                    lo <= k2 < hi implies row_children_present(*file_tree, out@, lo, hi, k2) by {
                    if k2 == lo {
                        let key = out@[k2].path@;
                        assert(file_tree.model()[key] == node_view(
                            file_tree.nodes@,
                            file_tree.nodes@[i as int],
                        ));
                        assert forall|cx: int|
                            0 <= cx < view_children(file_tree.model()[key]).len() implies exists|
                            j2: int|
                            #![auto]
                            lo <= j2 < hi && out@[j2].path@ == (#[trigger] view_children(
                                file_tree.model()[key],
                            )[cx]) by {
                            assert(view_children(file_tree.model()[key])[cx]
                                == file_tree.nodes@[children@[cx] as int].path@);
                            assert(orig_kids[cx]@ == view_children(file_tree.model()[key])[cx]);
                            assert(orig_kids.contains(orig_kids[cx]));
                            assert(kids@.to_multiset().count(orig_kids[cx]) > 0);
                            assert(kids@.contains(orig_kids[cx]));
                            let cc = choose|cc: int|
                                0 <= cc < kids@.len() && kids@[cc] == orig_kids[cx];
                            let j2 = choose|j2: int|
                                #![auto]
                                base.len() <= j2 < out@.len() && out@[j2].path@ == kids@[cc]@;
                            assert(lo <= j2 < hi && out@[j2].path@ == view_children(
                                file_tree.model()[key],
                            )[cx]);
                        }
                    } else {
                        assert(row_children_present(
                            *file_tree,
                            out@,
                            base.len() as int,
                            out@.len() as int,
                            k2,
                        ));
                        let key = out@[k2].path@;
                        assert forall|cx: int|
                            0 <= cx < view_children(file_tree.model()[key]).len() implies exists|
                            j2: int|
                            #![auto]
                            lo <= j2 < hi && out@[j2].path@ == (#[trigger] view_children(
                                file_tree.model()[key],
                            )[cx]) by {
                            let j2 = choose|j2: int|
                                #![auto]
                                base.len() <= j2 < out@.len() && out@[j2].path@ == view_children(
                                    file_tree.model()[key],
                                )[cx];
                            assert(lo <= j2 < hi);
                        }
                    }
                }
            }
        },
    }
}

/// The rows of the tree display, starting at `node_path`: the node's own
/// row first, at the given depth, then rows for the subtrees of its
/// children (depth one more for each level), children ordered
/// lexicographically or by descending size as the flag asks. Every row
/// shows a path of the tree with its recorded size, and whenever a row
/// shows a directory, each of its children is shown by some later-or-equal
/// row of the same call.
pub fn display_node_recursive(
    file_tree: &FileTree,
    node_path: &String,
    depth: usize,
    lexicographic_sort: bool,
    out: &mut Vec<DisplayRow>,
)
    requires
        file_tree.wf(),
        file_tree.model().contains_key(node_path@),
        depth + file_tree.node_count() <= usize::MAX,
    ensures
        final(out)@.len() > old(out)@.len(),
        forall|k: int| 0 <= k < old(out)@.len() ==> final(out)@[k] == old(out)@[k],
        final(out)@[old(out)@.len() as int].path@ == node_path@,
        final(out)@[old(out)@.len() as int].depth == depth,
        forall|k: int|
            old(out)@.len() <= k < final(out)@.len() ==> {
                &&& file_tree.model().contains_key((#[trigger] final(out)@[k]).path@)
                &&& final(out)@[k].size.0 as nat == view_size(
                    file_tree.model()[final(out)@[k].path@],
                )
                &&& final(out)@[k].depth >= depth
            },
        rows_closed(*file_tree, final(out)@, old(out)@.len() as int, final(out)@.len() as int),
        row_views(final(out)@.skip(old(out)@.len() as int)) == file_tree.spec_display(
            node_path@,
            depth as int,
            lexicographic_sort,
        ),
{
    proof {
        lemma_map_upto_dom(file_tree.nodes@, file_tree.nodes@.len() as int);
    }
    match file_tree.find(node_path) {
        Option::Some(i) => {
            proof {
                lemma_index_of_path(file_tree.nodes@, i as int);
                assert(index_of_path(file_tree.nodes@, node_path@) == i as int);
            }
            display_from(file_tree, i, depth, lexicographic_sort, out);
        },
        Option::None => {
            proof {
                let w = choose|w: int|
                    0 <= w < file_tree.nodes@.len() && (#[trigger] file_tree.nodes@[w]).path@
                        == node_path@;
                assert(false);
            }
        },
    }
}

} // verus!
