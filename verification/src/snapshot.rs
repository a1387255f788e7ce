use vstd::prelude::*;
use vstd::seq_lib::lemma_multiset_commutative;

verus! {

/// One entry of a directory listing, as handed to the library by whatever
/// walked the disk. A regular file carries its byte length; a directory
/// carries its own listing, in discovery order. Entries whose metadata or
/// listing could not be read are absent: the walker skips them, and the
/// tree built from the snapshot simply does not contain them.
pub enum FsEntry {
    File { path: String, size: u64 },
    Dir { path: String, entries: Vec<FsEntry> },
}

/// What the walker found at the root path itself.
pub enum FsSnapshot {
    /// Nothing exists at the root path.
    Missing,
    /// The root path names a regular file, not a directory.
    File,
    /// The root path names a directory; `entries` is its listing.
    Dir { entries: Vec<FsEntry> },
}

/// The path recorded on an entry.
pub open spec fn entry_path(e: FsEntry) -> Seq<char> {
    match e {
        FsEntry::File { path, .. } => path@,
        FsEntry::Dir { path, .. } => path@,
    }
}

/// Total bytes of all regular files in the subtree rooted at `e`.
pub open spec fn entry_size(e: FsEntry) -> nat
    decreases e,
{
    match e {
        FsEntry::File { size, .. } => size as nat,
        FsEntry::Dir { entries, .. } => list_size(entries@),
    }
}

/// Total bytes of all regular files under the entries of one listing.
pub open spec fn list_size(s: Seq<FsEntry>) -> nat
    decreases s,
{
    if s.len() == 0 {
        0
    } else {
        list_size(s.drop_last()) + entry_size(s.last())
    }
}

/// Every path in the subtree rooted at `e`, the entry's own path first,
/// then the paths of its descendants.
pub open spec fn entry_paths(e: FsEntry) -> Seq<Seq<char>>
    decreases e,
{
    match e {
        FsEntry::File { path, .. } => seq![path@],
        FsEntry::Dir { path, entries } => seq![path@] + list_paths(entries@),
    }
}

/// Every path in the subtrees of the entries of one listing.
pub open spec fn list_paths(s: Seq<FsEntry>) -> Seq<Seq<char>>
    decreases s,
{
    if s.len() == 0 {
        seq![]
    } else {
        list_paths(s.drop_last()) + entry_paths(s.last())
    }
}

/// Paths of every regular file in the subtree rooted at `e`.
pub open spec fn entry_file_paths(e: FsEntry) -> Seq<Seq<char>>
    decreases e,
{
    match e {
        FsEntry::File { path, .. } => seq![path@],
        FsEntry::Dir { entries, .. } => list_file_paths(entries@),
    }
}

/// Paths of every regular file under the entries of one listing.
pub open spec fn list_file_paths(s: Seq<FsEntry>) -> Seq<Seq<char>>
    decreases s,
{
    if s.len() == 0 {
        seq![]
    } else {
        list_file_paths(s.drop_last()) + entry_file_paths(s.last())
    }
}

/// Whether the subtree rooted at `e` holds a regular file at `p` whose
/// recorded length is `sz`.
pub open spec fn entry_has_file(e: FsEntry, p: Seq<char>, sz: u64) -> bool
    decreases e,
{
    match e {
        FsEntry::File { path, size } => path@ == p && size == sz,
        FsEntry::Dir { entries, .. } => list_has_file(entries@, p, sz),
    }
}

/// `entry_has_file` over the entries of one listing.
pub open spec fn list_has_file(s: Seq<FsEntry>, p: Seq<char>, sz: u64) -> bool
    decreases s,
{
    s.len() > 0 && (list_has_file(s.drop_last(), p, sz) || entry_has_file(s.last(), p, sz))
}

/// `p` lies strictly below `parent`: it is longer and begins with it.
pub open spec fn strictly_under(parent: Seq<char>, p: Seq<char>) -> bool {
    p.len() > parent.len() && p.subrange(0, parent.len() as int) == parent
}

/// Every entry of the subtree rooted at `e` records a path strictly below
/// the path of the directory it sits in.
pub open spec fn entry_under(parent: Seq<char>, e: FsEntry) -> bool
    decreases e,
{
    strictly_under(parent, entry_path(e)) && match e {
        FsEntry::File { .. } => true,
        FsEntry::Dir { path, entries } => list_under(path@, entries@),
    }
}

/// `entry_under` over the entries of one listing.
pub open spec fn list_under(parent: Seq<char>, s: Seq<FsEntry>) -> bool
    decreases s,
{
    s.len() == 0 || (list_under(parent, s.drop_last()) && entry_under(parent, s.last()))
}

/// A snapshot as a real directory walk produces it: each entry's path lies
/// strictly below the path of its directory, one path names at most one
/// entry, and the total byte count fits the 64-bit size range.
pub open spec fn snap_wf(root: Seq<char>, snap: FsSnapshot) -> bool {
    match snap {
        FsSnapshot::Dir { entries } => {
            list_under(root, entries@)
                && (seq![root] + list_paths(entries@)).no_duplicates()
                && list_size(entries@) <= u64::MAX
        },
        _ => true,
    }
}

/// The abstract content of one tree node: a file's byte length, or a
/// directory's child paths (in discovery order) and aggregated size.
#[verifier::ext_equal]
pub enum NodeView {
    File { size: nat },
    Dir { children: Seq<Seq<char>>, size: nat },
}

/// The child paths a node answers for: empty for a file.
pub open spec fn view_children(v: NodeView) -> Seq<Seq<char>> {
    match v {
        NodeView::File { .. } => seq![],
        NodeView::Dir { children, .. } => children,
    }
}

/// The byte count a node answers for.
pub open spec fn view_size(v: NodeView) -> nat {
    match v {
        NodeView::File { size } => size,
        NodeView::Dir { size, .. } => size,
    }
}

/// The paths of the entries of one listing, in discovery order.
pub open spec fn list_child_paths(s: Seq<FsEntry>) -> Seq<Seq<char>> {
    s.map_values(|e: FsEntry| entry_path(e))
}

/// The character sequences of a sequence of strings.
pub open spec fn str_views(v: Seq<String>) -> Seq<Seq<char>> {
    v.map_values(|s: String| s@)
}

/// The path-keyed map a subtree denotes: one node per entry.
pub open spec fn entry_model(e: FsEntry) -> Map<Seq<char>, NodeView>
    decreases e,
{
    match e {
        FsEntry::File { path, size } => map![path@ => NodeView::File { size: size as nat }],
        FsEntry::Dir { path, entries } => list_model(entries@).insert(
            path@,
            NodeView::Dir { children: list_child_paths(entries@), size: list_size(entries@) },
        ),
    }
}

/// The path-keyed map the entries of one listing denote together.
pub open spec fn list_model(s: Seq<FsEntry>) -> Map<Seq<char>, NodeView>
    decreases s,
{
    if s.len() == 0 {
        Map::empty()
    } else {
        list_model(s.drop_last()).union_prefer_right(entry_model(s.last()))
    }
}

/// The path-keyed map a whole snapshot denotes, with the root directory
/// itself keyed by `root`. Empty unless the snapshot is a directory.
pub open spec fn snap_model(root: Seq<char>, snap: FsSnapshot) -> Map<Seq<char>, NodeView> {
    match snap {
        FsSnapshot::Dir { entries } => list_model(entries@).insert(
            root,
            NodeView::Dir { children: list_child_paths(entries@), size: list_size(entries@) },
        ),
        _ => Map::empty(),
    }
}

// ---------------------------------------------------------------------------
// Facts about the maps a snapshot denotes.
// ---------------------------------------------------------------------------

pub(crate) proof fn lemma_list_paths_split(a: Seq<FsEntry>, b: Seq<FsEntry>)
    ensures
        list_paths(a + b) == list_paths(a) + list_paths(b),
        list_size(a + b) == list_size(a) + list_size(b),
        list_file_paths(a + b) == list_file_paths(a) + list_file_paths(b),
    decreases b.len(),
{
    if b.len() == 0 {
        assert(a + b =~= a);
        assert(list_paths(a) + list_paths(b) =~= list_paths(a));
        assert(list_file_paths(a) + list_file_paths(b) =~= list_file_paths(a));
    } else {
        lemma_list_paths_split(a, b.drop_last());
        assert((a + b).drop_last() =~= a + b.drop_last());
        assert((a + b).last() == b.last());
        assert(list_paths(a) + list_paths(b.drop_last()) + entry_paths(b.last()) =~= list_paths(a)
            + (list_paths(b.drop_last()) + entry_paths(b.last())));
        assert(list_file_paths(a) + list_file_paths(b.drop_last()) + entry_file_paths(b.last())
            =~= list_file_paths(a) + (list_file_paths(b.drop_last()) + entry_file_paths(
            b.last(),
        )));
    }
}

proof fn lemma_file_paths_among_entry(e: FsEntry)
    ensures
        forall|p: Seq<char>|
            #[trigger] entry_file_paths(e).contains(p) ==> entry_paths(e).contains(p),
    decreases e,
{
    match e {
        FsEntry::File { .. } => {},
        FsEntry::Dir { path, entries } => {
            lemma_file_paths_among_list(entries@);
            assert forall|p: Seq<char>| #[trigger]
                entry_file_paths(e).contains(p) implies entry_paths(e).contains(p) by {
                assert(list_file_paths(entries@).contains(p));
                let k = choose|k: int|
                    0 <= k < list_paths(entries@).len() && list_paths(entries@)[k] == p;
                assert(entry_paths(e)[k + 1] == p);
            }
        },
    }
}

pub(crate) proof fn lemma_file_paths_among_list(s: Seq<FsEntry>)
    ensures
        forall|p: Seq<char>|
            #[trigger] list_file_paths(s).contains(p) ==> list_paths(s).contains(p),
    decreases s,
{
    if s.len() > 0 {
        lemma_file_paths_among_list(s.drop_last());
        lemma_file_paths_among_entry(s.last());
        assert forall|p: Seq<char>| #[trigger]
            list_file_paths(s).contains(p) implies list_paths(s).contains(p) by {
            let k = choose|k: int|
                0 <= k < list_file_paths(s).len() && list_file_paths(s)[k] == p;
            let fl = list_file_paths(s.drop_last());
            if k < fl.len() {
                assert(fl[k] == p);
                assert(fl.contains(p));
                let k2 = choose|k2: int|
                    0 <= k2 < list_paths(s.drop_last()).len() && list_paths(s.drop_last())[k2]
                        == p;
                assert(list_paths(s)[k2] == p);
            } else {
                assert(entry_file_paths(s.last())[k - fl.len()] == p);
                assert(entry_file_paths(s.last()).contains(p));
                let k2 = choose|k2: int|
                    0 <= k2 < entry_paths(s.last()).len() && entry_paths(s.last())[k2] == p;
                assert(list_paths(s)[list_paths(s.drop_last()).len() + k2] == p);
            }
        }
    }
}

/// The map a well-formed subtree denotes, characterized: its keys are the
/// subtree's paths, a key holds a file node exactly when it is one of the
/// subtree's file paths, and a file node records the snapshot's length.
pub(crate) proof fn lemma_entry_model_files(e: FsEntry)
    requires
        entry_paths(e).no_duplicates(),
    ensures
        forall|p: Seq<char>|
            #[trigger] entry_model(e).contains_key(p) <==> entry_paths(e).contains(p),
        forall|p: Seq<char>|
            #[trigger] entry_model(e).contains_key(p) ==> ((entry_model(e)[p] is File)
                <==> entry_file_paths(e).contains(p)),
        forall|p: Seq<char>, sz: u64|
            #[trigger] entry_has_file(e, p, sz) ==> entry_model(e).contains_key(p)
                && entry_model(e)[p] == (NodeView::File { size: sz as nat }),
    decreases e,
{
    match e {
        FsEntry::File { path, size } => {
            assert forall|p: Seq<char>|
                #[trigger] entry_model(e).contains_key(p) <==> entry_paths(e).contains(p) by {
                assert(entry_paths(e)[0] == path@);
                if entry_paths(e).contains(p) {
                    let k = choose|k: int|
                        0 <= k < entry_paths(e).len() && entry_paths(e)[k] == p;
                }
            }
            assert forall|p: Seq<char>|
                #[trigger] entry_model(e).contains_key(p) implies ((entry_model(e)[p] is File)
                <==> entry_file_paths(e).contains(p)) by {
                assert(p == path@);
                assert(entry_file_paths(e)[0] == path@);
            }
            assert forall|p: Seq<char>, sz: u64|
                #[trigger] entry_has_file(e, p, sz) implies entry_model(e).contains_key(p)
                && entry_model(e)[p] == (NodeView::File { size: sz as nat }) by {
                assert(p == path@ && sz == size);
            }
        },
        FsEntry::Dir { path, entries } => {
            assert(entry_paths(e)[0] == path@);
            assert forall|a: int, b: int|
                0 <= a < list_paths(entries@).len() && 0 <= b < list_paths(entries@).len() && a
                    != b implies list_paths(entries@)[a] != list_paths(entries@)[b] by {
                assert(entry_paths(e)[a + 1] == list_paths(entries@)[a]);
                assert(entry_paths(e)[b + 1] == list_paths(entries@)[b]);
            }
            assert(!list_paths(entries@).contains(path@)) by {
                if list_paths(entries@).contains(path@) {
                    let k = choose|k: int|
                        0 <= k < list_paths(entries@).len() && list_paths(entries@)[k] == path@;
                    assert(entry_paths(e)[k + 1] == path@);
                }
            }
            lemma_list_model_files(entries@);
            lemma_file_paths_among_list(entries@);
            assert forall|p: Seq<char>|
                #[trigger] entry_model(e).contains_key(p) <==> entry_paths(e).contains(p) by {
                if entry_model(e).contains_key(p) {
                    if p == path@ {
                        assert(entry_paths(e)[0] == p);
                    } else {
                        let k = choose|k: int|
                            0 <= k < list_paths(entries@).len() && list_paths(entries@)[k] == p;
                        assert(entry_paths(e)[k + 1] == p);
                    }
                }
                if entry_paths(e).contains(p) {
                    let k = choose|k: int|
                        0 <= k < entry_paths(e).len() && entry_paths(e)[k] == p;
                    if k > 0 {
                        assert(list_paths(entries@)[k - 1] == p);
                        assert(list_paths(entries@).contains(p));
                    }
                }
            }
            assert forall|p: Seq<char>|
                #[trigger] entry_model(e).contains_key(p) implies ((entry_model(e)[p] is File)
                <==> entry_file_paths(e).contains(p)) by {
                if p == path@ {
                    assert(!(entry_model(e)[p] is File));
                    if entry_file_paths(e).contains(p) {
                        assert(list_file_paths(entries@).contains(p));
                        assert(list_paths(entries@).contains(p));
                        assert(false);
                    }
                } else {
                    assert(entry_model(e)[p] == list_model(entries@)[p]);
                    assert(list_model(entries@).contains_key(p));
                }
            }
            assert forall|p: Seq<char>, sz: u64|
                #[trigger] entry_has_file(e, p, sz) implies entry_model(e).contains_key(p)
                && entry_model(e)[p] == (NodeView::File { size: sz as nat }) by {
                assert(list_has_file(entries@, p, sz));
                assert(list_model(entries@).contains_key(p));
                assert(list_paths(entries@).contains(p));
                assert(p != path@);
            }
        },
    }
}

/// `lemma_entry_model_files` over the entries of one listing.
pub(crate) proof fn lemma_list_model_files(s: Seq<FsEntry>)
    requires
        list_paths(s).no_duplicates(),
    ensures
        forall|p: Seq<char>|
            #[trigger] list_model(s).contains_key(p) <==> list_paths(s).contains(p),
        forall|p: Seq<char>|
            #[trigger] list_model(s).contains_key(p) ==> ((list_model(s)[p] is File)
                <==> list_file_paths(s).contains(p)),
        forall|p: Seq<char>, sz: u64|
            #[trigger] list_has_file(s, p, sz) ==> list_model(s).contains_key(p) && list_model(
                s,
            )[p] == (NodeView::File { size: sz as nat }),
    decreases s,
{
    if s.len() > 0 {
        let front = s.drop_last();
        let e = s.last();
        assert(list_paths(s) == list_paths(front) + entry_paths(e));
        assert forall|a: int, b: int|
            0 <= a < list_paths(front).len() && 0 <= b < list_paths(front).len() && a
                != b implies list_paths(front)[a] != list_paths(front)[b] by {
            assert(list_paths(s)[a] == list_paths(front)[a]);
            assert(list_paths(s)[b] == list_paths(front)[b]);
        }
        assert forall|a: int, b: int|
            0 <= a < entry_paths(e).len() && 0 <= b < entry_paths(e).len() && a
                != b implies entry_paths(e)[a] != entry_paths(e)[b] by {
            assert(list_paths(s)[list_paths(front).len() + a] == entry_paths(e)[a]);
            assert(list_paths(s)[list_paths(front).len() + b] == entry_paths(e)[b]);
        }
        assert forall|p: Seq<char>|
            !(list_paths(front).contains(p) && entry_paths(e).contains(p)) by {
            if list_paths(front).contains(p) && entry_paths(e).contains(p) {
                let a = choose|a: int|
                    0 <= a < list_paths(front).len() && list_paths(front)[a] == p;
                let b = choose|b: int|
                    0 <= b < entry_paths(e).len() && entry_paths(e)[b] == p;
                assert(list_paths(s)[a] == p);
                assert(list_paths(s)[list_paths(front).len() + b] == p);
            }
        }
        lemma_list_model_files(front);
        lemma_entry_model_files(e);
        lemma_file_paths_among_list(front);
        lemma_file_paths_among_entry(e);
        assert forall|p: Seq<char>|
            #[trigger] list_model(s).contains_key(p) <==> list_paths(s).contains(p) by {
            if list_model(s).contains_key(p) {
                if entry_model(e).contains_key(p) {
                    let b = choose|b: int|
                        0 <= b < entry_paths(e).len() && entry_paths(e)[b] == p;
                    assert(list_paths(s)[list_paths(front).len() + b] == p);
                } else {
                    let a = choose|a: int|
                        0 <= a < list_paths(front).len() && list_paths(front)[a] == p;
                    assert(list_paths(s)[a] == p);
                }
            }
            if list_paths(s).contains(p) {
                let k = choose|k: int| 0 <= k < list_paths(s).len() && list_paths(s)[k] == p;
                if k < list_paths(front).len() {
                    assert(list_paths(front)[k] == p);
                    assert(list_paths(front).contains(p));
                } else {
                    assert(entry_paths(e)[k - list_paths(front).len()] == p);
                    assert(entry_paths(e).contains(p));
                }
            }
        }
        assert(list_file_paths(s) == list_file_paths(front) + entry_file_paths(e));
        assert forall|p: Seq<char>|
            #[trigger] list_model(s).contains_key(p) implies ((list_model(s)[p] is File)
            <==> list_file_paths(s).contains(p)) by {
            if entry_model(e).contains_key(p) {
                assert(list_model(s)[p] == entry_model(e)[p]);
                if entry_file_paths(e).contains(p) {
                    let b = choose|b: int|
                        0 <= b < entry_file_paths(e).len() && entry_file_paths(e)[b] == p;
                    assert(list_file_paths(s)[list_file_paths(front).len() + b] == p);
                }
                if list_file_paths(s).contains(p) {
                    let k = choose|k: int|
                        0 <= k < list_file_paths(s).len() && list_file_paths(s)[k] == p;
                    if k < list_file_paths(front).len() {
                        assert(list_file_paths(front)[k] == p);
                        assert(list_file_paths(front).contains(p));
                        assert(list_paths(front).contains(p));
                        assert(false);
                    } else {
                        assert(entry_file_paths(e)[k - list_file_paths(front).len()] == p);
                        assert(entry_file_paths(e).contains(p));
                    }
                }
            } else {
                assert(list_model(s)[p] == list_model(front)[p]);
                assert(list_model(front).contains_key(p));
                if list_file_paths(front).contains(p) {
                    let b = choose|b: int|
                        0 <= b < list_file_paths(front).len() && list_file_paths(front)[b] == p;
                    assert(list_file_paths(s)[b] == p);
                }
                if list_file_paths(s).contains(p) {
                    let k = choose|k: int|
                        0 <= k < list_file_paths(s).len() && list_file_paths(s)[k] == p;
                    if k < list_file_paths(front).len() {
                        assert(list_file_paths(front)[k] == p);
                        assert(list_file_paths(front).contains(p));
                    } else {
                        assert(entry_file_paths(e)[k - list_file_paths(front).len()] == p);
                        assert(entry_file_paths(e).contains(p));
                        assert(entry_paths(e).contains(p));
                        assert(false);
                    }
                }
            }
        }
        assert forall|p: Seq<char>, sz: u64|
            #[trigger] list_has_file(s, p, sz) implies list_model(s).contains_key(p)
            && list_model(s)[p] == NodeView::File { size: sz as nat } by {
            if entry_has_file(e, p, sz) {
                assert(entry_model(e).contains_key(p));
            } else {
                assert(list_has_file(front, p, sz));
                assert(list_model(front).contains_key(p));
                assert(list_paths(front).contains(p));
                assert(!entry_paths(e).contains(p));
                assert(!entry_model(e).contains_key(p));
            }
        }
    }
}

pub(crate) proof fn lemma_singleton_path_multiset(p: Seq<char>)
    ensures
        seq![p].to_multiset() == vstd::multiset::Multiset::empty().insert(p),
{
    broadcast use vstd::seq_lib::group_to_multiset_ensures;

    assert(seq![p] =~= Seq::<Seq<char>>::empty().push(p));
    assert(Seq::<Seq<char>>::empty().to_multiset() =~= vstd::multiset::Multiset::empty()) by {
        assert forall|e: Seq<char>|
            #[trigger] Seq::<Seq<char>>::empty().to_multiset().count(e) == 0 by {
            assert(!Seq::<Seq<char>>::empty().contains(e));
        }
    }
    assert(seq![p].to_multiset() =~= vstd::multiset::Multiset::empty().insert(p));
}

/// Graceful degradation: when the walker must leave one unreadable file
/// out of a directory's listing, every other entry's paths are still
/// exactly those of the full listing, and the listing's total size is
/// smaller by exactly that file's length.
pub proof fn lemma_graceful_degradation(s: Seq<FsEntry>, i: int)
    requires
        0 <= i < s.len(),
        s[i] is File,
    ensures
        list_size(s.remove(i)) + entry_size(s[i]) == list_size(s),
        list_paths(s.remove(i)) == list_paths(s.take(i)) + list_paths(s.skip(i + 1)),
        list_paths(s) == list_paths(s.take(i)) + (entry_paths(s[i]) + list_paths(s.skip(i + 1))),
{
    assert(s.remove(i) =~= s.take(i) + s.skip(i + 1));
    assert(s =~= s.take(i) + (seq![s[i]] + s.skip(i + 1)));
    lemma_list_paths_split(s.take(i), s.skip(i + 1));
    lemma_list_paths_split(seq![s[i]], s.skip(i + 1));
    lemma_list_paths_split(s.take(i), seq![s[i]] + s.skip(i + 1));
    assert(seq![s[i]].drop_last() =~= Seq::<FsEntry>::empty());
    assert(list_paths(seq![s[i]]) == list_paths(seq![s[i]].drop_last()) + entry_paths(
        seq![s[i]].last(),
    ));
    assert(list_paths(seq![s[i]]) =~= entry_paths(s[i]));
    assert(list_size(Seq::<FsEntry>::empty()) == 0);
    assert(list_size(seq![s[i]]) == list_size(seq![s[i]].drop_last()) + entry_size(
        seq![s[i]].last(),
    ));
    assert(list_size(seq![s[i]]) == entry_size(s[i]));
}

/// `at` walks into nested listings: every step but the last picks a
/// directory entry, the last picks a regular file.
pub open spec fn file_index_ok(s: Seq<FsEntry>, at: Seq<int>) -> bool
    decreases at.len(),
{
    &&& at.len() > 0
    &&& 0 <= at.first() < s.len()
    &&& if at.len() == 1 {
        s[at.first()] is File
    } else {
        s[at.first()] is Dir && file_index_ok(s[at.first()]->Dir_entries@, at.drop_first())
    }
}

/// The file entry `at` addresses.
pub open spec fn file_entry_at(s: Seq<FsEntry>, at: Seq<int>) -> FsEntry
    decreases at.len(),
{
    if at.len() <= 1 {
        s[at.first()]
    } else {
        file_entry_at(s[at.first()]->Dir_entries@, at.drop_first())
    }
}

/// `s2` is the listing `s` with exactly the file addressed by `at` left
/// out — the shape a walk produces when that one file cannot be read —
/// and nothing else changed.
pub open spec fn removes_file_at(s: Seq<FsEntry>, s2: Seq<FsEntry>, at: Seq<int>) -> bool
    decreases at.len(),
{
    &&& at.len() > 0
    &&& 0 <= at.first() < s.len()
    &&& if at.len() == 1 {
        s[at.first()] is File && s2 == s.remove(at.first())
    } else {
        &&& s[at.first()] is Dir
        &&& s2.len() == s.len()
        &&& (forall|k: int| 0 <= k < s.len() && k != at.first() ==> s2[k] == s[k])
        &&& s2[at.first()] is Dir
        &&& s2[at.first()]->Dir_path == s[at.first()]->Dir_path
        &&& removes_file_at(
            s[at.first()]->Dir_entries@,
            s2[at.first()]->Dir_entries@,
            at.drop_first(),
        )
    }
}

/// Graceful degradation at any depth: when the walker leaves one
/// unreadable file out of any listing of the subtree, the paths that
/// remain are exactly all the others, and the total size is smaller by
/// exactly the omitted file's length — so every ancestor's aggregated
/// size excludes just those bytes.
pub proof fn lemma_graceful_degradation_nested(s: Seq<FsEntry>, s2: Seq<FsEntry>, at: Seq<int>)
    requires
        removes_file_at(s, s2, at),
    ensures
        file_index_ok(s, at),
        list_size(s2) + entry_size(file_entry_at(s, at)) == list_size(s),
        list_paths(s).to_multiset() == list_paths(s2).to_multiset().insert(
            entry_path(file_entry_at(s, at)),
        ),
    decreases at.len(),
{
    broadcast use vstd::seq_lib::group_to_multiset_ensures;

    let i = at.first();
    let f = file_entry_at(s, at);
    if at.len() == 1 {
        lemma_graceful_degradation(s, i);
        assert(s2 == s.remove(i));
        lemma_multiset_commutative(list_paths(s.take(i)), list_paths(s.skip(i + 1)));
        lemma_multiset_commutative(
            list_paths(s.take(i)),
            entry_paths(s[i]) + list_paths(s.skip(i + 1)),
        );
        lemma_multiset_commutative(entry_paths(s[i]), list_paths(s.skip(i + 1)));
        assert(entry_paths(s[i]) =~= seq![entry_path(s[i])]);
        lemma_singleton_path_multiset(entry_path(s[i]));
        assert(list_paths(s).to_multiset() =~= list_paths(s2).to_multiset().insert(
            entry_path(f),
        ));
    } else {
        let sub = s[i]->Dir_entries@;
        let sub2 = s2[i]->Dir_entries@;
        lemma_graceful_degradation_nested(sub, sub2, at.drop_first());
        assert(f == file_entry_at(sub, at.drop_first()));
        // Both listings decompose around position i into equal outer parts.
        assert(s =~= s.take(i) + (seq![s[i]] + s.skip(i + 1)));
        assert(s2 =~= s.take(i) + (seq![s2[i]] + s.skip(i + 1)));
        lemma_list_paths_split(s.take(i), seq![s[i]] + s.skip(i + 1));
        lemma_list_paths_split(seq![s[i]], s.skip(i + 1));
        lemma_list_paths_split(s.take(i), seq![s2[i]] + s.skip(i + 1));
        lemma_list_paths_split(seq![s2[i]], s.skip(i + 1));
        assert(seq![s[i]].drop_last() =~= Seq::<FsEntry>::empty());
        assert(seq![s2[i]].drop_last() =~= Seq::<FsEntry>::empty());
        assert(list_size(Seq::<FsEntry>::empty()) == 0);
        assert(list_paths(Seq::<FsEntry>::empty()) =~= Seq::<Seq<char>>::empty());
        assert(list_paths(seq![s[i]]) =~= entry_paths(s[i]));
        assert(list_paths(seq![s2[i]]) =~= entry_paths(s2[i]));
        assert(list_size(seq![s[i]]) == entry_size(s[i]));
        assert(list_size(seq![s2[i]]) == entry_size(s2[i]));
        // The replaced directory keeps its path and loses exactly the file.
        assert(entry_size(s[i]) == list_size(sub));
        assert(entry_size(s2[i]) == list_size(sub2));
        assert(entry_paths(s[i]) == seq![entry_path(s[i])] + list_paths(sub));
        assert(entry_paths(s2[i]) == seq![entry_path(s[i])] + list_paths(sub2)) by {
            assert(entry_path(s2[i]) == entry_path(s[i]));
        }
        lemma_multiset_commutative(seq![entry_path(s[i])], list_paths(sub));
        lemma_multiset_commutative(seq![entry_path(s[i])], list_paths(sub2));
        lemma_multiset_commutative(entry_paths(s[i]), list_paths(s.skip(i + 1)));
        lemma_multiset_commutative(entry_paths(s2[i]), list_paths(s.skip(i + 1)));
        lemma_multiset_commutative(
            list_paths(s.take(i)),
            entry_paths(s[i]) + list_paths(s.skip(i + 1)),
        );
        lemma_multiset_commutative(
            list_paths(s.take(i)),
            entry_paths(s2[i]) + list_paths(s.skip(i + 1)),
        );
        assert(list_paths(s).to_multiset() =~= list_paths(s2).to_multiset().insert(
            entry_path(f),
        ));
    }
}

} // verus!
