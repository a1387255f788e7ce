use md5::{Digest, Md5};
use vstd::prelude::*;

use crate::snapshot::str_views;

verus! {

/// One attempt to read a file's content, in the order the files were
/// visited: the path, and the bytes if the read succeeded. A failed read
/// carries `None`; such a file is skipped and joins no group.
pub struct FileRead {
    pub path: String,
    pub content: Option<Vec<u8>>,
}

/// The digest the content hash computes for the given bytes. Identical
/// bytes always give the identical digest; the library treats digest
/// equality as a proxy for content equality, accepting the remote chance
/// that two different contents share a digest.
pub uninterp spec fn digest_of(content: Seq<u8>) -> Seq<u8>;

/// Relies on md5::Md5 of the md-5 crate: the digest depends on the input
/// bytes alone and is 16 bytes long.
#[verifier::external_body]
pub fn calculate_md5(content: &Vec<u8>) -> (r: Vec<u8>)
    ensures
        r@ == digest_of(content@),
        r@.len() == 16,
{
    let mut hasher = Md5::new();
    hasher.update(content);
    let result = hasher.finalize();
    result.to_vec()
}

/// The index of the group keyed by digest `d`, or -1 if there is none.
pub open spec fn group_index(gs: Seq<(Seq<u8>, Seq<Seq<char>>)>, d: Seq<u8>) -> int
    decreases gs,
{
    if gs.len() == 0 {
        -1
    } else if gs.last().0 == d {
        gs.len() - 1
    } else {
        group_index(gs.drop_last(), d)
    }
}

/// The digest-keyed groups after processing `reads`: one group per digest
/// seen, in order of first appearance, each holding the paths of the reads
/// with that digest in processing order. Failed reads contribute nothing.
pub open spec fn spec_groups(reads: Seq<FileRead>) -> Seq<(Seq<u8>, Seq<Seq<char>>)>
    decreases reads,
{
    if reads.len() == 0 {
        seq![]
    } else {
        let prev = spec_groups(reads.drop_last());
        let r = reads.last();
        match r.content {
            Option::None => prev,
            Option::Some(c) => {
                let d = digest_of(c@);
                let gi = group_index(prev, d);
                if gi >= 0 {
                    prev.update(gi, (d, prev[gi].1.push(r.path@)))
                } else {
                    prev.push((d, seq![r.path@]))
                }
            },
        }
    }
}

/// The member lists of the groups that hold at least two paths, in group
/// order; the digests themselves are dropped.
pub open spec fn dup_views(gs: Seq<(Seq<u8>, Seq<Seq<char>>)>) -> Seq<Seq<Seq<char>>>
    decreases gs,
{
    if gs.len() == 0 {
        seq![]
    } else {
        dup_views(gs.drop_last()) + (if gs.last().1.len() >= 2 {
            seq![gs.last().1]
        } else {
            seq![]
        })
    }
}

/// What a duplicate scan over `reads` returns.
pub open spec fn spec_duplicates(reads: Seq<FileRead>) -> Seq<Seq<Seq<char>>> {
    dup_views(spec_groups(reads))
}

/// The member views of a list of groups.
pub open spec fn group_views(gs: Seq<Vec<String>>) -> Seq<Seq<Seq<char>>> {
    gs.map_values(|v: Vec<String>| str_views(v@))
}

/// The paths of the successfully read files whose content digests to `d`,
/// in processing order.
pub open spec fn paths_with_digest(reads: Seq<FileRead>, d: Seq<u8>) -> Seq<Seq<char>>
    decreases reads,
{
    if reads.len() == 0 {
        seq![]
    } else {
        paths_with_digest(reads.drop_last(), d) + (match reads.last().content {
            Option::Some(c) => if digest_of(c@) == d {
                seq![reads.last().path@]
            } else {
                seq![]
            },
            Option::None => seq![],
        })
    }
}

/// What one read looks like to the scan: its path and content bytes.
pub open spec fn read_view(r: FileRead) -> (Seq<char>, Option<Seq<u8>>) {
    (
        r.path@,
        match r.content {
            Option::Some(c) => Option::Some(c@),
            Option::None => Option::None,
        },
    )
}

struct Group {
    digest: Vec<u8>,
    members: Vec<String>,
}

spec fn group_view(g: Group) -> (Seq<u8>, Seq<Seq<char>>) {
    (g.digest@, str_views(g.members@))
}

spec fn acc_views(gs: Seq<Group>) -> Seq<(Seq<u8>, Seq<Seq<char>>)> {
    gs.map_values(|g: Group| group_view(g))
}

/// Pairwise distinctness of the digests of a group list.
pub open spec fn digests_distinct(gs: Seq<(Seq<u8>, Seq<Seq<char>>)>) -> bool {
    forall|a: int, b: int|
        0 <= a < gs.len() && 0 <= b < gs.len() && a != b ==> (#[trigger] gs[a].0) != (
        #[trigger] gs[b].0)
}

proof fn lemma_group_index_at(gs: Seq<(Seq<u8>, Seq<Seq<char>>)>, d: Seq<u8>, j: int)
    requires
        digests_distinct(gs),
        0 <= j < gs.len(),
        gs[j].0 == d,
    ensures
        group_index(gs, d) == j,
    decreases gs,
{
    if gs.last().0 == d {
        assert(gs[gs.len() - 1].0 == d);
    } else {
        assert(j < gs.len() - 1);
        assert(gs.drop_last()[j] == gs[j]);
        lemma_group_index_at(gs.drop_last(), d, j);
    }
}

proof fn lemma_group_index_none(gs: Seq<(Seq<u8>, Seq<Seq<char>>)>, d: Seq<u8>)
    requires
        forall|k: int| 0 <= k < gs.len() ==> (#[trigger] gs[k].0) != d,
    ensures
        group_index(gs, d) == -1,
    decreases gs,
{
    if gs.len() > 0 {
        assert(gs[gs.len() - 1].0 != d);
        assert(forall|k: int|
            0 <= k < gs.drop_last().len() ==> (#[trigger] gs.drop_last()[k].0) == gs[k].0);
        lemma_group_index_none(gs.drop_last(), d);
    }
}

fn find_group(acc: &Vec<Group>, d: &Vec<u8>) -> (r: Option<usize>)
    ensures
        match r {
            Some(j) => j < acc@.len() && acc@[j as int].digest@ == d@,
            None => forall|k: int| 0 <= k < acc@.len() ==> (#[trigger] acc@[k]).digest@ != d@,
        },
{
    let m = acc.len();
    let mut j: usize = 0;
    while j < m
        invariant
            m == acc@.len(),
            j <= m,
            forall|k: int| 0 <= k < j ==> (#[trigger] acc@[k]).digest@ != d@,
        decreases m - j,
    {
        if bytes_eq(&acc[j].digest, d) {
            return Some(j);
        }
        j += 1;
    }
    None
}

/// Scan the given file reads and group them by content digest, keeping only
/// the groups with at least two members. Groups come in order of first
/// appearance of their digest; members in processing order. A read whose
/// content is `None` is skipped: partial failure degrades the result, never
/// the whole scan.
pub fn find_duplicate_files(reads: &Vec<FileRead>) -> (groups: Vec<Vec<String>>)
    ensures
        group_views(groups@) == spec_duplicates(reads@),
        forall|k: int| 0 <= k < groups@.len() ==> (#[trigger] groups@[k])@.len() >= 2,
{
    let mut acc: Vec<Group> = Vec::new();
    let n = reads.len();
    let mut i: usize = 0;
    while i < n
        invariant
            n == reads@.len(),
            i <= n,
            acc_views(acc@) == spec_groups(reads@.take(i as int)),
            digests_distinct(acc_views(acc@)),
        decreases n - i,
    {
        proof {
            assert(reads@.take(i as int + 1).drop_last() =~= reads@.take(i as int));
            assert(reads@.take(i as int + 1).last() == reads@[i as int]);
        }
        match &reads[i].content {
            Option::None => {},
            Option::Some(c) => {
                let d = calculate_md5(c);
                let ghost prev = acc_views(acc@);
                match find_group(&acc, &d) {
                    Option::Some(j) => {
                        proof {
                            assert(prev[j as int].0 == d@);
                            lemma_group_index_at(prev, d@, j as int);
                        }
                        let ghost pre = acc@;
                        let mut g = acc.remove(j);
                        let ghost old_members = g.members@;
                        g.members.push(reads[i].path.clone());
                        let ghost g2 = g;
                        acc.insert(j, g);
                        proof {
                            assert(prev[j as int] == group_view(pre[j as int]));
                            assert(g2.digest@ == d@);
                            assert(g2.members@ == old_members.push(reads@[i as int].path));
                            assert(str_views(g2.members@) =~= str_views(old_members).push(
                                reads@[i as int].path@,
                            ));
                            assert(group_view(g2) == (
                                d@,
                                prev[j as int].1.push(reads@[i as int].path@),
                            ));
                            assert(acc@ =~= pre.update(j as int, g2));
                            assert(acc_views(acc@) =~= prev.update(
                                j as int,
                                (d@, prev[j as int].1.push(reads@[i as int].path@)),
                            ));
                        }
                    },
                    Option::None => {
                        proof {
                            lemma_group_index_none(prev, d@);
                        }
                        let mut members: Vec<String> = Vec::new();
                        members.push(reads[i].path.clone());
                        let ghost dv = d@;
                        let ghost mv = members@;
                        acc.push(Group { digest: d, members });
                        proof {
                            assert(str_views(mv) =~= seq![reads@[i as int].path@]);
                            assert(group_view(acc@.last()) == (dv, seq![reads@[i as int].path@]));
                            assert(acc_views(acc@) =~= prev.push(
                                (dv, seq![reads@[i as int].path@]),
                            ));
                        }
                    },
                }
            },
        }
        i += 1;
    }
    proof {
        assert(reads@.take(n as int) =~= reads@);
    }
    let ghost full = acc_views(acc@);
    // Keep the groups with at least two members, in their group order.
    let mut rev: Vec<Vec<String>> = Vec::new();
    proof {
        assert(group_views(rev@).reverse() =~= Seq::<Seq<Seq<char>>>::empty());
        assert(dup_views(full) + Seq::<Seq<Seq<char>>>::empty() =~= dup_views(full));
    }
    loop
        invariant
            dup_views(full) == dup_views(acc_views(acc@)) + group_views(rev@).reverse(),
            forall|k: int| 0 <= k < rev@.len() ==> (#[trigger] rev@[k])@.len() >= 2,
        ensures
            acc@.len() == 0,
            dup_views(full) == group_views(rev@).reverse(),
            forall|k: int| 0 <= k < rev@.len() ==> (#[trigger] rev@[k])@.len() >= 2,
        decreases acc@.len(),
    {
        let ghost pre = acc@;
        match acc.pop() {
            Option::Some(g) => {
                proof {
                    assert(acc_views(pre).drop_last() =~= acc_views(acc@));
                    assert(acc_views(pre).last() == group_view(g));
                }
                let ghost rev_pre = rev@;
                if g.members.len() >= 2 {
                    let ghost gv = group_view(g);
                    rev.push(g.members);
                    proof {
                        assert(gv.1.len() >= 2);
                        assert(group_views(rev@).reverse() =~= seq![gv.1] + group_views(
                            rev_pre,
                        ).reverse());
                        assert(dup_views(acc_views(pre)) + group_views(rev_pre).reverse() =~= (
                        dup_views(acc_views(acc@)) + group_views(rev@).reverse()));
                    }
                } else {
                    proof {
                        assert(group_view(g).1.len() < 2);
                        assert(dup_views(acc_views(pre)) =~= dup_views(acc_views(acc@)));
                    }
                }
            },
            Option::None => {
                proof {
                    assert(acc_views(acc@).len() == 0);
                    assert(dup_views(acc_views(acc@)) =~= Seq::<Seq<Seq<char>>>::empty());
                    assert(Seq::<Seq<Seq<char>>>::empty() + group_views(rev@).reverse()
                        =~= group_views(rev@).reverse());
                }
                break ;
            },
        }
    }
    let mut groups: Vec<Vec<String>> = Vec::new();
    proof {
        assert(group_views(groups@) + group_views(rev@).reverse() =~= group_views(
            rev@,
        ).reverse());
    }
    loop
        invariant
            group_views(groups@) + group_views(rev@).reverse() == dup_views(full),
            forall|k: int| 0 <= k < groups@.len() ==> (#[trigger] groups@[k])@.len() >= 2,
            forall|k: int| 0 <= k < rev@.len() ==> (#[trigger] rev@[k])@.len() >= 2,
        ensures
            rev@.len() == 0,
            group_views(groups@) == dup_views(full),
            forall|k: int| 0 <= k < groups@.len() ==> (#[trigger] groups@[k])@.len() >= 2,
        decreases rev@.len(),
    {
        let ghost rev_pre = rev@;
        let ghost groups_pre = groups@;
        match rev.pop() {
            Option::Some(v) => {
                groups.push(v);
                proof {
                    assert(group_views(groups@) + group_views(rev@).reverse() =~= group_views(
                        groups_pre,
                    ) + group_views(rev_pre).reverse());
                }
            },
            Option::None => {
                proof {
                    assert(group_views(rev@).reverse() =~= Seq::<Seq<Seq<char>>>::empty());
                    assert(group_views(groups@) + Seq::<Seq<Seq<char>>>::empty() =~= group_views(
                        groups@,
                    ));
                }
                break ;
            },
        }
    }
    groups
}

// ---------------------------------------------------------------------------
// Laws of the grouping.
// ---------------------------------------------------------------------------

/// Whether some group carries digest `d`.
pub open spec fn has_digest_group(gs: Seq<(Seq<u8>, Seq<Seq<char>>)>, d: Seq<u8>) -> bool {
    exists|gi: int| 0 <= gi < gs.len() && (#[trigger] gs[gi]).0 == d
}

proof fn lemma_group_index_props(gs: Seq<(Seq<u8>, Seq<Seq<char>>)>, d: Seq<u8>)
    ensures
        group_index(gs, d) == -1 ==> forall|k: int| 0 <= k < gs.len() ==> (#[trigger] gs[k]).0
            != d,
        group_index(gs, d) != -1 ==> 0 <= group_index(gs, d) < gs.len() && gs[group_index(
            gs,
            d,
        )].0 == d,
    decreases gs,
{
    if gs.len() > 0 && gs.last().0 != d {
        lemma_group_index_props(gs.drop_last(), d);
        if group_index(gs, d) == -1 {
            assert forall|k: int| 0 <= k < gs.len() implies (#[trigger] gs[k]).0 != d by {
                if k < gs.len() - 1 {
                    assert(gs.drop_last()[k] == gs[k]);
                }
            }
        } else {
            assert(gs.drop_last()[group_index(gs, d)] == gs[group_index(gs, d)]);
        }
    }
}

/// The groups of a scan, characterized: digests are pairwise distinct, each
/// group's members are exactly the paths read with its digest, and a digest
/// has a group exactly when some successful read produced it.
pub proof fn lemma_groups_characterize(reads: Seq<FileRead>)
    ensures
        digests_distinct(spec_groups(reads)),
        forall|gi: int|
            0 <= gi < spec_groups(reads).len() ==> (#[trigger] spec_groups(reads)[gi]).1
                == paths_with_digest(reads, spec_groups(reads)[gi].0),
        forall|d: Seq<u8>|
            #[trigger] paths_with_digest(reads, d).len() > 0 <==> has_digest_group(
                spec_groups(reads),
                d,
            ),
    decreases reads,
{
    if reads.len() == 0 {
    } else {
        let front = reads.drop_last();
        let r = reads.last();
        let prev = spec_groups(front);
        let cur = spec_groups(reads);
        lemma_groups_characterize(front);
        match r.content {
            Option::None => {
                assert(cur == prev);
                assert forall|d: Seq<u8>| #[trigger]
                    paths_with_digest(reads, d) == paths_with_digest(front, d) by {
                    assert(paths_with_digest(reads, d) =~= paths_with_digest(front, d));
                }
            },
            Option::Some(c) => {
                let dd = digest_of(c@);
                let gi0 = group_index(prev, dd);
                lemma_group_index_props(prev, dd);
                assert forall|d: Seq<u8>| d != dd implies #[trigger] paths_with_digest(reads, d)
                    == paths_with_digest(front, d) by {
                    assert(paths_with_digest(reads, d) =~= paths_with_digest(front, d));
                }
                assert(paths_with_digest(reads, dd) =~= paths_with_digest(front, dd).push(
                    r.path@,
                ));
                if gi0 >= 0 {
                    assert(cur == prev.update(gi0, (dd, prev[gi0].1.push(r.path@))));
                    assert forall|gi: int|
                        0 <= gi < cur.len() implies (#[trigger] cur[gi]).1 == paths_with_digest(
                        reads,
                        cur[gi].0,
                    ) by {
                        if gi == gi0 {
                            assert(prev[gi0].1 == paths_with_digest(front, dd));
                        } else {
                            assert(cur[gi] == prev[gi]);
                            assert(cur[gi].0 != dd);
                        }
                    }
                    assert forall|d: Seq<u8>| #[trigger]
                        paths_with_digest(reads, d).len() > 0 <==> has_digest_group(
                        cur,
                        d,
                    ) by {
                        if d == dd {
                            assert(cur[gi0].0 == dd);
                        } else {
                            if has_digest_group(cur, d) {
                                let g = choose|g: int|
                                    0 <= g < cur.len() && (#[trigger] cur[g]).0 == d;
                                assert(prev[g].0 == d);
                            }
                            if has_digest_group(prev, d) {
                                let g = choose|g: int|
                                    0 <= g < prev.len() && (#[trigger] prev[g]).0 == d;
                                assert(g != gi0);
                                assert(cur[g].0 == d);
                            }
                        }
                    }
                } else {
                    assert(cur == prev.push((dd, seq![r.path@])));
                    assert(!has_digest_group(prev, dd));
                    assert(paths_with_digest(front, dd).len() == 0);
                    assert forall|gi: int|
                        0 <= gi < cur.len() implies (#[trigger] cur[gi]).1 == paths_with_digest(
                        reads,
                        cur[gi].0,
                    ) by {
                        if gi == cur.len() - 1 {
                            assert(paths_with_digest(front, dd) =~= Seq::<Seq<char>>::empty());
                            assert(paths_with_digest(reads, dd) =~= seq![r.path@]);
                        } else {
                            assert(cur[gi] == prev[gi]);
                            assert(cur[gi].0 != dd) by {
                                if cur[gi].0 == dd {
                                    assert(has_digest_group(prev, dd));
                                }
                            }
                        }
                    }
                    assert forall|d: Seq<u8>| #[trigger]
                        paths_with_digest(reads, d).len() > 0 <==> has_digest_group(
                        cur,
                        d,
                    ) by {
                        if d == dd {
                            assert(cur[cur.len() - 1].0 == dd);
                        } else {
                            if has_digest_group(cur, d) {
                                let g = choose|g: int|
                                    0 <= g < cur.len() && (#[trigger] cur[g]).0 == d;
                                assert(g < prev.len());
                                assert(prev[g].0 == d);
                            }
                            if has_digest_group(prev, d) {
                                let g = choose|g: int|
                                    0 <= g < prev.len() && (#[trigger] prev[g]).0 == d;
                                assert(cur[g].0 == d);
                            }
                        }
                    }
                    assert(digests_distinct(cur)) by {
                        assert forall|a: int, b: int|
                            0 <= a < cur.len() && 0 <= b < cur.len() && a != b implies (
                        #[trigger] cur[a].0) != (#[trigger] cur[b].0) by {
                            if a < cur.len() - 1 && b < cur.len() - 1 {
                                assert(prev[a].0 == cur[a].0 && prev[b].0 == cur[b].0);
                            } else if a == cur.len() - 1 {
                                assert(cur[b].0 == prev[b].0);
                                if cur[b].0 == dd {
                                    assert(has_digest_group(prev, dd));
                                }
                            } else {
                                assert(cur[a].0 == prev[a].0);
                                if cur[a].0 == dd {
                                    assert(has_digest_group(prev, dd));
                                }
                            }
                        }
                    }
                }
            },
        }
    }
}

proof fn lemma_pwd_contains(reads: Seq<FileRead>, i: int)
    requires
        0 <= i < reads.len(),
        reads[i].content is Some,
    ensures
        paths_with_digest(reads, digest_of(reads[i].content->0@)).contains(reads[i].path@),
    decreases reads,
{
    let d = digest_of(reads[i].content->0@);
    if i == reads.len() - 1 {
        let w = paths_with_digest(reads, d);
        assert(w[w.len() - 1] == reads[i].path@);
    } else {
        lemma_pwd_contains(reads.drop_last(), i);
        let front = paths_with_digest(reads.drop_last(), d);
        let k = choose|k: int| 0 <= k < front.len() && front[k] == reads[i].path@;
        assert(paths_with_digest(reads, d)[k] == reads[i].path@);
    }
}

proof fn lemma_pwd_two(reads: Seq<FileRead>, i: int, j: int, d: Seq<u8>)
    requires
        0 <= i < j < reads.len(),
        reads[i].content is Some,
        reads[j].content is Some,
        digest_of(reads[i].content->0@) == d,
        digest_of(reads[j].content->0@) == d,
    ensures
        paths_with_digest(reads, d).len() >= 2,
    decreases reads,
{
    if j == reads.len() - 1 {
        lemma_pwd_contains(reads.drop_last(), i);
        assert(paths_with_digest(reads.drop_last(), d).len() >= 1);
    } else {
        lemma_pwd_two(reads.drop_last(), i, j, d);
    }
}

proof fn lemma_pwd_source(reads: Seq<FileRead>, d: Seq<u8>, p: Seq<char>)
    requires
        paths_with_digest(reads, d).contains(p),
    ensures
        exists|k: int|
            0 <= k < reads.len() && (#[trigger] reads[k]).path@ == p && reads[k].content is Some
                && digest_of(reads[k].content->0@) == d,
    decreases reads,
{
    let front = paths_with_digest(reads.drop_last(), d);
    let w = paths_with_digest(reads, d);
    let k = choose|k: int| 0 <= k < w.len() && w[k] == p;
    if k < front.len() {
        assert(front[k] == p);
        lemma_pwd_source(reads.drop_last(), d, p);
        let x = choose|x: int|
            0 <= x < reads.drop_last().len() && (#[trigger] reads.drop_last()[x]).path@ == p
                && reads.drop_last()[x].content is Some && digest_of(
                reads.drop_last()[x].content->0@,
            ) == d;
        assert(reads[x] == reads.drop_last()[x]);
        assert((#[trigger] reads[x]).path@ == p);
    } else {
        assert(reads[reads.len() - 1].path@ == p);
    }
}

proof fn lemma_dup_views_member(gs: Seq<(Seq<u8>, Seq<Seq<char>>)>, gi: int)
    requires
        0 <= gi < gs.len(),
        gs[gi].1.len() >= 2,
    ensures
        dup_views(gs).contains(gs[gi].1),
    decreases gs,
{
    if gi == gs.len() - 1 {
        let w = dup_views(gs);
        assert(w[w.len() - 1] == gs[gi].1);
    } else {
        assert(gs.drop_last()[gi] == gs[gi]);
        lemma_dup_views_member(gs.drop_last(), gi);
        let front = dup_views(gs.drop_last());
        let k = choose|k: int| 0 <= k < front.len() && front[k] == gs[gi].1;
        assert(dup_views(gs)[k] == gs[gi].1);
    }
}

proof fn lemma_dup_views_source(gs: Seq<(Seq<u8>, Seq<Seq<char>>)>, k: int)
    requires
        0 <= k < dup_views(gs).len(),
    ensures
        exists|gi: int|
            0 <= gi < gs.len() && (#[trigger] gs[gi]).1 == dup_views(gs)[k] && gs[gi].1.len()
                >= 2,
    decreases gs,
{
    let front = dup_views(gs.drop_last());
    if k < front.len() {
        lemma_dup_views_source(gs.drop_last(), k);
        let gi = choose|gi: int|
            0 <= gi < gs.drop_last().len() && (#[trigger] gs.drop_last()[gi]).1 == dup_views(
                gs.drop_last(),
            )[k] && gs.drop_last()[gi].1.len() >= 2;
        assert(gs[gi] == gs.drop_last()[gi]);
        assert((#[trigger] gs[gi]).1 == dup_views(gs)[k]);
    } else {
        assert(dup_views(gs)[k] == gs[gs.len() - 1].1);
        assert((#[trigger] gs[gs.len() - 1]).1 == dup_views(gs)[k]);
    }
}

proof fn lemma_dup_unique_holder(gs: Seq<(Seq<u8>, Seq<Seq<char>>)>, p: Seq<char>)
    requires
        forall|a: int, b: int|
            0 <= a < gs.len() && 0 <= b < gs.len() && a != b ==> !((#[trigger] gs[a]).1.contains(
                p,
            ) && (#[trigger] gs[b]).1.contains(p)),
    ensures
        forall|k1: int, k2: int|
            0 <= k1 < dup_views(gs).len() && 0 <= k2 < dup_views(gs).len() && k1 != k2 ==> !((
            #[trigger] dup_views(gs)[k1]).contains(p) && (#[trigger] dup_views(gs)[k2]).contains(
                p,
            )),
    decreases gs,
{
    if gs.len() > 0 {
        let front = gs.drop_last();
        assert(forall|a: int, b: int|
            0 <= a < front.len() && 0 <= b < front.len() && a != b ==> !((
            #[trigger] front[a]).1.contains(p) && (#[trigger] front[b]).1.contains(p))) by {
            assert(forall|a: int| 0 <= a < front.len() ==> #[trigger] front[a] == gs[a]);
        }
        lemma_dup_unique_holder(front, p);
        let fd = dup_views(front);
        assert forall|k1: int, k2: int|
            0 <= k1 < dup_views(gs).len() && 0 <= k2 < dup_views(gs).len() && k1 != k2 implies !((
        #[trigger] dup_views(gs)[k1]).contains(p) && (#[trigger] dup_views(gs)[k2]).contains(
            p,
        )) by {
            if dup_views(gs)[k1].contains(p) && dup_views(gs)[k2].contains(p) {
                let lo = if k1 < k2 {
                    k1
                } else {
                    k2
                };
                let hi = if k1 < k2 {
                    k2
                } else {
                    k1
                };
                if hi < fd.len() {
                    assert(dup_views(gs)[lo] == fd[lo] && dup_views(gs)[hi] == fd[hi]);
                } else {
                    // hi names the freshly appended last group, so that group
                    // holds p, and lo names a group from the front that also
                    // holds p: two distinct groups holding p.
                    assert(gs.last().1.len() >= 2);
                    assert(dup_views(gs)[hi] == gs.last().1);
                    assert(dup_views(gs)[lo] == fd[lo]);
                    lemma_dup_views_source(front, lo);
                    let ga = choose|gi: int|
                        0 <= gi < front.len() && (#[trigger] front[gi]).1 == fd[lo]
                            && front[gi].1.len() >= 2;
                    assert(gs[ga] == front[ga]);
                    assert(gs[ga].1.contains(p));
                    assert(gs[gs.len() - 1].1.contains(p));
                }
            }
        }
    }
}

/// Duplicate grouping correctness: among reads with pairwise distinct
/// paths, two successfully read files with the same content digest appear
/// together in exactly one returned group, provided both are truly
/// duplicated (their shared digest has at least two readers — which the two
/// of them already are); and two files whose digests differ never share a
/// group.
pub proof fn lemma_duplicate_grouping(reads: Seq<FileRead>, i: int, j: int)
    requires
        0 <= i < reads.len(),
        0 <= j < reads.len(),
        i != j,
        reads[i].content is Some,
        reads[j].content is Some,
        forall|a: int, b: int|
            0 <= a < reads.len() && 0 <= b < reads.len() && a != b ==> (
            #[trigger] reads[a]).path@ != (#[trigger] reads[b]).path@,
    ensures
        digest_of(reads[i].content->0@) == digest_of(reads[j].content->0@) ==> exists|k: int|
            0 <= k < spec_duplicates(reads).len() && (#[trigger] spec_duplicates(
                reads,
            )[k]).contains(reads[i].path@) && spec_duplicates(reads)[k].contains(reads[j].path@),
        forall|k1: int, k2: int|
            0 <= k1 < spec_duplicates(reads).len() && 0 <= k2 < spec_duplicates(reads).len() && k1
                != k2 ==> !((#[trigger] spec_duplicates(reads)[k1]).contains(reads[i].path@) && (
            #[trigger] spec_duplicates(reads)[k2]).contains(reads[i].path@)),
        digest_of(reads[i].content->0@) != digest_of(reads[j].content->0@) ==> forall|k: int|
            0 <= k < spec_duplicates(reads).len() ==> !((#[trigger] spec_duplicates(
                reads,
            )[k]).contains(reads[i].path@) && spec_duplicates(reads)[k].contains(reads[j].path@)),
{
    let gs = spec_groups(reads);
    let di = digest_of(reads[i].content->0@);
    let dj = digest_of(reads[j].content->0@);
    lemma_groups_characterize(reads);
    // A group holding the path of read `x` must carry read `x`'s digest.
    assert forall|g: int, x: int|
        0 <= g < gs.len() && 0 <= x < reads.len() && reads[x].content is Some && (
        #[trigger] gs[g]).1.contains(#[trigger] reads[x].path@) implies gs[g].0 == digest_of(
        reads[x].content->0@,
    ) by {
        lemma_pwd_source(reads, gs[g].0, reads[x].path@);
        let k = choose|k: int|
            0 <= k < reads.len() && (#[trigger] reads[k]).path@ == reads[x].path@
                && reads[k].content is Some && digest_of(reads[k].content->0@) == gs[g].0;
        assert(k == x);
    }
    // At most one group holds any one of the two paths.
    assert forall|a: int, b: int|
        0 <= a < gs.len() && 0 <= b < gs.len() && a != b implies !((#[trigger] gs[a]).1.contains(
        reads[i].path@,
    ) && (#[trigger] gs[b]).1.contains(reads[i].path@)) by {
        if gs[a].1.contains(reads[i].path@) && gs[b].1.contains(reads[i].path@) {
            assert(gs[a].0 == di && gs[b].0 == di);
        }
    }
    lemma_dup_unique_holder(gs, reads[i].path@);
    if di == dj {
        let lo = if i < j {
            i
        } else {
            j
        };
        let hi = if i < j {
            j
        } else {
            i
        };
        lemma_pwd_two(reads, lo, hi, di);
        assert(paths_with_digest(reads, di).len() > 0);
        assert(has_digest_group(gs, di));
        let g = choose|gi: int| 0 <= gi < gs.len() && (#[trigger] gs[gi]).0 == di;
        assert(gs[g].1 == paths_with_digest(reads, di));
        lemma_pwd_contains(reads, i);
        lemma_pwd_contains(reads, j);
        lemma_dup_views_member(gs, g);
        let k = choose|k: int|
            0 <= k < dup_views(gs).len() && #[trigger] dup_views(gs)[k] == gs[g].1;
        assert(spec_duplicates(reads)[k].contains(reads[i].path@));
        assert(spec_duplicates(reads)[k].contains(reads[j].path@));
    } else {
        assert forall|k: int| 0 <= k < spec_duplicates(reads).len() implies !((
        #[trigger] spec_duplicates(reads)[k]).contains(reads[i].path@) && spec_duplicates(
            reads,
        )[k].contains(reads[j].path@)) by {
            if spec_duplicates(reads)[k].contains(reads[i].path@) && spec_duplicates(
                reads,
            )[k].contains(reads[j].path@) {
                lemma_dup_views_source(gs, k);
                let g = choose|gi: int|
                    0 <= gi < gs.len() && (#[trigger] gs[gi]).1 == dup_views(gs)[k]
                        && gs[gi].1.len() >= 2;
                assert(gs[g].0 == di && gs[g].0 == dj);
            }
        }
    }
}

/// No singleton groups: every group a duplicate scan can return holds at
/// least two paths.
pub proof fn lemma_no_singleton_groups(reads: Seq<FileRead>)
    ensures
        forall|k: int|
            0 <= k < spec_duplicates(reads).len() ==> (#[trigger] spec_duplicates(
                reads,
            )[k]).len() >= 2,
{
    assert forall|k: int|
        0 <= k < spec_duplicates(reads).len() implies (#[trigger] spec_duplicates(
        reads,
    )[k]).len() >= 2 by {
        lemma_dup_views_source(spec_groups(reads), k);
    }
}

proof fn lemma_groups_deterministic(r1: Seq<FileRead>, r2: Seq<FileRead>)
    requires
        r1.len() == r2.len(),
        forall|k: int| 0 <= k < r1.len() ==> read_view(#[trigger] r1[k]) == read_view(r2[k]),
    ensures
        spec_groups(r1) == spec_groups(r2),
    decreases r1,
{
    if r1.len() > 0 {
        lemma_groups_deterministic(r1.drop_last(), r2.drop_last());
        assert(forall|k: int|
            0 <= k < r1.drop_last().len() ==> read_view(#[trigger] r1.drop_last()[k]) == read_view(
                r2.drop_last()[k],
            )) by {
            assert(forall|k: int|
                0 <= k < r1.drop_last().len() ==> #[trigger] r1.drop_last()[k] == r1[k]
                    && r2.drop_last()[k] == r2[k]);
        }
        assert(read_view(r1.last()) == read_view(r2.last()));
        assert(r1.last().path@ == r2.last().path@);
        match r1.last().content {
            Option::Some(c) => {
                assert(r2.last().content is Some);
                assert(c@ == r2.last().content->0@);
            },
            Option::None => {
                assert(r2.last().content is None);
            },
        }
    }
}

/// Idempotence: two scans over reads that carry the same paths and the same
/// content bytes yield the same groups, member for member.
pub proof fn lemma_find_duplicates_idempotent(r1: Seq<FileRead>, r2: Seq<FileRead>)
    requires
        r1.len() == r2.len(),
        forall|k: int| 0 <= k < r1.len() ==> read_view(#[trigger] r1[k]) == read_view(r2[k]),
    ensures
        spec_duplicates(r1) == spec_duplicates(r2),
{
    lemma_groups_deterministic(r1, r2);
}

/// Byte-for-byte equality of two byte vectors.
fn bytes_eq(a: &Vec<u8>, b: &Vec<u8>) -> (r: bool)
    ensures
        r == (a@ == b@),
{
    if a.len() != b.len() {
        proof {
            assert(a@ != b@);
        }
        return false;
    }
    let n = a.len();
    let mut i: usize = 0;
    while i < n
        invariant
            n == a@.len(),
            n == b@.len(),
            i <= n,
            forall|k: int| 0 <= k < i ==> a@[k] == b@[k],
        decreases n - i,
    {
        if a[i] != b[i] {
            return false;
        }
        i += 1;
    }
    proof {
        assert(a@ =~= b@);
    }
    true
}

} // verus!
