use vstd::multiset::Multiset;
use vstd::prelude::*;

use crate::file_tree::FileTree;
use crate::size::Size;
use crate::snapshot::{str_views, view_size};

verus! {

/// The largest index at which `c` occurs in `s`, or -1 if it never does.
pub open spec fn last_pos(s: Seq<char>, c: char) -> int
    decreases s,
{
    if s.len() == 0 {
        -1
    } else if s.last() == c {
        s.len() - 1
    } else {
        last_pos(s.drop_last(), c)
    }
}

proof fn lemma_last_pos(s: Seq<char>, c: char)
    ensures
        last_pos(s, c) >= 0 ==> last_pos(s, c) < s.len() && s[last_pos(s, c)] == c,
        forall|k: int| last_pos(s, c) < k < s.len() ==> s[k] != c,
        last_pos(s, c) >= -1,
    decreases s,
{
    if s.len() > 0 && s.last() != c {
        lemma_last_pos(s.drop_last(), c);
        assert forall|k: int| last_pos(s, c) < k < s.len() implies s[k] != c by {
            if k < s.len() - 1 {
                assert(s.drop_last()[k] == s[k]);
            }
        }
    }
}

/// The file name of a path, as a filesystem names it: the last real
/// component. Empty components (doubled or trailing separators) and `.`
/// components are passed over; a path whose last real component is `..`,
/// or that has none left, has no file name.
pub open spec fn spec_file_name(p: Seq<char>) -> Option<Seq<char>>
    decreases p.len(),
    via spec_file_name_decreases
{
    let start = last_pos(p, '/') + 1;
    let seg = p.subrange(start, p.len() as int);
    if seg.len() > 0 && seg != seq!['.'] {
        if seg == seq!['.', '.'] {
            Option::None
        } else {
            Option::Some(seg)
        }
    } else if start == 0 {
        Option::None
    } else {
        spec_file_name(p.subrange(0, start - 1))
    }
}

#[via_fn]
proof fn spec_file_name_decreases(p: Seq<char>) {
    lemma_last_pos(p, '/');
}

/// Whether the path's file name carries the wanted extension, given with
/// its leading dot (".txt"). A path without a file name matches nothing,
/// and the dot that starts a hidden file's name does not begin an
/// extension.
pub open spec fn has_matching_extension(p: Seq<char>, ext: Seq<char>) -> bool {
    match spec_file_name(p) {
        Option::None => false,
        Option::Some(name) => {
            let d = last_pos(name, '.');
            d > 0 && ext == seq!['.'] + name.subrange(d + 1, name.len() as int)
        },
    }
}

/// Find the largest index at which `c` occurs in `s`.
#[verifier::loop_isolation(false)]
fn find_last_pos(s: &str, c: char) -> (r: Option<usize>)
    ensures
        match r {
            Some(k) => k == last_pos(s@, c),
            None => last_pos(s@, c) == -1,
        },
{
    proof {
        lemma_last_pos(s@, c);
    }
    let n = s.unicode_len();
    let mut j = n;
    while j > 0
        invariant
            j <= n,
            forall|k: int| j <= k < n ==> s@[k] != c,
        decreases j,
    {
        if s.get_char(j - 1) == c {
            proof {
                assert(s@[j - 1] == c);
                assert(!(last_pos(s@, c) > j - 1));
                assert(!(last_pos(s@, c) < j - 1));
            }
            return Some(j - 1);
        }
        j = j - 1;
    }
    proof {
        if last_pos(s@, c) >= 0 {
            assert(s@[last_pos(s@, c)] == c);
        }
    }
    None
}

/// Decide whether `child`'s file name carries `extension` (written with
/// its leading dot), as the filtered displays use it.
#[verifier::loop_isolation(false)]
#[verifier::rlimit(60)]
pub fn filter_child(child: &String, extension: &String) -> (r: bool)
    ensures
        r == has_matching_extension(child@, extension@),
{
    let n = child.as_str().unicode_len();
    let mut end = n;
    proof {
        assert(child@.subrange(0, n as int) =~= child@);
    }
    // Walk back over trailing separators and `.` components to the last
    // real component of the path.
    loop
        invariant
            end <= n,
            spec_file_name(child@) == spec_file_name(child@.subrange(0, end as int)),
        decreases end,
    {
        let prefix = child.as_str().substring_char(0, end);
        let ghost q = child@.subrange(0, end as int);
        proof {
            lemma_last_pos(q, '/');
        }
        let start = match find_last_pos(prefix, '/') {
            Some(k) => k + 1,
            None => 0,
        };
        let seg_len = end - start;
        let skip_seg = seg_len == 0 || (seg_len == 1 && prefix.get_char(start) == '.');
        if skip_seg {
            proof {
                if seg_len == 1 {
                    assert(q.subrange(start as int, end as int) =~= seq!['.']);
                }
            }
            if start == 0 {
                proof {
                    assert(spec_file_name(q) is None);
                }
                return false;
            }
            proof {
                assert(q.subrange(0, start as int - 1) =~= child@.subrange(0, start as int - 1));
            }
            end = start - 1;
        } else {
            let ghost name = child@.subrange(start as int, end as int);
            proof {
                assert(q.subrange(start as int, end as int) =~= name);
                if seg_len == 1 {
                    assert(name[0] != '.');
                    assert(name != seq!['.']);
                } else {
                    assert(name.len() != 1);
                }
            }
            if seg_len == 2 && prefix.get_char(start) == '.' && prefix.get_char(start + 1)
                == '.' {
                proof {
                    assert(name =~= seq!['.', '.']);
                    assert(spec_file_name(q) is None);
                }
                return false;
            }
            proof {
                assert(name != seq!['.', '.']) by {
                    if name.len() == 2 {
                        assert(!(q[start as int] == '.' && q[start as int + 1] == '.'));
                        if name == seq!['.', '.'] {
                            assert(name[0] == '.' && name[1] == '.');
                        }
                    }
                }
                assert(spec_file_name(child@) == Option::Some(name));
            }
            // `name` is the file name; compare its extension.
            let name_str = child.as_str().substring_char(start, end);
            let m = seg_len;
            proof {
                assert(name_str@ == name);
                lemma_last_pos(name, '.');
            }
            let d = match find_last_pos(name_str, '.') {
                Some(k) => k,
                None => {
                    return false;
                },
            };
            if d == 0 {
                return false;
            }
            let ghost want = seq!['.'] + name.subrange(d + 1, name.len() as int);
            let want_len: usize = 1 + (m - 1 - d);
            let ext_len = extension.as_str().unicode_len();
            if ext_len != want_len {
                proof {
                    assert(want.len() == want_len);
                }
                return false;
            }
            if extension.as_str().get_char(0) != '.' {
                proof {
                    assert(want[0] == '.');
                }
                return false;
            }
            let mut t: usize = 1;
            while t < want_len
                invariant
                    1 <= t <= want_len,
                    forall|k: int| 0 <= k < t ==> extension@[k] == want[k],
                decreases want_len - t,
            {
                let ec = extension.as_str().get_char(t);
                let cc = name_str.get_char(d + t);
                proof {
                    assert(want[t as int] == name[d + t]);
                }
                if ec != cc {
                    proof {
                        assert(extension@[t as int] != want[t as int]);
                    }
                    return false;
                }
                t = t + 1;
            }
            proof {
                assert(extension@ =~= want);
            }
            return true;
        }
    }
}

/// Lexicographic order on paths, character by character.
pub open spec fn lex_le(a: Seq<char>, b: Seq<char>) -> bool
    decreases a.len(),
{
    if a.len() == 0 {
        true
    } else if b.len() == 0 {
        false
    } else if (a.first() as u32) < (b.first() as u32) {
        true
    } else if (b.first() as u32) < (a.first() as u32) {
        false
    } else {
        lex_le(a.drop_first(), b.drop_first())
    }
}

proof fn lemma_lex_le_total(a: Seq<char>, b: Seq<char>)
    ensures
        lex_le(a, b) || lex_le(b, a),
    decreases a.len(),
{
    if a.len() > 0 && b.len() > 0 && (a.first() as u32) == (b.first() as u32) {
        lemma_lex_le_total(a.drop_first(), b.drop_first());
    }
}

proof fn lemma_lex_le_trans(a: Seq<char>, b: Seq<char>, c: Seq<char>)
    requires
        lex_le(a, b),
        lex_le(b, c),
    ensures
        lex_le(a, c),
    decreases a.len(),
{
    if a.len() > 0 && b.len() > 0 && c.len() > 0 && (a.first() as u32) == (b.first() as u32)
        && (b.first() as u32) == (c.first() as u32) {
        lemma_lex_le_trans(a.drop_first(), b.drop_first(), c.drop_first());
    }
}

/// Lexicographic comparison of two strings.
#[verifier::loop_isolation(false)]
fn str_le(a: &str, b: &str) -> (r: bool)
    ensures
        r == lex_le(a@, b@),
{
    let na = a.unicode_len();
    let nb = b.unicode_len();
    proof {
        assert(a@.skip(0) =~= a@);
        assert(b@.skip(0) =~= b@);
    }
    let mut i: usize = 0;
    while i < na && i < nb
        invariant
            i <= na,
            i <= nb,
            lex_le(a@, b@) == lex_le(a@.skip(i as int), b@.skip(i as int)),
        decreases na - i,
    {
        let ca = a.get_char(i);
        let cb = b.get_char(i);
        proof {
            assert(a@.skip(i as int).first() == a@[i as int]);
            assert(b@.skip(i as int).first() == b@[i as int]);
        }
        if (ca as u32) < (cb as u32) {
            return true;
        }
        if (cb as u32) < (ca as u32) {
            return false;
        }
        proof {
            assert(a@.skip(i as int).drop_first() =~= a@.skip(i as int + 1));
            assert(b@.skip(i as int).drop_first() =~= b@.skip(i as int + 1));
        }
        i = i + 1;
    }
    proof {
        if i >= na {
            assert(a@.skip(i as int).len() == 0);
        } else {
            assert(b@.skip(i as int).len() == 0);
            assert(a@.skip(i as int).len() > 0);
        }
    }
    i >= na
}

/// The order the sort establishes: by path when `lexicographic_sort` is
/// set, else by descending aggregated size.
pub open spec fn child_le(t: FileTree, lexicographic_sort: bool, a: Seq<char>, b: Seq<char>) -> bool {
    if lexicographic_sort {
        lex_le(a, b)
    } else {
        view_size(t.model()[b]) <= view_size(t.model()[a])
    }
}

proof fn lemma_child_le_total(t: FileTree, lex: bool, a: Seq<char>, b: Seq<char>)
    ensures
        child_le(t, lex, a, b) || child_le(t, lex, b, a),
{
    if lex {
        lemma_lex_le_total(a, b);
    }
}

proof fn lemma_child_le_trans(t: FileTree, lex: bool, a: Seq<char>, b: Seq<char>, c: Seq<char>)
    requires
        child_le(t, lex, a, b),
        child_le(t, lex, b, c),
    ensures
        child_le(t, lex, a, c),
{
    if lex {
        lemma_lex_le_trans(a, b, c);
    }
}

/// Where the insertion sort puts `x` into the already sorted `s`: after
/// every element that comes weakly before it, so an element of equal rank
/// that arrived earlier stays earlier.
pub open spec fn spec_insert_pos(t: FileTree, lex: bool, s: Seq<String>, x: String) -> int
    decreases s.len(),
{
    if s.len() == 0 {
        0
    } else if !child_le(t, lex, s.first()@, x@) {
        0
    } else {
        1 + spec_insert_pos(t, lex, s.drop_first(), x)
    }
}

/// One insertion-sort step.
pub open spec fn insert_sorted(t: FileTree, lex: bool, s: Seq<String>, x: String) -> Seq<String> {
    s.insert(spec_insert_pos(t, lex, s, x), x)
}

/// The sort's exact result: the children taken front to back, each placed
/// after all earlier children of lower or equal rank. Ties therefore keep
/// their discovery order — the sort is stable.
pub open spec fn sorted_children(t: FileTree, lex: bool, s: Seq<String>) -> Seq<String>
    decreases s.len(),
{
    if s.len() == 0 {
        seq![]
    } else {
        insert_sorted(t, lex, sorted_children(t, lex, s.drop_last()), s.last())
    }
}

/// `spec_insert_pos` seen through the paths alone.
pub open spec fn view_insert_pos(t: FileTree, lex: bool, s: Seq<Seq<char>>, x: Seq<char>) -> int
    decreases s.len(),
{
    if s.len() == 0 {
        0
    } else if !child_le(t, lex, s.first(), x) {
        0
    } else {
        1 + view_insert_pos(t, lex, s.drop_first(), x)
    }
}

/// `sorted_children` seen through the paths alone.
pub open spec fn sorted_views(t: FileTree, lex: bool, s: Seq<Seq<char>>) -> Seq<Seq<char>>
    decreases s.len(),
{
    if s.len() == 0 {
        seq![]
    } else {
        let front = sorted_views(t, lex, s.drop_last());
        front.insert(view_insert_pos(t, lex, front, s.last()), s.last())
    }
}

proof fn lemma_insert_pos_range(t: FileTree, lex: bool, s: Seq<String>, x: String)
    ensures
        0 <= spec_insert_pos(t, lex, s, x) <= s.len(),
    decreases s.len(),
{
    if s.len() > 0 && child_le(t, lex, s.first()@, x@) {
        lemma_insert_pos_range(t, lex, s.drop_first(), x);
    }
}

proof fn lemma_view_insert_pos(t: FileTree, lex: bool, s: Seq<String>, x: String)
    ensures
        spec_insert_pos(t, lex, s, x) == view_insert_pos(t, lex, str_views(s), x@),
    decreases s.len(),
{
    if s.len() > 0 {
        lemma_view_insert_pos(t, lex, s.drop_first(), x);
        assert(str_views(s).first() == s.first()@);
        assert(str_views(s.drop_first()) =~= str_views(s).drop_first());
    }
}

/// The order the sort gives depends on the paths alone: the views of the
/// sorted children are the sorted views of the children.
pub(crate) proof fn lemma_sorted_children_views(t: FileTree, lex: bool, s: Seq<String>)
    ensures
        str_views(sorted_children(t, lex, s)) == sorted_views(t, lex, str_views(s)),
    decreases s.len(),
{
    if s.len() > 0 {
        lemma_sorted_children_views(t, lex, s.drop_last());
        let front = sorted_children(t, lex, s.drop_last());
        let x = s.last();
        let k = spec_insert_pos(t, lex, front, x);
        lemma_view_insert_pos(t, lex, front, x);
        lemma_insert_pos_range(t, lex, front, x);
        assert(str_views(s.drop_last()) =~= str_views(s).drop_last());
        assert(str_views(s).last() == x@);
        assert(str_views(front.insert(k, x)) =~= str_views(front).insert(k, x@));
    }
}

fn child_before(file_tree: &FileTree, lexicographic_sort: bool, a: &String, b: &String) -> (r:
    bool)
    requires
        file_tree.wf(),
        !lexicographic_sort ==> file_tree.model().contains_key(a@)
            && file_tree.model().contains_key(b@),
    ensures
        r == child_le(*file_tree, lexicographic_sort, a@, b@),
{
    if lexicographic_sort {
        str_le(a.as_str(), b.as_str())
    } else {
        let sa = match file_tree.get_size(a) {
            Some(s) => s,
            None => {
                proof {
                    assert(false);
                }
                Size(0)
            },
        };
        let sb = match file_tree.get_size(b) {
            Some(s) => s,
            None => {
                proof {
                    assert(false);
                }
                Size(0)
            },
        };
        sb.0 <= sa.0
    }
}

#[verifier::loop_isolation(false)]
fn insert_pos(
    out: &Vec<String>,
    x: &String,
    file_tree: &FileTree,
    lexicographic_sort: bool,
) -> (pos: usize)
    requires
        file_tree.wf(),
        !lexicographic_sort ==> file_tree.model().contains_key(x@) && forall|k: int|
            0 <= k < out@.len() ==> file_tree.model().contains_key((#[trigger] out@[k])@),
    ensures
        pos <= out@.len(),
        pos == spec_insert_pos(*file_tree, lexicographic_sort, out@, *x),
        forall|k: int|
            0 <= k < pos ==> child_le(*file_tree, lexicographic_sort, (#[trigger] out@[k])@, x@),
        pos < out@.len() ==> child_le(*file_tree, lexicographic_sort, x@, out@[pos as int]@),
{
    proof {
        assert(out@.skip(0) =~= out@);
    }
    let m = out.len();
    let mut pos: usize = 0;
    while pos < m
        invariant
            pos <= m,
            forall|k: int|
                0 <= k < pos ==> child_le(
                    *file_tree,
                    lexicographic_sort,
                    (#[trigger] out@[k])@,
                    x@,
                ),
            spec_insert_pos(*file_tree, lexicographic_sort, out@, *x) == pos + spec_insert_pos(
                *file_tree,
                lexicographic_sort,
                out@.skip(pos as int),
                *x,
            ),
        decreases m - pos,
    {
        proof {
            assert(out@.skip(pos as int).first() == out@[pos as int]);
        }
        if !child_before(file_tree, lexicographic_sort, &out[pos], x) {
            proof {
                lemma_child_le_total(*file_tree, lexicographic_sort, out@[pos as int]@, x@);
            }
            return pos;
        }
        proof {
            assert(out@.skip(pos as int).drop_first() =~= out@.skip(pos as int + 1));
        }
        pos = pos + 1;
    }
    proof {
        assert(out@.skip(pos as int).len() == 0);
    }
    pos
}

/// Sort a directory's children in place: lexicographically by path, or by
/// descending aggregated size, as the flag asks. The same paths come back
/// in exactly the order `sorted_children` gives: sorted, with equal-rank
/// paths keeping their discovery order.
#[verifier::loop_isolation(false)]
pub fn sort_children(children: &mut Vec<String>, file_tree: &FileTree, lexicographic_sort: bool)
    requires
        file_tree.wf(),
        !lexicographic_sort ==> forall|k: int|
            0 <= k < old(children)@.len() ==> file_tree.model().contains_key(
                (#[trigger] old(children)@[k])@,
            ),
    ensures
        final(children)@ == sorted_children(*file_tree, lexicographic_sort, old(children)@),
        final(children)@.to_multiset() == old(children)@.to_multiset(),
        forall|x: int, y: int|
            0 <= x < y < final(children)@.len() ==> child_le(
                *file_tree,
                lexicographic_sort,
                (#[trigger] final(children)@[x])@,
                (#[trigger] final(children)@[y])@,
            ),
{
    broadcast use vstd::seq_lib::group_to_multiset_ensures;

    let mut out: Vec<String> = Vec::new();
    let ghost mut i: int = 0;
    proof {
        assert(out@.to_multiset().add(children@.to_multiset()) =~= children@.to_multiset());
        assert(children@ =~= old(children)@.skip(0));
        assert(out@ =~= sorted_children(
            *file_tree,
            lexicographic_sort,
            old(children)@.take(0),
        ));
    }
    while children.len() > 0
        invariant
            0 <= i <= old(children)@.len(),
            children@ == old(children)@.skip(i),
            out@ == sorted_children(*file_tree, lexicographic_sort, old(children)@.take(i)),
            out@.to_multiset().add(children@.to_multiset()) == old(children)@.to_multiset(),
            !lexicographic_sort ==> forall|k: int|
                0 <= k < children@.len() ==> file_tree.model().contains_key(
                    (#[trigger] children@[k])@,
                ),
            !lexicographic_sort ==> forall|k: int|
                0 <= k < out@.len() ==> file_tree.model().contains_key((#[trigger] out@[k])@),
            forall|x: int, y: int|
                0 <= x < y < out@.len() ==> child_le(
                    *file_tree,
                    lexicographic_sort,
                    (#[trigger] out@[x])@,
                    (#[trigger] out@[y])@,
                ),
        decreases children@.len(),
    {
        let ghost kids_pre = children@;
        {
            // Take the children front to back, so that two of equal rank
            // keep their discovery order.
            let x = children.remove(0);
            {
                let ghost out_pre = out@;
                let ghost xg = x;
                proof {
                    assert(xg == kids_pre[0]);
                    assert(children@ =~= kids_pre.drop_first());
                    assert(kids_pre =~= seq![xg] + children@);
                    vstd::seq_lib::lemma_multiset_commutative(seq![xg], children@);
                    assert(seq![xg].to_multiset() =~= Multiset::empty().insert(xg)) by {
                        assert(seq![xg] =~= Seq::<String>::empty().push(xg));
                        assert(Seq::<String>::empty().to_multiset() =~= Multiset::empty()) by {
                            assert forall|e: String|
                                #[trigger] Seq::<String>::empty().to_multiset().count(e)
                                    == 0 by {
                                assert(!Seq::<String>::empty().contains(e));
                            }
                        }
                    }
                }
                let pos = insert_pos(&out, &x, file_tree, lexicographic_sort);
                out.insert(pos, x);
                proof {
                    // This step is exactly one fold step of `sorted_children`.
                    assert(xg == old(children)@[i]);
                    assert(children@ =~= old(children)@.skip(i + 1));
                    assert(old(children)@.take(i + 1).drop_last() =~= old(children)@.take(i));
                    assert(old(children)@.take(i + 1).last() == old(children)@[i]);
                    assert(out@ == insert_sorted(*file_tree, lexicographic_sort, out_pre, xg));
                    assert(out@ == sorted_children(
                        *file_tree,
                        lexicographic_sort,
                        old(children)@.take(i + 1),
                    ));
                    i = i + 1;
                    assert(out@.to_multiset().add(children@.to_multiset()) =~= out_pre.to_multiset(
                    ).add(kids_pre.to_multiset()));
                    assert forall|a: int, b: int|
                        0 <= a < b < out@.len() implies child_le(
                        *file_tree,
                        lexicographic_sort,
                        (#[trigger] out@[a])@,
                        (#[trigger] out@[b])@,
                    ) by {
                        if a < pos && b == pos {
                        } else if a == pos && b > pos {
                            if b == pos + 1 {
                                assert(out@[b] == out_pre[pos as int]);
                            } else {
                                assert(child_le(
                                    *file_tree,
                                    lexicographic_sort,
                                    out_pre[pos as int]@,
                                    out_pre[b - 1]@,
                                ));
                                lemma_child_le_trans(
                                    *file_tree,
                                    lexicographic_sort,
                                    xg@,
                                    out_pre[pos as int]@,
                                    out_pre[b - 1]@,
                                );
                            }
                        } else if a < pos && b > pos {
                            assert(out@[a] == out_pre[a]);
                            assert(out@[b] == out_pre[b - 1]);
                        } else {
                        }
                    }
                }
            }
        }
    }
    proof {
        assert(children@.to_multiset() =~= Multiset::empty());
        assert(out@.to_multiset().add(Multiset::empty()) =~= out@.to_multiset());
        assert(i == old(children)@.len());
        assert(old(children)@.take(i) =~= old(children)@);
    }
    *children = out;
}

/// The children whose file name carries `ext`, in the order given.
pub open spec fn matching_children(cs: Seq<String>, ext: Seq<char>) -> Seq<String>
    decreases cs,
{
    if cs.len() == 0 {
        seq![]
    } else {
        matching_children(cs.drop_last(), ext) + (if has_matching_extension(cs.last()@, ext) {
            seq![cs.last()]
        } else {
            seq![]
        })
    }
}

/// Keep the children whose file name carries the extension, and hand them
/// back sorted as the flag asks.
#[verifier::loop_isolation(false)]
pub fn filter_children(
    file_tree: &FileTree,
    children: Vec<String>,
    filter_extension: &String,
    lexicographic_sort: bool,
) -> (r: Vec<String>)
    requires
        file_tree.wf(),
        !lexicographic_sort ==> forall|k: int|
            0 <= k < children@.len() ==> file_tree.model().contains_key(
                (#[trigger] children@[k])@,
            ),
    ensures
        r@.to_multiset() == matching_children(children@, filter_extension@).to_multiset(),
        forall|x: int, y: int|
            0 <= x < y < r@.len() ==> child_le(
                *file_tree,
                lexicographic_sort,
                (#[trigger] r@[x])@,
                (#[trigger] r@[y])@,
            ),
{
    broadcast use vstd::seq_lib::group_to_multiset_ensures;

    let ghost orig = children@;
    let mut rest = children;
    let mut kept: Vec<String> = Vec::new();
    proof {
        assert(kept@.to_multiset().add(matching_children(rest@, filter_extension@).to_multiset())
            =~= matching_children(orig, filter_extension@).to_multiset());
    }
    while rest.len() > 0
        invariant
            !lexicographic_sort ==> forall|k: int|
                0 <= k < rest@.len() ==> file_tree.model().contains_key((#[trigger] rest@[k])@),
            !lexicographic_sort ==> forall|k: int|
                0 <= k < kept@.len() ==> file_tree.model().contains_key((#[trigger] kept@[k])@),
            kept@.to_multiset().add(matching_children(rest@, filter_extension@).to_multiset())
                == matching_children(orig, filter_extension@).to_multiset(),
        decreases rest@.len(),
    {
        let ghost rest_pre = rest@;
        match rest.pop() {
            Option::None => {
                proof {
                    assert(false);
                }
            },
            Option::Some(x) => {
                let ghost kept_pre = kept@;
                proof {
                    assert(rest_pre == rest@.push(x));
                    assert(matching_children(rest_pre, filter_extension@) == matching_children(
                        rest@,
                        filter_extension@,
                    ) + (if has_matching_extension(x@, filter_extension@) {
                        seq![x]
                    } else {
                        seq![]
                    })) by {
                        assert(rest_pre.drop_last() =~= rest@);
                        assert(rest_pre.last() == x);
                    }
                }
                if filter_child(&x, filter_extension) {
                    kept.push(x);
                    proof {
                        vstd::seq_lib::lemma_multiset_commutative(
                            matching_children(rest@, filter_extension@),
                            seq![x],
                        );
                        assert(seq![x].to_multiset() =~= Multiset::empty().insert(x)) by {
                            assert(seq![x] =~= Seq::<String>::empty().push(x));
                            assert(Seq::<String>::empty().to_multiset() =~= Multiset::empty())
                                by {
                                assert forall|e: String|
                                    #[trigger] Seq::<String>::empty().to_multiset().count(e)
                                        == 0 by {
                                    assert(!Seq::<String>::empty().contains(e));
                                }
                            }
                        }
                        assert(kept@.to_multiset().add(
                            matching_children(rest@, filter_extension@).to_multiset(),
                        ) =~= kept_pre.to_multiset().add(
                            matching_children(rest_pre, filter_extension@).to_multiset(),
                        ));
                    }
                } else {
                    proof {
                        assert(matching_children(rest_pre, filter_extension@) =~= matching_children(
                            rest@,
                            filter_extension@,
                        ));
                    }
                }
            },
        }
    }
    proof {
        assert(matching_children(rest@, filter_extension@) =~= Seq::<String>::empty());
        assert(matching_children(rest@, filter_extension@).to_multiset() =~= Multiset::empty());
        assert(kept@.to_multiset().add(Multiset::empty()) =~= kept@.to_multiset());
    }
    sort_children(&mut kept, file_tree, lexicographic_sort);
    kept
}

/// The groups as a filtered display shows them: each group reduced to the
/// members that carry the extension, groups left with no member dropped.
pub open spec fn filtered_groups(gs: Seq<Vec<String>>, ext: Seq<char>) -> Seq<Seq<String>>
    decreases gs,
{
    if gs.len() == 0 {
        seq![]
    } else {
        filtered_groups(gs.drop_last(), ext) + (if matching_children(gs.last()@, ext).len() > 0 {
            seq![matching_children(gs.last()@, ext)]
        } else {
            seq![]
        })
    }
}

/// Reduce duplicate groups to the members that carry the wanted extension,
/// dropping groups that keep no member; with no extension the groups pass
/// through unchanged. Member and group order are kept.
#[verifier::loop_isolation(false)]
pub fn filter_duplicate_groups(
    groups: Vec<Vec<String>>,
    filter_extension: Option<&String>,
) -> (r: Vec<Vec<String>>)
    ensures
        match filter_extension {
            Some(e) => r@.map_values(|v: Vec<String>| v@) == filtered_groups(groups@, e@),
            None => r == groups,
        },
{
    let e = match filter_extension {
        None => {
            return groups;
        },
        Some(e) => e,
    };
    let ghost orig = groups@;
    let mut rest = groups;
    let mut out: Vec<Vec<String>> = Vec::new();
    let ghost mut i: int = 0;
    while rest.len() > 0
        invariant
            rest@ == orig.skip(i),
            0 <= i <= orig.len(),
            out@.map_values(|v: Vec<String>| v@) == filtered_groups(orig.take(i), e@),
        decreases rest@.len(),
    {
        let g = rest.remove(0);
        proof {
            assert(orig.skip(i)[0] == orig[i]);
            assert(g == orig[i]);
            assert(rest@ =~= orig.skip(i + 1));
        }
        let ghost gorig = g@;
        let mut gr = g;
        let mut kept: Vec<String> = Vec::new();
        let ghost mut j: int = 0;
        while gr.len() > 0
            invariant
                gr@ == gorig.skip(j),
                0 <= j <= gorig.len(),
                kept@ == matching_children(gorig.take(j), e@),
            decreases gr@.len(),
        {
            let x = gr.remove(0);
            proof {
                assert(gorig.skip(j)[0] == gorig[j]);
                assert(x == gorig[j]);
                assert(gr@ =~= gorig.skip(j + 1));
                assert(gorig.take(j + 1).drop_last() =~= gorig.take(j));
                assert(gorig.take(j + 1).last() == gorig[j]);
            }
            if filter_child(&x, e) {
                kept.push(x);
                proof {
                    assert(kept@ =~= matching_children(gorig.take(j + 1), e@));
                }
            } else {
                proof {
                    assert(kept@ =~= matching_children(gorig.take(j + 1), e@));
                }
            }
            proof {
                j = j + 1;
            }
        }
        proof {
            assert(gorig.take(gorig.len() as int) =~= gorig);
            assert(orig.take(i + 1).drop_last() =~= orig.take(i));
            assert(orig.take(i + 1).last() == orig[i]);
        }
        let ghost out_pre = out@;
        if kept.len() > 0 {
            out.push(kept);
            proof {
                assert(out@.map_values(|v: Vec<String>| v@) =~= filtered_groups(
                    orig.take(i + 1),
                    e@,
                ));
            }
        } else {
            proof {
                assert(out@.map_values(|v: Vec<String>| v@) =~= filtered_groups(
                    orig.take(i + 1),
                    e@,
                ));
            }
        }
        proof {
            i = i + 1;
        }
    }
    proof {
        assert(orig.skip(i).len() == 0);
        assert(i == orig.len());
        assert(orig.take(i) =~= orig);
    }
    out
}

} // verus!
