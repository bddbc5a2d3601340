//! The ordered sequence: the root, then below each directory its children
//! in sibling order, each followed at once by its own subtree; with the
//! laws that this sequence obeys.
use vstd::prelude::*;
use vstd::relations::sorted_by;
use crate::entry::EntryView;
use crate::order::{lemma_sibling_leq_total, sibling_leq};

verus! {

/// Position `j` of `es` is a member of the sibling group under path `p`.
pub open spec fn in_group(es: Seq<EntryView>, p: Seq<Seq<u8>>, j: int) -> bool {
    &&& es[j].depth != 0
    &&& es[j].has_parent()
    &&& es[j].parent() == p
}

/// The members of the sibling group under `p` among the first `n`
/// positions of `es`, in input order.
pub open spec fn group_upto(es: Seq<EntryView>, p: Seq<Seq<u8>>, n: nat) -> Seq<usize>
    decreases n,
{
    if n == 0 {
        Seq::empty()
    } else {
        let g = group_upto(es, p, (n - 1) as nat);
        if in_group(es, p, n - 1) {
            g.push((n - 1) as usize)
        } else {
            g
        }
    }
}

/// The sibling group under `p`: positions of the entries whose parent is `p`.
pub open spec fn sibling_group(es: Seq<EntryView>, p: Seq<Seq<u8>>) -> Seq<usize> {
    group_upto(es, p, es.len())
}

/// The sibling group under `p`, in sibling order.
pub open spec fn ordered_group(es: Seq<EntryView>, by_time: bool, p: Seq<Seq<u8>>) -> Seq<usize> {
    sibling_group(es, p).sort_by(sibling_leq(es, by_time))
}

/// The length of the longest path in `es`.
pub open spec fn max_path_len(es: Seq<EntryView>) -> nat
    decreases es.len(),
{
    if es.len() == 0 {
        0
    } else {
        let m = max_path_len(es.drop_last());
        if es.last().path.len() > m {
            es.last().path.len()
        } else {
            m
        }
    }
}

pub proof fn lemma_max_path_len(es: Seq<EntryView>, j: int)
    requires
        0 <= j < es.len(),
    ensures
        es[j].path.len() <= max_path_len(es),
    decreases es.len(),
{
    if j < es.len() - 1 {
        lemma_max_path_len(es.drop_last(), j);
    }
}

pub proof fn lemma_group_upto_members(es: Seq<EntryView>, p: Seq<Seq<u8>>, n: nat)
    requires
        n <= es.len() <= usize::MAX,
    ensures
        forall|k: int| 0 <= k < group_upto(es, p, n).len() ==> {
            let j = #[trigger] group_upto(es, p, n)[k];
            j < n && in_group(es, p, j as int)
        },
    decreases n,
{
    if n > 0 {
        let m = (n - 1) as nat;
        lemma_group_upto_members(es, p, m);
        let g = group_upto(es, p, m);
        assert forall|k: int| 0 <= k < group_upto(es, p, n).len() implies {
            let j = #[trigger] group_upto(es, p, n)[k];
            j < n && in_group(es, p, j as int)
        } by {
            if k < g.len() {
                assert(group_upto(es, p, n)[k] == g[k]);
            }
        }
    }
}

/// A member of the ordered group under `p` is a child of `p` whose path is
/// no longer than the longest one.
pub proof fn lemma_ordered_member(es: Seq<EntryView>, by_time: bool, p: Seq<Seq<u8>>, i: int)
    requires
        es.len() <= usize::MAX,
        0 <= i < ordered_group(es, by_time, p).len(),
    ensures
        ({
            let c = ordered_group(es, by_time, p)[i] as int;
            &&& 0 <= c < es.len()
            &&& in_group(es, p, c)
            &&& es[c].path.len() == p.len() + 1
            &&& es[c].path.len() <= max_path_len(es)
        }),
{
    let g = sibling_group(es, p);
    let leq = sibling_leq(es, by_time);
    lemma_sibling_leq_total(es, by_time);
    g.lemma_sort_by_ensures(leq);
    let c = ordered_group(es, by_time, p)[i];
    assert(g.sort_by(leq).contains(c));
    lemma_group_upto_members(es, p, es.len());
    let k = choose|k: int| 0 <= k < g.len() && g[k] == c;
    assert(in_group(es, p, c as int));
    lemma_max_path_len(es, c as int);
}

/// The positions emitted below the directory at path `p`: each child in
/// sibling order, followed at once by its own subtree when it is a directory.
pub open spec fn emit_below(es: Seq<EntryView>, by_time: bool, p: Seq<Seq<u8>>) -> Seq<usize>
    decreases max_path_len(es) - p.len(), 1int, 0int
    when es.len() <= usize::MAX
{
    emit_from(es, by_time, p, 0)
}

/// The positions emitted for the members of the ordered group under `p`
/// from its `i`-th member on.
pub open spec fn emit_from(es: Seq<EntryView>, by_time: bool, p: Seq<Seq<u8>>, i: nat) -> Seq<usize>
    decreases max_path_len(es) - p.len(), 0int, ordered_group(es, by_time, p).len() - i
    when es.len() <= usize::MAX
{
    let g = ordered_group(es, by_time, p);
    if i >= g.len() {
        Seq::empty()
    } else {
        let c = g[i as int];
        proof {
            lemma_ordered_member(es, by_time, p, i as int);
        }
        let below = if es[c as int].is_dir() {
            emit_below(es, by_time, es[c as int].path)
        } else {
            Seq::empty()
        };
        seq![c] + below + emit_from(es, by_time, p, i + 1)
    }
}

/// The first position of a root (depth 0) among the first `n` positions.
pub open spec fn root_upto(es: Seq<EntryView>, n: nat) -> Option<nat>
    decreases n,
{
    if n == 0 {
        None
    } else {
        match root_upto(es, (n - 1) as nat) {
            Some(r) => Some(r),
            None => if es[n - 1].depth == 0 {
                Some((n - 1) as nat)
            } else {
                None
            },
        }
    }
}

/// The first position of a root in `es`.
pub open spec fn first_root(es: Seq<EntryView>) -> Option<nat> {
    root_upto(es, es.len())
}

pub proof fn lemma_root_upto_stable(es: Seq<EntryView>, n: nat, m: nat)
    requires
        n <= m,
        root_upto(es, n) is Some,
    ensures
        root_upto(es, m) == root_upto(es, n),
    decreases m - n,
{
    if n < m {
        lemma_root_upto_stable(es, n, (m - 1) as nat);
    }
}

/// The entries at the given positions.
pub open spec fn pick(es: Seq<EntryView>, ps: Seq<usize>) -> Seq<EntryView> {
    ps.map_values(|k: usize| es[k as int])
}

/// The ordered sequence, as positions in `es`: the first root, then what is
/// emitted below it. `None` when there is no root.
pub open spec fn assembled(es: Seq<EntryView>, by_time: bool) -> Option<Seq<usize>> {
    match first_root(es) {
        Some(r) => Some(seq![r as usize] + emit_below(es, by_time, es[r as int].path)),
        None => None,
    }
}

/// The ordered sequence of entries assembled from `es`.
pub open spec fn ordered_sequence(es: Seq<EntryView>, by_time: bool) -> Option<Seq<EntryView>> {
    match assembled(es, by_time) {
        Some(ps) => Some(pick(es, ps)),
        None => None,
    }
}

pub proof fn lemma_pick_add(es: Seq<EntryView>, a: Seq<usize>, b: Seq<usize>)
    ensures
        pick(es, a + b) == pick(es, a) + pick(es, b),
{
    assert(pick(es, a + b) =~= pick(es, a) + pick(es, b));
}

/// Every position emitted below `p` (from the `i`-th member of its group on)
/// is a position of `es` whose entry is not a root and lies below `p`.
pub proof fn lemma_emitted_below(es: Seq<EntryView>, by_time: bool, p: Seq<Seq<u8>>, i: nat)
    requires
        es.len() <= usize::MAX,
    ensures
        forall|k: int| 0 <= k < emit_from(es, by_time, p, i).len() ==> {
            let c = #[trigger] emit_from(es, by_time, p, i)[k] as int;
            &&& 0 <= c < es.len()
            &&& es[c].depth != 0
            &&& descends(es[c].path, p)
        },
    decreases max_path_len(es) - p.len(), 0int, ordered_group(es, by_time, p).len() - i,
{
    let g = ordered_group(es, by_time, p);
    if i < g.len() {
        let c = g[i as int];
        lemma_ordered_member(es, by_time, p, i as int);
        let below = if es[c as int].is_dir() {
            emit_below(es, by_time, es[c as int].path)
        } else {
            Seq::empty()
        };
        if es[c as int].is_dir() {
            lemma_emitted_below(es, by_time, es[c as int].path, 0);
        }
        lemma_emitted_below(es, by_time, p, i + 1);
        let s = emit_from(es, by_time, p, i);
        let rest = emit_from(es, by_time, p, i + 1);
        assert(s == seq![c] + below + rest);
        assert forall|k: int| 0 <= k < s.len() implies {
            let d = #[trigger] s[k] as int;
            &&& 0 <= d < es.len()
            &&& es[d].depth != 0
            &&& descends(es[d].path, p)
        } by {
            if k == 0 {
                assert(es[c as int].path.take(p.len() as int) =~= p);
            } else if k < 1 + below.len() {
                let d = below[k - 1] as int;
                assert(s[k] == below[k - 1]);
                lemma_descends_transitive(es[d].path, es[c as int].path, p);
            } else {
                assert(s[k] == rest[k - 1 - below.len()]);
            }
        }
    }
}

/// `path` lies strictly below the directory at `p`.
pub open spec fn descends(path: Seq<Seq<u8>>, p: Seq<Seq<u8>>) -> bool {
    path.len() > p.len() && path.take(p.len() as int) == p
}

proof fn lemma_descends_transitive(a: Seq<Seq<u8>>, b: Seq<Seq<u8>>, c: Seq<Seq<u8>>)
    requires
        descends(a, b),
        descends(b, c),
    ensures
        descends(a, c),
{
    assert(a.take(c.len() as int) =~= b.take(c.len() as int));
}

/// The ordered sequence holds exactly one root, and it comes first.
pub proof fn lemma_single_root_first(es: Seq<EntryView>, by_time: bool)
    requires
        es.len() <= usize::MAX,
    ensures
        ordered_sequence(es, by_time) is Some <==> exists|j: int| 0 <= j < es.len() && es[j].depth == 0,
        ordered_sequence(es, by_time) matches Some(s) ==> {
            &&& s.len() > 0
            &&& s[0].depth == 0
            &&& forall|k: int| 0 < k < s.len() ==> #[trigger] s[k].depth != 0
        },
{
    lemma_root_upto_found(es, es.len());
    if let Some(r) = first_root(es) {
        let below = emit_below(es, by_time, es[r as int].path);
        lemma_emitted_below(es, by_time, es[r as int].path, 0);
        let ps = seq![r as usize] + below;
        let s = pick(es, ps);
        assert forall|k: int| 0 < k < s.len() implies #[trigger] s[k].depth != 0 by {
            assert(ps[k] == below[k - 1]);
        }
    }
}

pub proof fn lemma_root_upto_found(es: Seq<EntryView>, n: nat)
    requires
        n <= es.len(),
    ensures
        root_upto(es, n) is Some <==> exists|j: int| 0 <= j < n && es[j].depth == 0,
        root_upto(es, n) matches Some(r) ==> r < n && es[r as int].depth == 0,
    decreases n,
{
    if n > 0 {
        lemma_root_upto_found(es, (n - 1) as nat);
        if root_upto(es, (n - 1) as nat) is None && es[n - 1].depth != 0 {
            assert forall|j: int| 0 <= j < n implies es[j].depth != 0 by {
                if j < n - 1 {
                    assert(!(0 <= j < n - 1 && es[j].depth == 0));
                }
            }
        }
    }
}

/// Any arrangement of a sibling group that holds the group's members and is
/// sorted by the sibling order is the group's ordered form; so a sequential
/// sort and a parallel sort of a group give the same sequence, and the two
/// assembly variants emit the same ordered sequence.
pub proof fn lemma_sibling_order_unique(es: Seq<EntryView>, by_time: bool, p: Seq<Seq<u8>>, s: Seq<usize>)
    requires
        s.to_multiset() == sibling_group(es, p).to_multiset(),
        sorted_by(s, sibling_leq(es, by_time)),
    ensures
        s == ordered_group(es, by_time, p),
{
    let leq = sibling_leq(es, by_time);
    lemma_sibling_leq_total(es, by_time);
    sibling_group(es, p).lemma_sort_by_ensures(leq);
    vstd::seq_lib::lemma_sorted_unique(s, sibling_group(es, p).sort_by(leq), leq);
}

/// Within a sibling group, in either sort mode, every directory comes before
/// every file and symbolic link.
pub proof fn lemma_dirs_first(es: Seq<EntryView>, by_time: bool, p: Seq<Seq<u8>>, a: int, b: int)
    requires
        0 <= a < b < ordered_group(es, by_time, p).len(),
        es[ordered_group(es, by_time, p)[b] as int].is_dir(),
    ensures
        es[ordered_group(es, by_time, p)[a] as int].is_dir(),
{
    let leq = sibling_leq(es, by_time);
    lemma_sibling_leq_total(es, by_time);
    sibling_group(es, p).lemma_sort_by_ensures(leq);
    let g = ordered_group(es, by_time, p);
    assert(leq(g[a], g[b]));
}

/// Entry `j` of `s` is the parent of entry `i`, which it precedes, and all
/// entries between the two lie below that parent.
pub open spec fn parent_at(s: Seq<EntryView>, i: int, j: int) -> bool {
    &&& 0 <= j < i
    &&& s[j].path == s[i].parent()
    &&& forall|k: int| j < k < i ==> descends(#[trigger] s[k].path, s[j].path)
}

/// Entry `i` of `s` has its parent at some earlier position.
pub open spec fn parent_before(s: Seq<EntryView>, i: int) -> bool {
    exists|j: int| #[trigger] parent_at(s, i, j)
}

/// `s` is in pre-order: every entry but the first has its parent earlier,
/// with only the parent's descendants in between.
pub open spec fn preorder(s: Seq<EntryView>) -> bool {
    forall|i: int| 0 < i < s.len() ==> #[trigger] parent_before(s, i)
}

proof fn lemma_preorder_from(es: Seq<EntryView>, by_time: bool, x: usize, i: nat)
    requires
        es.len() <= usize::MAX,
        0 <= x < es.len(),
    ensures
        preorder(pick(es, seq![x] + emit_from(es, by_time, es[x as int].path, i))),
    decreases max_path_len(es) - es[x as int].path.len(), 0int, ordered_group(es, by_time, es[x as int].path).len() - i,
{
    let p = es[x as int].path;
    let g = ordered_group(es, by_time, p);
    let whole = pick(es, seq![x] + emit_from(es, by_time, p, i));
    if i < g.len() {
        let c = g[i as int];
        lemma_ordered_member(es, by_time, p, i as int);
        let below = if es[c as int].is_dir() {
            emit_below(es, by_time, es[c as int].path)
        } else {
            Seq::empty()
        };
        let rest = emit_from(es, by_time, p, i + 1);
        assert(es[c as int].path.take(p.len() as int) =~= p);
        if es[c as int].is_dir() {
            lemma_preorder_from(es, by_time, c, 0);
            lemma_emitted_below(es, by_time, es[c as int].path, 0);
        }
        lemma_preorder_from(es, by_time, x, i + 1);
        let u = pick(es, seq![c] + below);
        let t = pick(es, seq![x] + rest);
        let n = below.len() as int;
        assert(seq![x] + emit_from(es, by_time, p, i) == seq![x] + (seq![c] + below) + rest);
        assert(whole =~= pick(es, seq![x]) + u + pick(es, rest)) by {
            lemma_pick_add(es, seq![x] + (seq![c] + below), rest);
            lemma_pick_add(es, seq![x], seq![c] + below);
        }
        assert(preorder(u)) by {
            if !es[c as int].is_dir() {
                assert(u.len() == 1);
            }
        }
        assert forall|k: int| 0 < k < whole.len() implies #[trigger] parent_before(whole, k) by {
            if k == 1 {
                assert(parent_at(whole, 1, 0));
            } else if k <= n + 1 {
                assert(parent_before(u, k - 1));
                let j = choose|j: int| #[trigger] parent_at(u, k - 1, j);
                assert forall|m: int| j + 1 < m < k implies descends(#[trigger] whole[m].path, whole[j + 1].path) by {
                    assert(whole[m] == u[m - 1]);
                }
                assert(parent_at(whole, k, j + 1));
            } else {
                let kt = k - n - 1;
                assert(whole[k] == t[kt]);
                assert(parent_before(t, kt));
                let j = choose|j: int| #[trigger] parent_at(t, kt, j);
                if j == 0 {
                    assert forall|m: int| 0 < m < k implies descends(#[trigger] whole[m].path, whole[0].path) by {
                        if m == 1 {
                        } else if m <= n + 1 {
                            let d = below[m - 2] as int;
                            assert(whole[m] == es[d]);
                            lemma_descends_transitive(es[d].path, es[c as int].path, p);
                        } else {
                            assert(whole[m] == t[m - n - 1]);
                        }
                    }
                    assert(parent_at(whole, k, 0));
                } else {
                    assert forall|m: int| j + n + 1 < m < k implies descends(#[trigger] whole[m].path, whole[j + n + 1].path) by {
                        assert(whole[m] == t[m - n - 1]);
                    }
                    assert(whole[j + n + 1] == t[j]);
                    assert(parent_at(whole, k, j + n + 1));
                }
            }
        }
    } else {
        assert(whole.len() == 1);
    }
}

/// The ordered sequence is in pre-order: every entry after the root has its
/// parent earlier, and only that parent's descendants stand between them.
pub proof fn lemma_preorder(es: Seq<EntryView>, by_time: bool)
    requires
        es.len() <= usize::MAX,
    ensures
        ordered_sequence(es, by_time) matches Some(s) ==> preorder(s),
{
    lemma_root_upto_found(es, es.len());
    if let Some(r) = first_root(es) {
        lemma_preorder_from(es, by_time, r as usize, 0);
    }
}

} // verus!
