//! The JSON document of an ordered sequence holds the same entries, nested
//! as the sequence emitted them.
use vstd::prelude::*;
use crate::entry::EntryView;
use crate::formatter::{json_children, json_tree, node_of, NodeView};
use crate::order::{lemma_sibling_leq_total, sibling_leq};
use crate::assembly::{
    descends, emit_below, emit_from, first_root, group_upto, in_group, lemma_emitted_below,
    lemma_ordered_member, lemma_root_upto_found, lemma_root_upto_stable, max_path_len, ordered_group,
    ordered_sequence, pick, root_upto, sibling_group,
};

verus! {

broadcast use vstd::seq::Seq::filter_distributes_over_add;

/// The entries have distinct paths, and an entry whose parent is the path of
/// another entry stands one level below it.
pub open spec fn well_formed_walk(es: Seq<EntryView>) -> bool {
    &&& forall|i: int, j: int| 0 <= i < es.len() && 0 <= j < es.len() && i != j ==> es[i].path != es[j].path
    &&& forall|i: int, j: int|
        0 <= i < es.len() && 0 <= j < es.len() && es[j].has_parent() && #[trigger] es[j].parent() == #[trigger] es[i].path
            ==> es[j].depth == es[i].depth + 1
}

/// Entry `e` stands at `depth` and its parent is `p`.
pub open spec fn child_at(e: EntryView, p: Seq<Seq<u8>>, depth: nat) -> bool {
    e.depth == depth && e.has_parent() && e.parent() == p
}

/// The positions whose entry stands at `depth` below `p`.
pub open spec fn child_pos(es: Seq<EntryView>, p: Seq<Seq<u8>>, depth: nat) -> spec_fn(usize) -> bool {
    |k: usize| child_at(es[k as int], p, depth)
}

/// The node that the document builder makes of entry `e` standing at `depth`.
pub open spec fn node_in(es: Seq<EntryView>, e: EntryView, depth: nat) -> NodeView {
    node_of(
        e,
        e.is_dir(),
        if e.is_dir() {
            json_children(es, e.path, depth + 1, es.len())
        } else {
            Seq::empty()
        },
    )
}

/// The paths of a node and of all its descendants, in pre-order.
pub open spec fn flat(n: NodeView) -> Seq<Seq<char>>
    decreases n,
{
    seq![n.path] + flat_list(n.children, n.children.len() as int)
}

/// The pre-order paths of the first `k` nodes of `s` and their descendants.
pub open spec fn flat_list(s: Seq<NodeView>, k: int) -> Seq<Seq<char>>
    decreases s, k,
{
    if k <= 0 || k > s.len() {
        Seq::empty()
    } else {
        flat_list(s, k - 1) + flat(s[k - 1])
    }
}

/// The displayed paths of a sequence of entries.
pub open spec fn displays(s: Seq<EntryView>) -> Seq<Seq<char>> {
    s.map_values(|e: EntryView| e.display)
}

proof fn lemma_json_children_filter(es: Seq<EntryView>, p: Seq<Seq<u8>>, depth: nat, n: nat)
    requires
        n <= es.len(),
    ensures
        json_children(es, p, depth, n) == es.take(n as int).filter(|e: EntryView| child_at(e, p, depth)).map_values(
            |e: EntryView| node_in(es, e, depth),
        ),
    decreases n,
{
    reveal(Seq::filter);
    let f = |e: EntryView| child_at(e, p, depth);
    if n > 0 {
        lemma_json_children_filter(es, p, depth, (n - 1) as nat);
        assert(es.take(n as int).drop_last() =~= es.take(n - 1));
        let prev = es.take(n - 1).filter(f);
        if f(es[n - 1]) {
            assert(es.take(n as int).filter(f) == prev.push(es[n - 1]));
            assert(prev.push(es[n - 1]).map_values(|e: EntryView| node_in(es, e, depth)) =~= prev.map_values(
                |e: EntryView| node_in(es, e, depth),
            ).push(node_in(es, es[n - 1], depth)));
        }
    } else {
        assert(es.take(0).filter(f) =~= Seq::<EntryView>::empty());
    }
}

proof fn lemma_pick_filter(es: Seq<EntryView>, ps: Seq<usize>, p: Seq<Seq<u8>>, depth: nat)
    ensures
        pick(es, ps).filter(|e: EntryView| child_at(e, p, depth)) == pick(es, ps.filter(child_pos(es, p, depth))),
    decreases ps.len(),
{
    reveal(Seq::filter);
    if ps.len() > 0 {
        lemma_pick_filter(es, ps.drop_last(), p, depth);
        assert(pick(es, ps).drop_last() =~= pick(es, ps.drop_last()));
        let fp = ps.drop_last().filter(child_pos(es, p, depth));
        assert(pick(es, fp.push(ps.last())) =~= pick(es, fp).push(es[ps.last() as int]));
    } else {
        assert(pick(es, ps) =~= Seq::<EntryView>::empty());
    }
}

proof fn lemma_filter_none(ps: Seq<usize>, f: spec_fn(usize) -> bool)
    requires
        forall|k: int| 0 <= k < ps.len() ==> !f(#[trigger] ps[k]),
    ensures
        ps.filter(f) == Seq::<usize>::empty(),
    decreases ps.len(),
{
    reveal(Seq::filter);
    if ps.len() > 0 {
        lemma_filter_none(ps.drop_last(), f);
    }
}

proof fn lemma_group_increasing(es: Seq<EntryView>, p: Seq<Seq<u8>>, n: nat)
    requires
        n <= es.len() <= usize::MAX,
    ensures
        group_upto(es, p, n).no_duplicates(),
        forall|k: int| 0 <= k < group_upto(es, p, n).len() ==> #[trigger] group_upto(es, p, n)[k] < n,
    decreases n,
{
    if n > 0 {
        lemma_group_increasing(es, p, (n - 1) as nat);
        let g = group_upto(es, p, (n - 1) as nat);
        if in_group(es, p, n - 1) {
            let x = (n - 1) as usize;
            assert forall|a: int, b: int| 0 <= a < g.push(x).len() && 0 <= b < g.push(x).len() && a != b implies g.push(x)[a] != g.push(x)[b] by {
                if a < g.len() && b < g.len() {
                    assert(g[a] != g[b]);
                }
            }
        }
    }
}

/// The ordered group holds each position once.
proof fn lemma_ordered_group_distinct(es: Seq<EntryView>, by_time: bool, p: Seq<Seq<u8>>)
    requires
        es.len() <= usize::MAX,
    ensures
        ordered_group(es, by_time, p).no_duplicates(),
{
    let g = sibling_group(es, p);
    let leq = sibling_leq(es, by_time);
    lemma_group_increasing(es, p, es.len());
    lemma_sibling_leq_total(es, by_time);
    g.lemma_sort_by_ensures(leq);
    g.lemma_multiset_has_no_duplicates();
    g.sort_by(leq).lemma_multiset_has_no_duplicates_conv();
}

/// `a` is `b` or lies below it.
pub open spec fn at_or_below(a: Seq<Seq<u8>>, b: Seq<Seq<u8>>) -> bool {
    a.len() >= b.len() && a.take(b.len() as int) == b
}

proof fn lemma_singleton_filter(c: usize, f: spec_fn(usize) -> bool)
    ensures
        seq![c].filter(f) == if f(c) { seq![c] } else { Seq::<usize>::empty() },
{
    reveal_with_fuel(Seq::filter, 2);
    assert(seq![c].drop_last() =~= Seq::<usize>::empty());
}

proof fn lemma_at_or_below_transitive(a: Seq<Seq<u8>>, b: Seq<Seq<u8>>, c: Seq<Seq<u8>>)
    requires
        at_or_below(a, b),
        at_or_below(b, c),
    ensures
        at_or_below(a, c),
{
    assert(a.take(c.len() as int) =~= b.take(c.len() as int));
}

/// Two members of a group, at different places in its order, have
/// different paths, so nothing lies at or below both.
proof fn lemma_blocks_apart(es: Seq<EntryView>, by_time: bool, q: Seq<Seq<u8>>, a: Seq<Seq<u8>>, i: int, j: int)
    requires
        es.len() <= usize::MAX,
        well_formed_walk(es),
        0 <= i < ordered_group(es, by_time, q).len(),
        0 <= j < ordered_group(es, by_time, q).len(),
        i != j,
    ensures
        !(at_or_below(a, es[ordered_group(es, by_time, q)[i] as int].path) && at_or_below(
            a,
            es[ordered_group(es, by_time, q)[j] as int].path,
        )),
{
    let g = ordered_group(es, by_time, q);
    lemma_ordered_member(es, by_time, q, i);
    lemma_ordered_member(es, by_time, q, j);
    lemma_ordered_group_distinct(es, by_time, q);
    assert(g[i] != g[j]);
    assert(es[g[i] as int].path != es[g[j] as int].path);
    if at_or_below(a, es[g[i] as int].path) && at_or_below(a, es[g[j] as int].path) {
        assert(es[g[i] as int].path =~= es[g[j] as int].path);
    }
}

/// Nothing emitted from the `i`-th member of a group on lies at or below an
/// earlier member.
proof fn lemma_not_in_earlier_blocks(es: Seq<EntryView>, by_time: bool, q: Seq<Seq<u8>>, i: nat)
    requires
        es.len() <= usize::MAX,
        well_formed_walk(es),
    ensures
        forall|k: int, m: int| 0 <= k < emit_from(es, by_time, q, i).len() && 0 <= m < i && m < ordered_group(es, by_time, q).len()
            ==> !at_or_below(
                es[#[trigger] emit_from(es, by_time, q, i)[k] as int].path,
                es[#[trigger] ordered_group(es, by_time, q)[m] as int].path,
            ),
    decreases ordered_group(es, by_time, q).len() - i,
{
    let g = ordered_group(es, by_time, q);
    if i < g.len() {
        let c = g[i as int];
        lemma_ordered_member(es, by_time, q, i as int);
        let below = if es[c as int].is_dir() {
            emit_below(es, by_time, es[c as int].path)
        } else {
            Seq::empty()
        };
        if es[c as int].is_dir() {
            lemma_emitted_below(es, by_time, es[c as int].path, 0);
        }
        lemma_not_in_earlier_blocks(es, by_time, q, (i + 1) as nat);
        let rest = emit_from(es, by_time, q, (i + 1) as nat);
        assert(emit_from(es, by_time, q, i) == seq![c] + below + rest);
        assert forall|k: int, m: int| 0 <= k < emit_from(es, by_time, q, i).len() && 0 <= m < i && m < g.len()
            implies !at_or_below(
                es[#[trigger] emit_from(es, by_time, q, i)[k] as int].path,
                es[#[trigger] ordered_group(es, by_time, q)[m] as int].path,
            ) by {
            let x = emit_from(es, by_time, q, i)[k];
            lemma_ordered_member(es, by_time, q, m);
            lemma_blocks_apart(es, by_time, q, es[x as int].path, i as int, m);
            if k == 0 {
                assert(x == c);
                assert(at_or_below(es[c as int].path, es[c as int].path)) by {
                    assert(es[c as int].path.take(es[c as int].path.len() as int) =~= es[c as int].path);
                }
            } else if k < 1 + below.len() {
                assert(x == below[k - 1]);
                assert(descends(es[x as int].path, es[c as int].path));
            } else {
                assert(x == rest[k - 1 - below.len()]);
            }
        }
    }
}

/// Below the entry at `y`, the emitted entries that stand one level deeper
/// with `y` as their parent are the members of its ordered group, in order.
proof fn lemma_direct_children(es: Seq<EntryView>, by_time: bool, y: int, i: nat)
    requires
        es.len() <= usize::MAX,
        well_formed_walk(es),
        0 <= y < es.len(),
        i <= ordered_group(es, by_time, es[y].path).len(),
    ensures
        emit_from(es, by_time, es[y].path, i).filter(child_pos(es, es[y].path, es[y].depth + 1))
            == ordered_group(es, by_time, es[y].path).skip(i as int),
    decreases ordered_group(es, by_time, es[y].path).len() - i,
{
    let q = es[y].path;
    let g = ordered_group(es, by_time, q);
    let f = child_pos(es, q, es[y].depth + 1);
    if i < g.len() {
        let c = g[i as int];
        lemma_ordered_member(es, by_time, q, i as int);
        let below = if es[c as int].is_dir() {
            emit_below(es, by_time, es[c as int].path)
        } else {
            Seq::empty()
        };
        if es[c as int].is_dir() {
            lemma_emitted_below(es, by_time, es[c as int].path, 0);
        }
        lemma_direct_children(es, by_time, y, i + 1);
        let rest = emit_from(es, by_time, q, i + 1);
        assert(emit_from(es, by_time, q, i) == seq![c] + below + rest);
        assert(es[c as int].parent() == es[y].path);
        lemma_singleton_filter(c, f);
        assert forall|k: int| 0 <= k < below.len() implies !f(#[trigger] below[k]) by {
            let d = below[k] as int;
            assert(descends(es[d].path, es[c as int].path));
        }
        lemma_filter_none(below, f);
        assert(g.skip(i as int) =~= seq![c] + g.skip((i + 1) as int));
    } else {
        assert(emit_from(es, by_time, q, i).filter(f) =~= Seq::<usize>::empty()) by {
            reveal(Seq::filter);
        }
    }
}

/// Below the entry at `y`, the emitted entries that stand one level below
/// an emitted directory `x`, with `x` as their parent, are the members of
/// `x`'s ordered group, in order.
proof fn lemma_subgroup_filter(es: Seq<EntryView>, by_time: bool, y: int, i: nat, x: usize)
    requires
        es.len() <= usize::MAX,
        well_formed_walk(es),
        0 <= y < es.len(),
        emit_from(es, by_time, es[y].path, i).contains(x),
        es[x as int].is_dir(),
    ensures
        emit_from(es, by_time, es[y].path, i).filter(child_pos(es, es[x as int].path, es[x as int].depth + 1))
            == ordered_group(es, by_time, es[x as int].path),
    decreases max_path_len(es) - es[y].path.len(), ordered_group(es, by_time, es[y].path).len() - i,
{
    let q = es[y].path;
    let g = ordered_group(es, by_time, q);
    let xp = es[x as int].path;
    let f = child_pos(es, xp, es[x as int].depth + 1);
    lemma_emitted_below(es, by_time, q, i);
    let kx = choose|k: int| 0 <= k < emit_from(es, by_time, q, i).len() && emit_from(es, by_time, q, i)[k] == x;
    assert(descends(xp, q));
    if i >= g.len() {
        assert(emit_from(es, by_time, q, i).len() == 0);
    }
    let c = g[i as int];
    lemma_ordered_member(es, by_time, q, i as int);
    let below = if es[c as int].is_dir() {
        emit_below(es, by_time, es[c as int].path)
    } else {
        Seq::empty()
    };
    if es[c as int].is_dir() {
        lemma_emitted_below(es, by_time, es[c as int].path, 0);
    }
    let rest = emit_from(es, by_time, q, (i + 1) as nat);
    lemma_not_in_earlier_blocks(es, by_time, q, (i + 1) as nat);
    assert(emit_from(es, by_time, q, i) == seq![c] + below + rest);
    lemma_singleton_filter(c, f);
    assert(!f(c));
    let cp = es[c as int].path;
    assert(at_or_below(cp, cp)) by {
        assert(cp.take(cp.len() as int) =~= cp);
    }
    if kx == 0 {
        assert(x == c);
        lemma_direct_children(es, by_time, c as int, 0);
        assert(ordered_group(es, by_time, cp).skip(0) =~= ordered_group(es, by_time, cp));
        assert forall|k: int| 0 <= k < rest.len() implies !f(#[trigger] rest[k]) by {
            assert(!at_or_below(es[rest[k] as int].path, es[g[i as int] as int].path));
            if f(rest[k]) {
                let rp = es[rest[k] as int].path;
                assert(rp.take(cp.len() as int) =~= rp.drop_last());
            }
        }
        lemma_filter_none(rest, f);
    } else if kx < 1 + below.len() {
        assert(below[kx - 1] == x);
        assert(below.contains(x));
        lemma_subgroup_filter(es, by_time, c as int, 0, x);
        assert(descends(xp, cp));
        assert forall|k: int| 0 <= k < rest.len() implies !f(#[trigger] rest[k]) by {
            assert(!at_or_below(es[rest[k] as int].path, es[g[i as int] as int].path));
            if f(rest[k]) {
                let rp = es[rest[k] as int].path;
                assert(rp.take(xp.len() as int) =~= rp.drop_last());
                lemma_at_or_below_transitive(rp, xp, cp);
            }
        }
        lemma_filter_none(rest, f);
    } else {
        assert(rest[kx - 1 - below.len()] == x);
        assert(rest.contains(x));
        lemma_subgroup_filter(es, by_time, y, (i + 1) as nat, x);
        assert(!at_or_below(xp, es[g[i as int] as int].path));
        assert forall|k: int| 0 <= k < below.len() implies !f(#[trigger] below[k]) by {
            let bp = es[below[k] as int].path;
            assert(descends(bp, cp));
            if f(below[k]) {
                assert(bp.take(xp.len() as int) =~= bp.drop_last());
                assert(xp.take(cp.len() as int) =~= bp.take(cp.len() as int));
            }
        }
        lemma_filter_none(below, f);
    }
}

/// The positions emitted for the first `k` members of the ordered group
/// under `q`.
pub open spec fn emit_upto(es: Seq<EntryView>, by_time: bool, q: Seq<Seq<u8>>, k: nat) -> Seq<usize>
    decreases k,
{
    if k == 0 {
        Seq::empty()
    } else {
        let c = ordered_group(es, by_time, q)[k - 1];
        let below = if es[c as int].is_dir() {
            emit_below(es, by_time, es[c as int].path)
        } else {
            Seq::empty()
        };
        emit_upto(es, by_time, q, (k - 1) as nat) + seq![c] + below
    }
}

proof fn lemma_split(es: Seq<EntryView>, by_time: bool, q: Seq<Seq<u8>>, k: nat)
    requires
        es.len() <= usize::MAX,
        k <= ordered_group(es, by_time, q).len(),
    ensures
        emit_below(es, by_time, q) == emit_upto(es, by_time, q, k) + emit_from(es, by_time, q, k),
    decreases k,
{
    if k > 0 {
        lemma_split(es, by_time, q, (k - 1) as nat);
        let c = ordered_group(es, by_time, q)[k - 1];
        let below = if es[c as int].is_dir() {
            emit_below(es, by_time, es[c as int].path)
        } else {
            Seq::empty()
        };
        assert(emit_from(es, by_time, q, (k - 1) as nat) == seq![c] + below + emit_from(es, by_time, q, k));
        assert(emit_upto(es, by_time, q, (k - 1) as nat) + (seq![c] + below + emit_from(es, by_time, q, k))
            =~= emit_upto(es, by_time, q, k) + emit_from(es, by_time, q, k));
    } else {
        assert(emit_upto(es, by_time, q, 0) + emit_from(es, by_time, q, 0) =~= emit_from(es, by_time, q, 0));
    }
}

/// What is emitted below an emitted directory is emitted too.
proof fn lemma_nested(es: Seq<EntryView>, by_time: bool, q: Seq<Seq<u8>>, i: nat, x: usize, z: usize)
    requires
        es.len() <= usize::MAX,
        emit_from(es, by_time, q, i).contains(x),
        es[x as int].is_dir(),
        emit_below(es, by_time, es[x as int].path).contains(z),
    ensures
        emit_from(es, by_time, q, i).contains(z),
    decreases max_path_len(es) - q.len(), ordered_group(es, by_time, q).len() - i,
{
    let g = ordered_group(es, by_time, q);
    let kx = choose|k: int| 0 <= k < emit_from(es, by_time, q, i).len() && emit_from(es, by_time, q, i)[k] == x;
    if i >= g.len() {
        assert(emit_from(es, by_time, q, i).len() == 0);
    }
    let c = g[i as int];
    lemma_ordered_member(es, by_time, q, i as int);
    let below = if es[c as int].is_dir() {
        emit_below(es, by_time, es[c as int].path)
    } else {
        Seq::empty()
    };
    let rest = emit_from(es, by_time, q, (i + 1) as nat);
    let whole = emit_from(es, by_time, q, i);
    assert(whole == seq![c] + below + rest);
    if kx == 0 {
        let kz = choose|k: int| 0 <= k < below.len() && below[k] == z;
        assert(whole[1 + kz] == z);
    } else if kx < 1 + below.len() {
        assert(below[kx - 1] == x);
        lemma_nested(es, by_time, es[c as int].path, 0, x, z);
        let kz = choose|k: int| 0 <= k < below.len() && below[k] == z;
        assert(whole[1 + kz] == z);
    } else {
        assert(rest[kx - 1 - below.len()] == x);
        lemma_nested(es, by_time, q, (i + 1) as nat, x, z);
        let kz = choose|k: int| 0 <= k < rest.len() && rest[k] == z;
        assert(whole[1 + below.len() + kz] == z);
    }
}

/// The root at `r`, or a directory emitted below it.
pub open spec fn emitted_dir(es: Seq<EntryView>, by_time: bool, r: int, x: usize) -> bool {
    x == r || (emit_below(es, by_time, es[r].path).contains(x) && es[x as int].is_dir())
}

/// In the ordered sequence `s`, the document children of an emitted
/// directory are the nodes of its ordered group.
proof fn lemma_document_children(es: Seq<EntryView>, by_time: bool, r: int, x: usize)
    requires
        es.len() <= usize::MAX,
        well_formed_walk(es),
        0 <= r < es.len(),
        es[r].depth == 0,
        emitted_dir(es, by_time, r, x),
    ensures
        ({
            let s = pick(es, seq![r as usize] + emit_below(es, by_time, es[r].path));
            let d = es[x as int].depth + 1;
            json_children(s, es[x as int].path, d, s.len()) == pick(es, ordered_group(es, by_time, es[x as int].path)).map_values(
                |e: EntryView| node_in(s, e, d),
            )
        }),
{
    let ps = seq![r as usize] + emit_below(es, by_time, es[r].path);
    let s = pick(es, ps);
    let xp = es[x as int].path;
    let d = es[x as int].depth + 1;
    let f = child_pos(es, xp, d);
    lemma_emitted_below(es, by_time, es[r].path, 0);
    if x != r {
        let k = choose|k: int| 0 <= k < emit_below(es, by_time, es[r].path).len() && emit_below(es, by_time, es[r].path)[k] == x;
    }
    lemma_json_children_filter(s, xp, d, s.len());
    assert(s.take(s.len() as int) =~= s);
    lemma_pick_filter(es, ps, xp, d);
    lemma_singleton_filter(r as usize, f);
    if x == r {
        lemma_direct_children(es, by_time, r, 0);
        assert(ordered_group(es, by_time, xp).skip(0) =~= ordered_group(es, by_time, xp));
    } else {
        lemma_subgroup_filter(es, by_time, r, 0, x);
    }
    assert(ps.filter(f) =~= seq![r as usize].filter(f) + emit_below(es, by_time, es[r].path).filter(f));
}

proof fn lemma_flat_node(es: Seq<EntryView>, by_time: bool, r: int, x: usize, b: bool)
    requires
        es.len() <= usize::MAX,
        well_formed_walk(es),
        0 <= r < es.len(),
        es[r].depth == 0,
        emitted_dir(es, by_time, r, x),
    ensures
        ({
            let s = pick(es, seq![r as usize] + emit_below(es, by_time, es[r].path));
            let d = es[x as int].depth + 1;
            flat(node_of(es[x as int], b, json_children(s, es[x as int].path, d, s.len())))
                == displays(pick(es, seq![x] + emit_below(es, by_time, es[x as int].path)))
        }),
    decreases max_path_len(es) - es[x as int].path.len(), 1int, 0int,
{
    let s = pick(es, seq![r as usize] + emit_below(es, by_time, es[r].path));
    let xp = es[x as int].path;
    let d = es[x as int].depth + 1;
    let g = ordered_group(es, by_time, xp);
    lemma_emitted_below(es, by_time, es[r].path, 0);
    if x != r {
        let k = choose|k: int| 0 <= k < emit_below(es, by_time, es[r].path).len() && emit_below(es, by_time, es[r].path)[k] == x;
    }
    lemma_document_children(es, by_time, r, x);
    let kids = json_children(s, xp, d, s.len());
    lemma_flat_list(es, by_time, r, x, g.len());
    lemma_split(es, by_time, xp, g.len());
    assert(emit_from(es, by_time, xp, g.len()) =~= Seq::<usize>::empty());
    assert(emit_upto(es, by_time, xp, g.len()) + Seq::<usize>::empty() =~= emit_upto(es, by_time, xp, g.len()));
    let n = node_of(es[x as int], b, kids);
    assert(flat(n) == seq![es[x as int].display] + flat_list(kids, kids.len() as int));
    assert(displays(pick(es, seq![x] + emit_below(es, by_time, xp))) =~= seq![es[x as int].display] + displays(
        pick(es, emit_below(es, by_time, xp)),
    ));
}

proof fn lemma_flat_list(es: Seq<EntryView>, by_time: bool, r: int, x: usize, k: nat)
    requires
        es.len() <= usize::MAX,
        well_formed_walk(es),
        0 <= r < es.len(),
        es[r].depth == 0,
        emitted_dir(es, by_time, r, x),
        k <= ordered_group(es, by_time, es[x as int].path).len(),
    ensures
        ({
            let s = pick(es, seq![r as usize] + emit_below(es, by_time, es[r].path));
            let d = es[x as int].depth + 1;
            flat_list(json_children(s, es[x as int].path, d, s.len()), k as int) == displays(
                pick(es, emit_upto(es, by_time, es[x as int].path, k)),
            )
        }),
    decreases max_path_len(es) - es[x as int].path.len(), 0int, k,
{
    let s = pick(es, seq![r as usize] + emit_below(es, by_time, es[r].path));
    let xp = es[x as int].path;
    let d = es[x as int].depth + 1;
    let g = ordered_group(es, by_time, xp);
    lemma_emitted_below(es, by_time, es[r].path, 0);
    if x != r {
        let kk = choose|kk: int| 0 <= kk < emit_below(es, by_time, es[r].path).len() && emit_below(es, by_time, es[r].path)[kk] == x;
    }
    lemma_document_children(es, by_time, r, x);
    let kids = json_children(s, xp, d, s.len());
    assert(kids.len() == g.len());
    if k > 0 {
        lemma_flat_list(es, by_time, r, x, (k - 1) as nat);
        let c = g[k - 1];
        lemma_ordered_member(es, by_time, xp, k - 1);
        assert(es[c as int].parent() == es[x as int].path);
        assert(es[c as int].depth == d);
        assert(kids[k - 1] == node_in(s, es[c as int], d));
        let below = if es[c as int].is_dir() {
            emit_below(es, by_time, es[c as int].path)
        } else {
            Seq::empty()
        };
        if es[c as int].is_dir() {
            lemma_split(es, by_time, xp, k);
            let upto = emit_upto(es, by_time, xp, k);
            assert(upto[upto.len() - 1 - below.len()] == c);
            assert(emit_below(es, by_time, xp).contains(c)) by {
                assert(emit_below(es, by_time, xp)[upto.len() - 1 - below.len()] == c);
            }
            if x == r {
                assert(emitted_dir(es, by_time, r, c));
            } else {
                lemma_nested(es, by_time, es[r].path, 0, x, c);
                assert(emitted_dir(es, by_time, r, c));
            }
            lemma_flat_node(es, by_time, r, c, true);
        } else {
            let n = node_in(s, es[c as int], d);
            assert(n.children =~= Seq::<NodeView>::empty());
            assert(flat(n) =~= seq![es[c as int].display]);
        }
        assert(displays(pick(es, emit_upto(es, by_time, xp, k))) =~= displays(
            pick(es, emit_upto(es, by_time, xp, (k - 1) as nat)),
        ) + displays(pick(es, seq![c] + below)));
    } else {
        assert(displays(pick(es, emit_upto(es, by_time, xp, 0))) =~= Seq::<Seq<char>>::empty());
    }
}

/// The JSON document of an ordered sequence holds the same entries in the
/// same order: read in pre-order, its nodes are the sequence's entries. So
/// it has one node per entry, the root included, and each node's children,
/// flattened, follow the sequence's order within that subtree.
pub proof fn lemma_document_mirrors_order(es: Seq<EntryView>, by_time: bool)
    requires
        es.len() <= usize::MAX,
        well_formed_walk(es),
    ensures
        ordered_sequence(es, by_time) matches Some(s) ==> {
            &&& flat(json_tree(s)) == displays(s)
            &&& flat(json_tree(s)).len() == s.len()
        },
{
    lemma_root_upto_found(es, es.len());
    if let Some(r) = first_root(es) {
        let ps = seq![r as usize] + emit_below(es, by_time, es[r as int].path);
        let s = pick(es, ps);
        assert(s[0] == es[r as int]);
        assert(root_upto(s, 0) is None);
        assert(s[0].depth == 0);
        assert(root_upto(s, 1) == Some(0nat));
        lemma_root_upto_stable(s, 1, s.len());
        lemma_flat_node(es, by_time, r as int, r as usize, true);
    }
}

} // verus!
