//! The order of the members of one sibling group: directories first, then
//! (in time mode) newest first, then by name bytes; the position in the
//! input breaks what is left, so the order is total.
use vstd::prelude::*;
use vstd::relations::*;
use crate::entry::{views, Entry, EntryKind, EntryView};
use core::cmp::Ordering;
use rayon::slice::ParallelSliceMut;

verus! {

/// `a` comes before `b` in byte-wise lexicographic order.
pub open spec fn bytes_lt(a: Seq<u8>, b: Seq<u8>) -> bool {
    exists|k: int| #[trigger] differ_at(a, b, k)
}

/// `k` is where `a` first falls below `b`: the two agree before `k`, and
/// at `k` either `a` has ended while `b` goes on or `a` holds the smaller byte.
pub open spec fn differ_at(a: Seq<u8>, b: Seq<u8>, k: int) -> bool {
    &&& 0 <= k <= a.len()
    &&& k <= b.len()
    &&& forall|m: int| 0 <= m < k ==> a[m] == b[m]
    &&& ((k == a.len() && k < b.len()) || (k < a.len() && k < b.len() && a[k] < b[k]))
}

pub proof fn lemma_bytes_lt_irreflexive(a: Seq<u8>)
    ensures
        !bytes_lt(a, a),
{
}

pub proof fn lemma_bytes_lt_asymmetric(a: Seq<u8>, b: Seq<u8>)
    ensures
        bytes_lt(a, b) ==> !bytes_lt(b, a),
{
    if bytes_lt(a, b) && bytes_lt(b, a) {
        let k1 = choose|k: int| #[trigger] differ_at(a, b, k);
        let k2 = choose|k: int| #[trigger] differ_at(b, a, k);
        if k1 < k2 {
            assert(b[k1] == a[k1]);
        } else if k2 < k1 {
            assert(a[k2] == b[k2]);
        }
    }
}

pub proof fn lemma_bytes_lt_transitive(a: Seq<u8>, b: Seq<u8>, c: Seq<u8>)
    ensures
        bytes_lt(a, b) && bytes_lt(b, c) ==> bytes_lt(a, c),
{
    if bytes_lt(a, b) && bytes_lt(b, c) {
        let k1 = choose|k: int| #[trigger] differ_at(a, b, k);
        let k2 = choose|k: int| #[trigger] differ_at(b, c, k);
        if k1 <= k2 {
            assert(differ_at(a, c, k1));
        } else {
            assert(differ_at(a, c, k2));
        }
    }
}

proof fn lemma_first_difference(a: Seq<u8>, b: Seq<u8>, m: int)
    requires
        a != b,
        0 <= m <= a.len(),
        m <= b.len(),
        forall|j: int| 0 <= j < m ==> a[j] == b[j],
    ensures
        bytes_lt(a, b) || bytes_lt(b, a),
    decreases a.len() - m,
{
    if m == a.len() && m == b.len() {
        assert(a =~= b);
    } else if m == a.len() {
        assert(differ_at(a, b, m));
    } else if m == b.len() {
        assert(differ_at(b, a, m));
    } else if a[m] < b[m] {
        assert(differ_at(a, b, m));
    } else if b[m] < a[m] {
        assert(differ_at(b, a, m));
    } else {
        lemma_first_difference(a, b, m + 1);
    }
}

pub proof fn lemma_bytes_lt_connected(a: Seq<u8>, b: Seq<u8>)
    ensures
        a != b ==> bytes_lt(a, b) || bytes_lt(b, a),
{
    if a != b {
        lemma_first_difference(a, b, 0);
    }
}

/// The modification time as a rank: a time that could not be read ranks
/// below every real one.
pub open spec fn time_rank(e: EntryView) -> int {
    match e.modified {
        Some(t) => t as int,
        None => -1,
    }
}

/// Member `i` of a sibling group strictly precedes member `j`.
pub open spec fn sibling_lt(es: Seq<EntryView>, by_time: bool, i: usize, j: usize) -> bool {
    let a = es[i as int];
    let b = es[j as int];
    if a.is_dir() != b.is_dir() {
        a.is_dir()
    } else if by_time && time_rank(a) != time_rank(b) {
        time_rank(a) > time_rank(b)
    } else if a.name() != b.name() {
        bytes_lt(a.name(), b.name())
    } else {
        i < j
    }
}

/// The order within a sibling group, over positions in `es`.
pub open spec fn sibling_leq(es: Seq<EntryView>, by_time: bool) -> spec_fn(usize, usize) -> bool {
    |i: usize, j: usize| i == j || sibling_lt(es, by_time, i, j)
}

proof fn lemma_sibling_lt_facts(es: Seq<EntryView>, by_time: bool, i: usize, j: usize, k: usize)
    ensures
        !sibling_lt(es, by_time, i, i),
        sibling_lt(es, by_time, i, j) ==> !sibling_lt(es, by_time, j, i),
        i != j ==> sibling_lt(es, by_time, i, j) || sibling_lt(es, by_time, j, i),
        sibling_lt(es, by_time, i, j) && sibling_lt(es, by_time, j, k) ==> sibling_lt(es, by_time, i, k),
{
    let (a, b, c) = (es[i as int].name(), es[j as int].name(), es[k as int].name());
    lemma_bytes_lt_irreflexive(a);
    lemma_bytes_lt_asymmetric(a, b);
    lemma_bytes_lt_connected(a, b);
    lemma_bytes_lt_transitive(a, b, c);
    lemma_bytes_lt_asymmetric(a, c);
    lemma_bytes_lt_asymmetric(b, c);
    lemma_bytes_lt_transitive(b, c, a);
    lemma_bytes_lt_transitive(c, a, b);
}

/// The sibling order is a total order on positions.
pub proof fn lemma_sibling_leq_total(es: Seq<EntryView>, by_time: bool)
    ensures
        total_ordering(sibling_leq(es, by_time)),
{
    let leq = sibling_leq(es, by_time);
    assert forall|i: usize, j: usize| #[trigger] leq(i, j) && #[trigger] leq(j, i) implies i == j by {
        lemma_sibling_lt_facts(es, by_time, i, j, i);
    }
    assert forall|i: usize, j: usize, k: usize| #[trigger] leq(i, j) && #[trigger] leq(j, k) implies leq(i, k) by {
        lemma_sibling_lt_facts(es, by_time, i, j, k);
    }
    assert forall|i: usize, j: usize| #[trigger] leq(i, j) || #[trigger] leq(j, i) by {
        lemma_sibling_lt_facts(es, by_time, i, j, i);
    }
}

/// Byte-wise lexicographic comparison.
pub fn compare_bytes(a: &[u8], b: &[u8]) -> (r: Ordering)
    ensures
        (r == Ordering::Less) == bytes_lt(a@, b@),
        (r == Ordering::Equal) == (a@ == b@),
        (r == Ordering::Greater) == bytes_lt(b@, a@),
{
    proof {
        lemma_bytes_lt_irreflexive(a@);
        lemma_bytes_lt_asymmetric(a@, b@);
    }
    let mut i: usize = 0;
    while i < a.len() && i < b.len()
        invariant
            i <= a.len(),
            i <= b.len(),
            forall|m: int| 0 <= m < i ==> a@[m] == b@[m],
        decreases a.len() - i,
    {
        if a[i] < b[i] {
            assert(differ_at(a@, b@, i as int));
            return Ordering::Less;
        }
        if b[i] < a[i] {
            assert(differ_at(b@, a@, i as int));
            return Ordering::Greater;
        }
        i = i + 1;
    }
    if i < b.len() {
        assert(differ_at(a@, b@, i as int));
        Ordering::Less
    } else if i < a.len() {
        assert(differ_at(b@, a@, i as int));
        Ordering::Greater
    } else {
        assert(a@ =~= b@);
        Ordering::Equal
    }
}

/// The name of an entry: the last component of its path.
pub fn name_bytes(e: &Entry) -> (r: &[u8])
    ensures
        r@ == e@.name(),
{
    let n = e.path.len();
    if n > 0 {
        e.path[n - 1].as_slice()
    } else {
        &[]
    }
}

/// The rank of an entry's modification time, as in `time_rank`.
fn time_key(e: &Entry) -> (r: (bool, u64))
    ensures
        time_rank(e@) == if r.0 { r.1 as int } else { -1 },
{
    match e.modified {
        Some(t) => (true, t),
        None => (false, 0),
    }
}

/// Compares two members of a sibling group, given by their positions in `es`.
pub fn compare_siblings(es: &Vec<Entry>, by_time: bool, i: usize, j: usize) -> (r: Ordering)
    requires
        i < es.len(),
        j < es.len(),
    ensures
        (r == Ordering::Less) == sibling_lt(views(es@), by_time, i, j),
        (r == Ordering::Equal) == (i == j),
        (r == Ordering::Greater) == sibling_lt(views(es@), by_time, j, i),
{
    let ghost vs = views(es@);
    assert(vs[i as int] == es@[i as int]@);
    assert(vs[j as int] == es@[j as int]@);
    proof {
        lemma_sibling_lt_facts(vs, by_time, i, j, i);
    }
    let a = &es[i];
    let b = &es[j];
    let a_dir = matches!(a.kind, EntryKind::Dir);
    let b_dir = matches!(b.kind, EntryKind::Dir);
    if a_dir != b_dir {
        return if a_dir { Ordering::Less } else { Ordering::Greater };
    }
    if by_time {
        let (a_known, a_t) = time_key(a);
        let (b_known, b_t) = time_key(b);
        if a_known != b_known {
            return if a_known { Ordering::Less } else { Ordering::Greater };
        }
        if a_t != b_t && a_known {
            return if a_t > b_t { Ordering::Less } else { Ordering::Greater };
        }
    }
    match compare_bytes(name_bytes(a), name_bytes(b)) {
        Ordering::Less => Ordering::Less,
        Ordering::Greater => Ordering::Greater,
        Ordering::Equal => {
            if i < j {
                Ordering::Less
            } else if j < i {
                Ordering::Greater
            } else {
                Ordering::Equal
            }
        },
    }
}

/// Every position in `g` is a position of `es`.
pub open spec fn within(g: Seq<usize>, n: int) -> bool {
    forall|k: int| 0 <= k < g.len() ==> #[trigger] g[k] < n
}

/// Sorts a sibling group, given as positions in `es`, by the sibling order.
pub fn sort_siblings(es: &Vec<Entry>, by_time: bool, group: &Vec<usize>) -> (r: Vec<usize>)
    requires
        within(group@, es.len() as int),
    ensures
        r@.to_multiset() == group@.to_multiset(),
        sorted_by(r@, sibling_leq(views(es@), by_time)),
        within(r@, es.len() as int),
{
    broadcast use vstd::seq_lib::group_to_multiset_ensures;

    let ghost vs = views(es@);
    let ghost leq = sibling_leq(vs, by_time);
    proof {
        lemma_sibling_leq_total(vs, by_time);
    }
    let mut r: Vec<usize> = Vec::new();
    let mut n: usize = 0;
    while n < group.len()
        invariant
            n <= group.len(),
            within(group@, es.len() as int),
            within(r@, es.len() as int),
            vs == views(es@),
            leq == sibling_leq(vs, by_time),
            total_ordering(leq),
            r@.to_multiset() == group@.take(n as int).to_multiset(),
            sorted_by(r@, leq),
        decreases group.len() - n,
    {
        let x = group[n];
        let mut k: usize = 0;
        while k < r.len() && !matches!(compare_siblings(es, by_time, x, r[k]), Ordering::Less)
            invariant
                k <= r.len(),
                x < es.len(),
                within(r@, es.len() as int),
                vs == views(es@),
                leq == sibling_leq(vs, by_time),
                forall|m: int| 0 <= m < k ==> leq(#[trigger] r@[m], x),
            decreases r.len() - k,
        {
            k = k + 1;
        }
        let ghost before = r@;
        r.insert(k, x);
        proof {
            assert(r@ == before.insert(k as int, x));
            if k < before.len() {
                assert(leq(x, before[k as int]));
                assert forall|m: int| k <= m < before.len() implies leq(x, #[trigger] before[m]) by {
                    if m > k {
                        assert(leq(before[k as int], before[m]));
                    }
                }
            }
            assert forall|a: int, b: int| 0 <= a < b < r@.len() implies #[trigger] leq(r@[a], r@[b]) by {
                if b < k {
                    assert(r@[a] == before[a] && r@[b] == before[b]);
                } else if b == k {
                    assert(r@[a] == before[a]);
                } else if a == k {
                    assert(r@[b] == before[b - 1]);
                } else if a < k {
                    assert(r@[a] == before[a] && r@[b] == before[b - 1]);
                    assert(leq(before[a], x));
                    assert(leq(x, before[b - 1]));
                } else {
                    assert(r@[a] == before[a - 1] && r@[b] == before[b - 1]);
                }
            }
            assert(group@.take(n + 1) == group@.take(n as int).push(x));
            vstd::seq_lib::to_multiset_insert(before, k as int, x);
            vstd::seq_lib::to_multiset_build(group@.take(n as int), x);
        }
        n = n + 1;
    }
    assert(group@.take(n as int) == group@);
    r
}

/// Relies on rayon's `ParallelSliceMut::par_sort_by`, a stable parallel
/// merge sort: given a comparator that is a total order (`compare_siblings`,
/// which follows `sibling_leq`), it leaves the same members in ascending order.
#[verifier::external_body]
pub(crate) fn par_sort_siblings(es: &Vec<Entry>, by_time: bool, group: &mut Vec<usize>)
    requires
        within(old(group)@, es.len() as int),
    ensures
        final(group)@.to_multiset() == old(group)@.to_multiset(),
        sorted_by(final(group)@, sibling_leq(views(es@), by_time)),
{
    group.par_sort_by(|a, b| compare_siblings(es, by_time, *a, *b));
}

/// A rearrangement of positions of `es` holds positions of `es` only.
pub proof fn lemma_within_permutation(a: Seq<usize>, b: Seq<usize>, n: int)
    requires
        a.to_multiset() == b.to_multiset(),
        within(b, n),
    ensures
        within(a, n),
{
    broadcast use vstd::seq_lib::group_to_multiset_ensures;

    assert forall|k: int| 0 <= k < a.len() implies #[trigger] a[k] < n by {
        assert(a.to_multiset().count(a[k]) > 0);
        assert(b.contains(a[k]));
    }
}

} // verus!
