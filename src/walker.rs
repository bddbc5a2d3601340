//! Which entries are kept, and the assembly of the kept entries into one
//! ordered, depth-first sequence.
use vstd::prelude::*;
use vstd::utf8::{decode_utf8, valid_utf8};
use crate::config::{pattern_matches, pattern_source, Config};
use crate::entry::{same_parent_of, views, Entry, EntryKind, EntryView};
use crate::assembly::{
    emit_below, emit_from, first_root, group_upto, lemma_group_upto_members, lemma_ordered_member,
    lemma_pick_add, lemma_root_upto_stable, max_path_len, ordered_group, ordered_sequence, pick,
    root_upto, sibling_group,
};
use crate::order::{
    lemma_sibling_leq_total, lemma_within_permutation, name_bytes, par_sort_siblings, sibling_leq,
    sort_siblings, within,
};

verus! {

/// The first byte of a hidden name.
pub const HIDDEN_MARK: u8 = 46;

/// A name that marks its object hidden: it starts with a dot and is none of
/// the special components `.` and `..`.
pub open spec fn is_hidden_name(c: Seq<u8>) -> bool {
    &&& c.len() > 0
    &&& c[0] == HIDDEN_MARK
    &&& c != seq![HIDDEN_MARK]
    &&& c != seq![HIDDEN_MARK, HIDDEN_MARK]
}

/// Some directory above the object, up to the top of its path, is hidden.
pub open spec fn hidden_ancestor(path: Seq<Seq<u8>>) -> bool {
    exists|k: int| 0 <= k < path.len() - 1 && is_hidden_name(#[trigger] path[k])
}

/// The entry's name as text, when its bytes are valid UTF-8.
pub open spec fn name_text(e: EntryView) -> Option<Seq<char>> {
    if valid_utf8(e.name()) {
        Some(decode_utf8(e.name()))
    } else {
        None
    }
}

/// Whether the filter keeps entry `e` under `cfg`.
pub open spec fn keeps(cfg: Config, e: EntryView) -> bool {
    e.depth == 0 || {
        &&& cfg.args.all || (!is_hidden_name(e.name()) && !hidden_ancestor(e.path))
        &&& !cfg.args.dirs_only || e.is_dir()
        &&& match pattern_source(cfg.exclude_regex) {
            Some(p) => match name_text(e) {
                Some(t) => !pattern_matches(p, t),
                None => true,
            },
            None => true,
        }
        &&& match pattern_source(cfg.include_regex) {
            Some(p) => match name_text(e) {
                Some(t) => pattern_matches(p, t),
                None => false,
            },
            None => true,
        }
    }
}

/// The entries of `es` that the filter keeps, in order.
pub open spec fn kept(cfg: Config, es: Seq<EntryView>) -> Seq<EntryView> {
    es.filter(|e: EntryView| keeps(cfg, e))
}

/// Relies on `std::str::from_utf8`: it succeeds exactly on valid UTF-8, and
/// then holds the decoded characters.
#[verifier::external_body]
fn utf8_text(b: &[u8]) -> (r: Option<&str>)
    ensures
        r is Some <==> valid_utf8(b@),
        r matches Some(t) ==> t@ == decode_utf8(b@),
{
    std::str::from_utf8(b).ok()
}

/// Whether a name marks its object hidden.
pub fn is_hidden(c: &[u8]) -> (r: bool)
    ensures
        r == is_hidden_name(c@),
{
    if c.len() == 0 || c[0] != HIDDEN_MARK {
        return false;
    }
    if c.len() == 1 {
        assert(c@ =~= seq![HIDDEN_MARK]);
        return false;
    }
    if c.len() == 2 && c[1] == HIDDEN_MARK {
        assert(c@ =~= seq![HIDDEN_MARK, HIDDEN_MARK]);
        return false;
    }
    assert(c@ != seq![HIDDEN_MARK]) by {
        assert(c@.len() != 1);
    }
    assert(c@ != seq![HIDDEN_MARK, HIDDEN_MARK]) by {
        if c@.len() == 2 {
            assert(c@[1] != seq![HIDDEN_MARK, HIDDEN_MARK][1]);
        }
    }
    true
}

/// The positions of the sibling group below the entry at `dir`.
fn sibling_group_of(es: &Vec<Entry>, dir: usize) -> (g: Vec<usize>)
    requires
        dir < es.len(),
    ensures
        g@ == sibling_group(views(es@), views(es@)[dir as int].path),
{
    let ghost vs = views(es@);
    let ghost p = vs[dir as int].path;
    let mut g: Vec<usize> = Vec::new();
    let mut j: usize = 0;
    while j < es.len()
        invariant
            j <= es.len(),
            dir < es.len(),
            vs == views(es@),
            p == vs[dir as int].path,
            g@ == group_upto(vs, p, j as nat),
        decreases es.len() - j,
    {
        let e = &es[j];
        assert(vs[j as int] == e@);
        if e.depth != 0 && e.path.len() > 0 && same_parent_of(&e.path, &es[dir].path) {
            g.push(j);
        }
        j = j + 1;
    }
    g
}

/// The error of an assembly that found no root.
#[derive(Debug, Clone, Copy, PartialEq, Eq, Structural)]
pub enum TreeError {
    /// No entry has depth 0.
    MissingRoot,
}

/// The traversal engine: filters entries and assembles them into a tree.
pub struct Walker {
    pub config: Config,
}

impl Walker {
    /// A walker over the given configuration.
    pub fn new(config: Config) -> (r: Walker)
        ensures
            r.config == config,
    {
        Walker { config }
    }

    /// Whether the entry is kept: the root always is; hidden entries and
    /// entries below a hidden directory go unless `all` is set; then the
    /// directory-only rule, the exclude pattern and the include pattern apply.
    pub fn filter_entry(&self, entry: &Entry) -> (r: bool)
        ensures
            r == keeps(self.config, entry@),
    {
        if entry.depth == 0 {
            return true;
        }
        if !self.config.args.all {
            if is_hidden(name_bytes(entry)) {
                return false;
            }
            let n = entry.path.len();
            let last = if n > 0 { n - 1 } else { 0 };
            let mut k: usize = 0;
            while k < last
                invariant
                    n == entry.path.len(),
                    last == if n > 0 { n - 1 } else { 0 },
                    entry.depth != 0,
                    !self.config.args.all,
                    forall|m: int| 0 <= m < k ==> !is_hidden_name(#[trigger] entry@.path[m]),
                decreases last - k,
            {
                assert(entry@.path[k as int] == entry.path@[k as int]@);
                if is_hidden(entry.path[k].as_slice()) {
                    assert(hidden_ancestor(entry@.path));
                    return false;
                }
                k = k + 1;
            }
            assert(!hidden_ancestor(entry@.path)) by {
                if hidden_ancestor(entry@.path) {
                    let m = choose|m: int| 0 <= m < entry@.path.len() - 1 && is_hidden_name(#[trigger] entry@.path[m]);
                    assert(m < k);
                }
            }
        }
        if self.config.args.dirs_only && !matches!(entry.kind, EntryKind::Dir) {
            return false;
        }
        if let Some(p) = &self.config.exclude_regex {
            if let Some(t) = utf8_text(name_bytes(entry)) {
                if p.is_match(t) {
                    return false;
                }
            }
        }
        if let Some(p) = &self.config.include_regex {
            match utf8_text(name_bytes(entry)) {
                Some(t) => {
                    if !p.is_match(t) {
                        return false;
                    }
                },
                None => {
                    return false;
                },
            }
        }
        true
    }

    /// The entries that the filter keeps, in their order.
    pub fn filter_entries(&self, entries: Vec<Entry>) -> (r: Vec<Entry>)
        ensures
            views(r@) == kept(self.config, views(entries@)),
    {
        let ghost vs = views(entries@);
        let ghost f = |e: EntryView| keeps(self.config, e);
        let mut r: Vec<Entry> = Vec::new();
        let mut i: usize = 0;
        while i < entries.len()
            invariant
                i <= entries.len(),
                vs == views(entries@),
                f == (|e: EntryView| keeps(self.config, e)),
                views(r@) == vs.take(i as int).filter(f),
            decreases entries.len() - i,
        {
            let keep = self.filter_entry(&entries[i]);
            proof {
                reveal(Seq::filter);
                assert(vs.take(i + 1).drop_last() =~= vs.take(i as int));
                assert(vs.take(i + 1).last() == entries@[i as int]@);
            }
            if keep {
                let ghost before = r@;
                r.push(entries[i].copy());
                assert(views(r@) =~= views(before).push(entries@[i as int]@));
            }
            i = i + 1;
        }
        assert(vs.take(i as int) =~= vs);
        r
    }

    /// Assembles the entries into the ordered sequence: the first root, then
    /// below each directory its children in sibling order, each followed at
    /// once by its own subtree. Fails when no entry is a root.
    pub fn sort_entries(&self, entries: Vec<Entry>) -> (r: Result<Vec<Entry>, TreeError>)
        ensures
            match ordered_sequence(views(entries@), self.config.by_time()) {
                Some(s) => r matches Ok(v) && views(v@) == s,
                None => r == Err::<Vec<Entry>, TreeError>(TreeError::MissingRoot),
            },
    {
        self.assemble(&entries, false)
    }

    /// The same assembly as `sort_entries`, with each sibling group sorted by
    /// a parallel sort.
    pub fn parallel_sort_entries(&self, entries: Vec<Entry>) -> (r: Result<Vec<Entry>, TreeError>)
        ensures
            match ordered_sequence(views(entries@), self.config.by_time()) {
                Some(s) => r matches Ok(v) && views(v@) == s,
                None => r == Err::<Vec<Entry>, TreeError>(TreeError::MissingRoot),
            },
    {
        self.assemble(&entries, true)
    }

    fn assemble(&self, entries: &Vec<Entry>, parallel: bool) -> (r: Result<Vec<Entry>, TreeError>)
        ensures
            match ordered_sequence(views(entries@), self.config.by_time()) {
                Some(s) => r matches Ok(v) && views(v@) == s,
                None => r == Err::<Vec<Entry>, TreeError>(TreeError::MissingRoot),
            },
    {
        let ghost vs = views(entries@);
        let mut i: usize = 0;
        let mut root: Option<usize> = None;
        while i < entries.len() && root.is_none()
            invariant
                i <= entries.len(),
                vs == views(entries@),
                match root {
                    Some(r) => first_root(vs) == Some(r as nat) && r < entries.len(),
                    None => root_upto(vs, i as nat) is None,
                },
            decreases entries.len() - i,
        {
            assert(vs[i as int] == entries@[i as int]@);
            if entries[i].depth == 0 {
                proof {
                    lemma_root_upto_stable(vs, (i + 1) as nat, vs.len());
                }
                root = Some(i);
            }
            i = i + 1;
        }
        match root {
            None => {
                assert(first_root(vs) is None);
                Err(TreeError::MissingRoot)
            },
            Some(r) => {
                let mut result: Vec<Entry> = Vec::new();
                result.push(entries[r].copy());
                assert(views(result@) =~= pick(vs, seq![r]));
                self.process_dir_groups(entries, r, parallel, &mut result);
                proof {
                    lemma_pick_add(vs, seq![r], emit_below(vs, self.config.by_time(), vs[r as int].path));
                }
                Ok(result)
            },
        }
    }

    /// Appends what is emitted below the directory at position `dir`.
    fn process_dir_groups(&self, es: &Vec<Entry>, dir: usize, parallel: bool, result: &mut Vec<Entry>)
        requires
            dir < es.len(),
        ensures
            views(final(result)@) == views(old(result)@) + pick(
                views(es@),
                emit_below(views(es@), self.config.by_time(), views(es@)[dir as int].path),
            ),
        decreases max_path_len(views(es@)) - views(es@)[dir as int].path.len(),
    {
        let ghost vs = views(es@);
        let ghost p = vs[dir as int].path;
        let by_time = self.config.sort_by_time();
        let ghost leq = sibling_leq(vs, by_time);
        let group = sibling_group_of(es, dir);
        proof {
            lemma_group_upto_members(vs, p, vs.len());
        }
        let sorted = if parallel {
            let mut g = group;
            par_sort_siblings(es, by_time, &mut g);
            g
        } else {
            sort_siblings(es, by_time, &group)
        };
        proof {
            lemma_within_permutation(sorted@, group@, es.len() as int);
            lemma_sibling_leq_total(vs, by_time);
            group@.lemma_sort_by_ensures(leq);
            vstd::seq_lib::lemma_sorted_unique(sorted@, group@.sort_by(leq), leq);
            assert(sorted@ == ordered_group(vs, by_time, p));
        }
        let mut i: usize = 0;
        while i < sorted.len()
            invariant
                i <= sorted.len(),
                dir < es.len(),
                vs == views(es@),
                p == vs[dir as int].path,
                by_time == self.config.by_time(),
                sorted@ == ordered_group(vs, by_time, p),
                within(sorted@, es.len() as int),
                views(result@) + pick(vs, emit_from(vs, by_time, p, i as nat)) == views(old(result)@) + pick(
                    vs,
                    emit_from(vs, by_time, p, 0),
                ),
            decreases sorted.len() - i,
        {
            let c = sorted[i];
            proof {
                lemma_ordered_member(vs, by_time, p, i as int);
                lemma_pick_add(vs, seq![c], emit_below(vs, by_time, vs[c as int].path));
                lemma_pick_add(vs, seq![c], Seq::empty());
                let below = if vs[c as int].is_dir() {
                    emit_below(vs, by_time, vs[c as int].path)
                } else {
                    Seq::empty()
                };
                lemma_pick_add(vs, seq![c] + below, emit_from(vs, by_time, p, (i + 1) as nat));
                assert(vs[c as int] == es@[c as int]@);
            }
            let ghost before = result@;
            result.push(es[c].copy());
            assert(views(result@) =~= views(before) + pick(vs, seq![c]));
            if matches!(es[c].kind, EntryKind::Dir) {
                self.process_dir_groups(es, c, parallel, result);
            }
            assert(pick(vs, Seq::<usize>::empty()) =~= Seq::empty());
            i = i + 1;
        }
        assert(pick(vs, emit_from(vs, by_time, p, i as nat)) =~= Seq::empty());
        assert(views(result@) =~= views(result@) + pick(vs, emit_from(vs, by_time, p, i as nat)));
    }
}


/// Filtering is a pure predicate: filtering what was kept keeps all of it.
pub proof fn lemma_filter_idempotent(cfg: Config, es: Seq<EntryView>)
    ensures
        kept(cfg, kept(cfg, es)) == kept(cfg, es),
        forall|k: int| 0 <= k < kept(cfg, es).len() ==> keeps(cfg, #[trigger] kept(cfg, es)[k]),
{
    broadcast use vstd::seq_lib::group_filter_ensures;

    let f = |e: EntryView| keeps(cfg, e);
    lemma_filter_all(es.filter(f), f);
}

proof fn lemma_filter_all(s: Seq<EntryView>, f: spec_fn(EntryView) -> bool)
    requires
        forall|k: int| 0 <= k < s.len() ==> f(#[trigger] s[k]),
    ensures
        s.filter(f) == s,
    decreases s.len(),
{
    reveal(Seq::filter);
    if s.len() > 0 {
        lemma_filter_all(s.drop_last(), f);
        assert(s.drop_last().push(s.last()) =~= s);
    }
}

} // verus!
