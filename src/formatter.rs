//! Rendering of the ordered sequence: one text line per entry, as a tree
//! drawing or as a flat list, and the nested document of the JSON mode.
use vstd::prelude::*;
use crate::config::Config;
use crate::entry::{comps, same_parent, same_parent_of, same_path, views, Entry, EntryKind, EntryView};
use crate::order::name_bytes;
use crate::assembly::{first_root, lemma_root_upto_stable, root_upto};
use crate::text::{decimal, human_size, humanize_size, lossy_of, lossy_text, push_char, push_decimal};

verus! {

/// Nanoseconds in one second.
pub const NANOS_PER_SEC: u64 = 1_000_000_000;

/// Any of the three execute bits.
pub const EXEC_BITS: u32 = 0o111;

/// The permission column: a fixed text for each kind of entry.
pub open spec fn perms_text(e: EntryView) -> Seq<char> {
    if e.is_dir() {
        "drwxr-xr-x"@
    } else if e.kind == EntryKind::Symlink {
        "lrwxrwxrwx"@
    } else {
        "-rw-r--r--"@
    }
}

/// The size column: empty for directories and for unknown sizes.
pub open spec fn size_text(e: EntryView) -> Seq<char> {
    if e.is_dir() {
        Seq::empty()
    } else {
        match e.size {
            Some(n) => human_size(n as nat),
            None => Seq::empty(),
        }
    }
}

/// The time column: whole seconds since the Unix epoch, empty when unknown.
pub open spec fn mtime_text(e: EntryView) -> Seq<char> {
    match e.modified {
        Some(t) => decimal((t / NANOS_PER_SEC) as nat),
        None => Seq::empty(),
    }
}

/// Whether some execute bit is set.
pub open spec fn is_exec(e: EntryView) -> bool {
    match e.mode {
        Some(m) => m & EXEC_BITS != 0,
        None => false,
    }
}

/// A character shown as it is in quiet mode: printable ASCII or ASCII
/// white space.
pub open spec fn printable(c: char) -> bool {
    ('!' <= c && c <= '~') || c == ' ' || c == '\t' || c == '\n' || c == '\x0C' || c == '\r'
}

/// `s` with every character that is not `printable` replaced by `?`.
pub open spec fn quiet_text(s: Seq<char>) -> Seq<char> {
    s.map_values(|c: char| if printable(c) { c } else { '?' })
}

/// The name column: the name or the full path, with its type mark, and in
/// quiet mode with unprintable characters replaced.
pub open spec fn shown_name(cfg: Config, e: EntryView) -> Seq<char> {
    let base = if cfg.args.full_path { e.display } else { lossy_of(e.name()) };
    let marked = if !cfg.args.filelimit {
        base
    } else if e.is_dir() {
        base.push('/')
    } else if e.kind == EntryKind::Symlink {
        base.push('@')
    } else if is_exec(e) {
        base.push('*')
    } else {
        base
    };
    if cfg.args.quiet {
        quiet_text(marked)
    } else {
        marked
    }
}

/// A column followed by two spaces, when the column is shown.
pub open spec fn column(shown: bool, t: Seq<char>) -> Seq<char> {
    if shown {
        t + "  "@
    } else {
        Seq::empty()
    }
}

/// The text of one entry: the chosen columns, then the name.
pub open spec fn entry_text(cfg: Config, e: EntryView) -> Seq<char> {
    column(cfg.args.perms, perms_text(e)) + column(cfg.args.uid, "user"@) + column(cfg.args.gid, "group"@)
        + column(cfg.args.size, size_text(e)) + column(cfg.args.mtime, mtime_text(e)) + shown_name(cfg, e)
}

/// Entry `j` is in the same sibling group as entry `i`.
pub open spec fn sibling(es: Seq<EntryView>, i: int, j: int) -> bool {
    &&& es[j].depth == es[i].depth
    &&& es[j].has_parent()
    &&& es[j].parent() == es[i].parent()
}

/// Entry `i` is the last of its sibling group: no later entry of the group
/// has another path.
pub open spec fn is_last(es: Seq<EntryView>, i: int) -> bool {
    forall|j: int| i < j < es.len() && #[trigger] sibling(es, i, j) ==> es[j].path == es[i].path
}

/// The open ancestors kept for an entry at `depth`: at most `depth - 1`.
pub open spec fn open_ancestors(st: Seq<bool>, depth: nat) -> Seq<bool> {
    if st.len() < depth {
        st
    } else {
        st.take(depth - 1)
    }
}

/// The stack of open ancestor directories after the first `n` entries:
/// for each, whether it was the last of its sibling group.
pub open spec fn stack_after(es: Seq<EntryView>, n: nat) -> Seq<bool>
    decreases n,
{
    if n == 0 {
        Seq::empty()
    } else {
        let st = stack_after(es, (n - 1) as nat);
        let e = es[n - 1];
        if e.depth == 0 {
            st
        } else {
            let t = open_ancestors(st, e.depth);
            if e.has_parent() && e.is_dir() {
                t.push(is_last(es, n - 1))
            } else {
                t
            }
        }
    }
}

/// The continuation segment under an ancestor.
pub open spec fn segment(ascii: bool, last: bool) -> Seq<char> {
    if last {
        "    "@
    } else if ascii {
        "|   "@
    } else {
        "│   "@
    }
}

/// The connector in front of an entry.
pub open spec fn connector(ascii: bool, last: bool) -> Seq<char> {
    if last {
        if ascii { "`-- "@ } else { "└── "@ }
    } else {
        if ascii { "|-- "@ } else { "├── "@ }
    }
}

/// One segment per open ancestor.
pub open spec fn prefix_text(ascii: bool, st: Seq<bool>) -> Seq<char>
    decreases st.len(),
{
    if st.len() == 0 {
        Seq::empty()
    } else {
        prefix_text(ascii, st.drop_last()) + segment(ascii, st.last())
    }
}

/// The tree lines of the first `n` entries: roots and entries without a
/// parent have none.
pub open spec fn tree_lines(cfg: Config, es: Seq<EntryView>, n: nat) -> Seq<Seq<char>>
    decreases n,
{
    if n == 0 {
        Seq::empty()
    } else {
        let prev = tree_lines(cfg, es, (n - 1) as nat);
        let e = es[n - 1];
        if e.depth == 0 || !e.has_parent() {
            prev
        } else {
            let t = open_ancestors(stack_after(es, (n - 1) as nat), e.depth);
            prev.push(prefix_text(cfg.args.ascii, t) + connector(cfg.args.ascii, is_last(es, n - 1)) + entry_text(cfg, e))
        }
    }
}

/// The lines of the reduced mode: one per entry that is not a root.
pub open spec fn flat_lines(cfg: Config, es: Seq<EntryView>, n: nat) -> Seq<Seq<char>>
    decreases n,
{
    if n == 0 {
        Seq::empty()
    } else {
        let prev = flat_lines(cfg, es, (n - 1) as nat);
        if es[n - 1].depth == 0 {
            prev
        } else {
            prev.push(entry_text(cfg, es[n - 1]))
        }
    }
}

/// The number of directories among the first `n` entries.
pub open spec fn dir_count(es: Seq<EntryView>, n: nat) -> nat
    decreases n,
{
    if n == 0 {
        0
    } else {
        dir_count(es, (n - 1) as nat) + if es[n - 1].is_dir() { 1nat } else { 0nat }
    }
}

/// The summary line for `d` directories and `f` other entries.
pub open spec fn summary_text(d: nat, f: nat) -> Seq<char> {
    decimal(d) + (if d == 1 { " directory"@ } else { " directories"@ }) + (if d > 0 && f > 0 {
        ","@
    } else {
        Seq::empty()
    }) + " "@ + decimal(f) + (if f == 1 { " file"@ } else { " files"@ })
}

/// The blank line and the summary line that close a tree; none when there
/// is nothing below the root. The root is not counted.
pub open spec fn summary_lines(es: Seq<EntryView>) -> Seq<Seq<char>> {
    let dirs = dir_count(es, es.len());
    let files = (es.len() - dirs) as nat;
    let shown_dirs = if dirs > 0 { (dirs - 1) as nat } else { 0nat };
    if shown_dirs > 0 || files > 0 {
        seq![Seq::empty(), summary_text(shown_dirs, files)]
    } else {
        Seq::empty()
    }
}

/// All output lines of the text mode.
pub open spec fn tree_output(cfg: Config, es: Seq<EntryView>) -> Seq<Seq<char>> {
    if cfg.args.noreport {
        flat_lines(cfg, es, es.len())
    } else {
        tree_lines(cfg, es, es.len()) + summary_lines(es)
    }
}

/// The texts of a sequence of strings.
pub open spec fn texts(ls: Seq<String>) -> Seq<Seq<char>> {
    ls.map_values(|l: String| l@)
}

proof fn lemma_dir_count_bound(es: Seq<EntryView>, n: nat)
    requires
        n <= es.len(),
    ensures
        dir_count(es, n) <= n,
    decreases n,
{
    if n > 0 {
        lemma_dir_count_bound(es, (n - 1) as nat);
    }
}

/// Whether entry `i` is the last of its sibling group.
fn is_last_sibling(entries: &Vec<Entry>, i: usize) -> (r: bool)
    requires
        i < entries.len(),
        entries@[i as int]@.has_parent(),
    ensures
        r == is_last(views(entries@), i as int),
{
    let ghost vs = views(entries@);
    let e = &entries[i];
    assert(vs[i as int] == e@);
    let mut j: usize = i + 1;
    while j < entries.len()
        invariant
            i < j <= entries.len(),
            vs == views(entries@),
            vs[i as int] == e@,
            e@.has_parent(),
            forall|m: int| i < m < j && #[trigger] sibling(vs, i as int, m) ==> vs[m].path == vs[i as int].path,
        decreases entries.len() - j,
    {
        let f = &entries[j];
        assert(vs[j as int] == f@);
        if f.depth == e.depth && f.path.len() > 0 && same_parent(&f.path, &e.path) && !same_path(&f.path, &e.path) {
            assert(sibling(vs, i as int, j as int));
            return false;
        }
        j = j + 1;
    }
    true
}

proof fn lemma_prefix_push(ascii: bool, st: Seq<bool>, b: bool)
    ensures
        prefix_text(ascii, st.push(b)) == prefix_text(ascii, st) + segment(ascii, b),
{
    assert(st.push(b).drop_last() =~= st);
}

/// The prefix of one line: one segment per open ancestor.
fn prefix_string(ascii: bool, st: &Vec<bool>) -> (r: String)
    ensures
        r@ == prefix_text(ascii, st@),
{
    let mut line = String::new();
    let mut k: usize = 0;
    while k < st.len()
        invariant
            k <= st.len(),
            line@ == prefix_text(ascii, st@.take(k as int)),
        decreases st.len() - k,
    {
        proof {
            lemma_prefix_push(ascii, st@.take(k as int), st@[k as int]);
            assert(st@.take(k as int).push(st@[k as int]) =~= st@.take(k + 1));
        }
        if st[k] {
            line.append("    ");
        } else if ascii {
            line.append("|   ");
        } else {
            line.append("│   ");
        }
        k = k + 1;
    }
    assert(st@.take(k as int) =~= st@);
    line
}

fn connector_string(ascii: bool, last: bool) -> (r: &'static str)
    ensures
        r@ == connector(ascii, last),
{
    if last {
        if ascii { "`-- " } else { "└── " }
    } else {
        if ascii { "|-- " } else { "├── " }
    }
}

/// The summary line, as `summary_text` states it.
fn summary_string(d: u64, f: u64) -> (r: String)
    ensures
        r@ == summary_text(d as nat, f as nat),
{
    let mut s = String::new();
    push_decimal(&mut s, d);
    s.append(if d == 1 { " directory" } else { " directories" });
    if d > 0 && f > 0 {
        s.append(",");
    }
    s.append(" ");
    push_decimal(&mut s, f);
    s.append(if f == 1 { " file" } else { " files" });
    assert(s@ =~= summary_text(d as nat, f as nat));
    s
}

/// One node of the JSON document.
pub struct FileNode {
    pub name: String,
    pub path: String,
    pub is_dir: bool,
    pub size: u64,
    pub modified: u64,
    pub children: Vec<FileNode>,
}

/// The mathematical content of a [`FileNode`].
pub ghost struct NodeView {
    pub name: Seq<char>,
    pub path: Seq<char>,
    pub is_dir: bool,
    pub size: u64,
    pub modified: u64,
    pub children: Seq<NodeView>,
}

impl FileNode {
    /// The node and all its descendants, as mathematical values.
    pub open spec fn node_view(self) -> NodeView
        decreases self,
    {
        NodeView {
            name: self.name@,
            path: self.path@,
            is_dir: self.is_dir,
            size: self.size,
            modified: self.modified,
            children: Seq::new(
                self.children.len() as nat,
                |i: int|
                    if 0 <= i < self.children.len() {
                        self.children[i].node_view()
                    } else {
                        NodeView {
                            name: Seq::empty(),
                            path: Seq::empty(),
                            is_dir: false,
                            size: 0,
                            modified: 0,
                            children: Seq::empty(),
                        }
                    },
            ),
        }
    }
}

/// The views of a sequence of nodes.
pub open spec fn node_views(ns: Seq<FileNode>) -> Seq<NodeView> {
    ns.map_values(|n: FileNode| n.node_view())
}

/// The greatest depth in `es`.
pub open spec fn max_depth(es: Seq<EntryView>) -> nat
    decreases es.len(),
{
    if es.len() == 0 {
        0
    } else {
        let m = max_depth(es.drop_last());
        if es.last().depth > m {
            es.last().depth
        } else {
            m
        }
    }
}

pub proof fn lemma_max_depth(es: Seq<EntryView>, j: int)
    requires
        0 <= j < es.len(),
    ensures
        es[j].depth <= max_depth(es),
    decreases es.len(),
{
    if j < es.len() - 1 {
        lemma_max_depth(es.drop_last(), j);
    }
}

proof fn lemma_max_depth_attained(es: Seq<EntryView>)
    ensures
        max_depth(es) == 0 || exists|j: int| 0 <= j < es.len() && es[j].depth == max_depth(es),
    decreases es.len(),
{
    if es.len() > 0 {
        lemma_max_depth_attained(es.drop_last());
        if max_depth(es) != es.last().depth && max_depth(es) != 0 {
            let j = choose|j: int| 0 <= j < es.drop_last().len() && es.drop_last()[j].depth == max_depth(es.drop_last());
            assert(es[j].depth == max_depth(es));
        }
    }
}

/// The modification time in whole seconds, 0 when unknown.
pub open spec fn seconds_or_zero(e: EntryView) -> u64 {
    match e.modified {
        Some(t) => (t / NANOS_PER_SEC) as u64,
        None => 0,
    }
}

/// The node of entry `e` with the given children.
pub open spec fn node_of(e: EntryView, is_dir: bool, children: Seq<NodeView>) -> NodeView {
    NodeView {
        name: lossy_of(e.name()),
        path: e.display,
        is_dir,
        size: match e.size {
            Some(n) => n,
            None => 0,
        },
        modified: seconds_or_zero(e),
        children,
    }
}

/// The nodes of the entries among the first `n` that stand at `depth` and
/// whose parent is `p`, in their order; a directory's node holds the nodes
/// one level deeper whose parent it is.
pub open spec fn json_children(es: Seq<EntryView>, p: Seq<Seq<u8>>, depth: nat, n: nat) -> Seq<NodeView>
    decreases max_depth(es) + 1 - depth, n,
{
    if n == 0 || n > es.len() {
        Seq::empty()
    } else {
        let prev = json_children(es, p, depth, (n - 1) as nat);
        let e = es[n - 1];
        if e.depth == depth && e.has_parent() && e.parent() == p {
            proof {
                lemma_max_depth(es, n - 1);
            }
            let children = if e.is_dir() {
                json_children(es, e.path, depth + 1, es.len())
            } else {
                Seq::empty()
            };
            prev.push(node_of(e, e.is_dir(), children))
        } else {
            prev
        }
    }
}

/// The JSON document of a sequence of entries: the first root with its
/// descendants, or an empty `.` node when there is no root.
pub open spec fn json_tree(es: Seq<EntryView>) -> NodeView {
    match first_root(es) {
        Some(r) => node_of(es[r as int], true, json_children(es, es[r as int].path, 1, es.len())),
        None => NodeView {
            name: "."@,
            path: "."@,
            is_dir: true,
            size: 0,
            modified: 0,
            children: Seq::empty(),
        },
    }
}

proof fn lemma_json_children_too_deep(es: Seq<EntryView>, p: Seq<Seq<u8>>, depth: nat, n: nat)
    requires
        depth > max_depth(es),
    ensures
        json_children(es, p, depth, n) == Seq::<NodeView>::empty(),
    decreases n,
{
    if n > 0 && n <= es.len() {
        lemma_max_depth(es, n - 1);
        lemma_json_children_too_deep(es, p, depth, (n - 1) as nat);
    }
}

/// The output formatter.
pub struct Formatter {
    pub config: Config,
    /// For each open ancestor directory, whether it was last among its siblings.
    pub last_entries: Vec<bool>,
}

impl Formatter {
    /// A formatter for the given configuration.
    pub fn new(config: Config) -> (r: Formatter)
        ensures
            r.config == config,
    {
        Formatter { config, last_entries: Vec::new() }
    }

    fn format_perms(&self, entry: &Entry) -> (r: String)
        ensures
            r@ == perms_text(entry@),
    {
        match entry.kind {
            EntryKind::Dir => String::from_str("drwxr-xr-x"),
            EntryKind::Symlink => String::from_str("lrwxrwxrwx"),
            EntryKind::File => String::from_str("-rw-r--r--"),
        }
    }

    fn format_size(&self, entry: &Entry) -> (r: String)
        ensures
            r@ == size_text(entry@),
    {
        if matches!(entry.kind, EntryKind::Dir) {
            return String::new();
        }
        match entry.size {
            Some(n) => humanize_size(n),
            None => String::new(),
        }
    }

    fn format_mtime(&self, entry: &Entry) -> (r: String)
        ensures
            r@ == mtime_text(entry@),
    {
        let mut s = String::new();
        if let Some(t) = entry.modified {
            push_decimal(&mut s, t / NANOS_PER_SEC);
        }
        assert(s@ =~= mtime_text(entry@));
        s
    }

    fn is_executable(&self, entry: &Entry) -> (r: bool)
        ensures
            r == is_exec(entry@),
    {
        match entry.mode {
            Some(m) => m & EXEC_BITS != 0,
            None => false,
        }
    }

    fn format_filename(&self, entry: &Entry) -> (r: String)
        ensures
            r@ == shown_name(self.config, entry@),
    {
        let mut filename = if self.config.args.full_path {
            entry.display.clone()
        } else {
            lossy_text(name_bytes(entry))
        };
        if self.config.args.filelimit {
            match entry.kind {
                EntryKind::Dir => push_char(&mut filename, '/'),
                EntryKind::Symlink => push_char(&mut filename, '@'),
                EntryKind::File => {
                    if self.is_executable(entry) {
                        push_char(&mut filename, '*');
                    }
                },
            }
        }
        if self.config.args.quiet {
            let n = filename.as_str().unicode_len();
            let mut quiet = String::new();
            let mut i: usize = 0;
            while i < n
                invariant
                    i <= n,
                    n == filename@.len(),
                    quiet@ == quiet_text(filename@).take(i as int),
                decreases n - i,
            {
                let c = filename.as_str().get_char(i);
                let shown = if ('!' <= c && c <= '~') || c == ' ' || c == '\t' || c == '\n' || c == '\x0C' || c == '\r' {
                    c
                } else {
                    '?'
                };
                push_char(&mut quiet, shown);
                i = i + 1;
                assert(quiet@ =~= quiet_text(filename@).take(i as int));
            }
            assert(quiet_text(filename@).take(n as int) =~= quiet_text(filename@));
            quiet
        } else {
            filename
        }
    }

    /// The text of one entry, as `entry_text` states it.
    pub fn format_entry(&self, entry: &Entry) -> (r: String)
        ensures
            r@ == entry_text(self.config, entry@),
    {
        let args = &self.config.args;
        let mut result = String::new();
        let perms = if args.perms { self.format_perms(entry) } else { String::new() };
        push_column(&mut result, args.perms, perms.as_str());
        push_column(&mut result, args.uid, "user");
        push_column(&mut result, args.gid, "group");
        let size = if args.size { self.format_size(entry) } else { String::new() };
        push_column(&mut result, args.size, size.as_str());
        let mtime = if args.mtime { self.format_mtime(entry) } else { String::new() };
        push_column(&mut result, args.mtime, mtime.as_str());
        let ghost columns = result@;
        result.append(self.format_filename(entry).as_str());
        assert(result@ == columns + shown_name(self.config, entry@));
        result
    }

    /// The lines of the text mode: in reduced mode one line per entry that
    /// is not a root; otherwise one tree line per entry below the root, then
    /// a blank line and the summary.
    pub fn format_tree(&mut self, entries: &Vec<Entry>) -> (lines: Vec<String>)
        ensures
            final(self).config == old(self).config,
            texts(lines@) == tree_output(old(self).config, views(entries@)),
    {
        let ghost vs = views(entries@);
        let ghost cfg = self.config;
        let mut dirs: usize = 0;
        let mut k: usize = 0;
        while k < entries.len()
            invariant
                k <= entries.len(),
                vs == views(entries@),
                dirs == dir_count(vs, k as nat),
                dirs <= k,
            decreases entries.len() - k,
        {
            assert(vs[k as int] == entries@[k as int]@);
            if matches!(entries[k].kind, EntryKind::Dir) {
                dirs = dirs + 1;
            }
            k = k + 1;
        }
        let files = entries.len() - dirs;
        let shown_dirs = if dirs > 0 { dirs - 1 } else { 0 };
        let mut lines: Vec<String> = Vec::new();
        if self.config.args.noreport {
            let mut i: usize = 0;
            while i < entries.len()
                invariant
                    i <= entries.len(),
                    vs == views(entries@),
                    cfg == self.config,
                    texts(lines@) == flat_lines(cfg, vs, i as nat),
                decreases entries.len() - i,
            {
                assert(vs[i as int] == entries@[i as int]@);
                if entries[i].depth != 0 {
                    let ghost before = lines@;
                    lines.push(self.format_entry(&entries[i]));
                    assert(texts(lines@) =~= texts(before).push(lines@.last()@));
                }
                i = i + 1;
            }
            return lines;
        }
        self.last_entries = Vec::new();
        let ascii = self.config.args.ascii;
        let mut i: usize = 0;
        while i < entries.len()
            invariant
                i <= entries.len(),
                vs == views(entries@),
                cfg == self.config,
                ascii == cfg.args.ascii,
                self.last_entries@ == stack_after(vs, i as nat),
                texts(lines@) == tree_lines(cfg, vs, i as nat),
            decreases entries.len() - i,
        {
            let e = &entries[i];
            assert(vs[i as int] == e@);
            let depth = e.depth;
            if depth != 0 {
                let ghost st = self.last_entries@;
                while self.last_entries.len() >= depth
                    invariant
                        depth > 0,
                        cfg == self.config,
                        self.last_entries@ == st.take(self.last_entries@.len() as int),
                        self.last_entries@.len() <= st.len(),
                        st.len() >= depth ==> self.last_entries@.len() >= depth - 1,
                        st.len() < depth ==> self.last_entries@ == st,
                    decreases self.last_entries.len(),
                {
                    self.last_entries.pop();
                    assert(self.last_entries@ =~= st.take(self.last_entries@.len() as int));
                }
                assert(self.last_entries@ =~= open_ancestors(st, depth as nat));
                if e.path.len() > 0 {
                    let last = is_last_sibling(entries, i);
                    let mut line = prefix_string(ascii, &self.last_entries);
                    line.append(connector_string(ascii, last));
                    line.append(self.format_entry(e).as_str());
                    let ghost before = lines@;
                    lines.push(line);
                    assert(texts(lines@) =~= texts(before).push(lines@.last()@));
                    if matches!(e.kind, EntryKind::Dir) {
                        self.last_entries.push(last);
                    }
                }
            }
            i = i + 1;
        }
        assert(texts(lines@) == tree_lines(cfg, vs, vs.len()));
        proof {
            lemma_dir_count_bound(vs, vs.len());
        }
        if shown_dirs > 0 || files > 0 {
            let ghost before = lines@;
            lines.push(String::new());
            lines.push(summary_string(shown_dirs as u64, files as u64));
            assert(texts(lines@) =~= texts(before) + summary_lines(vs));
        } else {
            assert(summary_lines(vs) =~= Seq::<Seq<char>>::empty());
            assert(texts(lines@) =~= texts(lines@) + summary_lines(vs));
        }
        lines
    }

    /// The node of one entry with the given children.
    fn node_for(&self, entry: &Entry, is_dir: bool, children: Vec<FileNode>) -> (r: FileNode)
        ensures
            r.node_view() == node_of(entry@, is_dir, node_views(children@)),
    {
        let r = FileNode {
            name: lossy_text(name_bytes(entry)),
            path: entry.display.clone(),
            is_dir,
            size: match entry.size {
                Some(n) => n,
                None => 0,
            },
            modified: match entry.modified {
                Some(t) => t / NANOS_PER_SEC,
                None => 0,
            },
            children,
        };
        assert(r.node_view().children =~= node_views(r.children@));
        r
    }

    /// The nodes of the entries at `depth` whose parent is `parent`, each
    /// directory with its own children.
    fn build_children_recursive(&self, entries: &Vec<Entry>, parent: &Vec<Vec<u8>>, depth: usize) -> (r: Vec<FileNode>)
        ensures
            node_views(r@) == json_children(views(entries@), comps(parent@), depth as nat, entries.len() as nat),
        decreases max_depth(views(entries@)) + 1 - depth,
    {
        let ghost vs = views(entries@);
        let ghost p = comps(parent@);
        let mut r: Vec<FileNode> = Vec::new();
        let mut j: usize = 0;
        while j < entries.len()
            invariant
                j <= entries.len(),
                vs == views(entries@),
                p == comps(parent@),
                node_views(r@) == json_children(vs, p, depth as nat, j as nat),
            decreases entries.len() - j,
        {
            let e = &entries[j];
            assert(vs[j as int] == e@);
            let n = e.path.len();
            if e.depth == depth && n > 0 && same_parent_of(&e.path, parent) {
                proof {
                    lemma_max_depth(vs, j as int);
                }
                let is_dir = matches!(e.kind, EntryKind::Dir);
                let children = if !is_dir {
                    Vec::new()
                } else if depth < usize::MAX {
                    self.build_children_recursive(entries, &e.path, depth + 1)
                } else {
                    proof {
                        lemma_max_depth_attained(vs);
                        if max_depth(vs) != 0 {
                            let m = choose|m: int| 0 <= m < vs.len() && vs[m].depth == max_depth(vs);
                            assert(vs[m] == entries@[m]@);
                        }
                        lemma_json_children_too_deep(vs, e@.path, (depth + 1) as nat, vs.len());
                    }
                    Vec::new()
                };
                assert(node_views(children@) == if is_dir {
                    json_children(vs, e@.path, (depth + 1) as nat, vs.len())
                } else {
                    Seq::<NodeView>::empty()
                });
                let ghost before = r@;
                r.push(self.node_for(e, is_dir, children));
                assert(node_views(r@) =~= node_views(before).push(r@.last().node_view()));
            }
            j = j + 1;
        }
        r
    }

    /// The JSON document of the entries, as `json_tree` states it.
    pub fn build_file_tree(&self, entries: &Vec<Entry>) -> (r: FileNode)
        ensures
            r.node_view() == json_tree(views(entries@)),
    {
        let ghost vs = views(entries@);
        let mut i: usize = 0;
        let mut root: Option<usize> = None;
        while i < entries.len() && root.is_none()
            invariant
                i <= entries.len(),
                vs == views(entries@),
                match root {
                    Some(r) => first_root(vs) == Some(r as nat) && r < entries.len(),
                    None => root_upto(vs, i as nat) is None,
                },
            decreases entries.len() - i,
        {
            assert(vs[i as int] == entries@[i as int]@);
            if entries[i].depth == 0 {
                proof {
                    lemma_root_upto_stable(vs, (i + 1) as nat, vs.len());
                }
                root = Some(i);
            }
            i = i + 1;
        }
        match root {
            None => {
                let r = FileNode {
                    name: String::from_str("."),
                    path: String::from_str("."),
                    is_dir: true,
                    size: 0,
                    modified: 0,
                    children: Vec::new(),
                };
                assert(r.node_view().children =~= Seq::<NodeView>::empty());
                r
            },
            Some(k) => {
                assert(vs[k as int] == entries@[k as int]@);
                let children = self.build_children_recursive(entries, &entries[k].path, 1);
                self.node_for(&entries[k], true, children)
            },
        }
    }
}

/// Appends a column followed by two spaces, when it is shown.
fn push_column(result: &mut String, shown: bool, t: &str)
    ensures
        final(result)@ == old(result)@ + column(shown, t@),
{
    if shown {
        result.append(t);
        result.append("  ");
        assert(final(result)@ =~= old(result)@ + column(shown, t@));
    } else {
        assert(old(result)@ + column(shown, t@) =~= old(result)@);
    }
}

} // verus!
