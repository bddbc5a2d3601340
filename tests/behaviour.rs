use treecmd::{Args, Config, Entry, EntryKind, FileNode, Formatter, Pattern, TreeError, Walker};

fn base_args() -> Args {
    Args {
        all: false,
        ascii: false,
        color: false,
        dirs_only: false,
        mtime: false,
        filelimit: false,
        full_path: false,
        gid: false,
        noreport: false,
        exclude: None,
        follow_links: false,
        no_color: true,
        literal: false,
        include_pattern: None,
        perms: false,
        quiet: false,
        size: false,
        sort: None,
        uid: false,
        samefilesystem: false,
        level: None,
        path: None,
        json: false,
        progress: false,
        threads: None,
    }
}

fn plain(args: Args) -> Config {
    Config { args, color_enabled: false, exclude_regex: None, include_regex: None, depth: 3 }
}

fn make(path: &str, kind: EntryKind, modified: Option<u64>) -> Entry {
    let parts: Vec<Vec<u8>> = path.split('/').map(|c| c.as_bytes().to_vec()).collect();
    Entry {
        depth: parts.len() - 1,
        path: parts,
        display: path.to_string(),
        kind,
        size: Some(100),
        modified,
        mode: Some(0o644),
    }
}

fn dir(path: &str) -> Entry {
    make(path, EntryKind::Dir, Some(1))
}

fn file(path: &str) -> Entry {
    make(path, EntryKind::File, Some(1))
}

fn displays(es: &[Entry]) -> Vec<String> {
    es.iter().map(|e| e.display.clone()).collect()
}

fn project() -> Vec<Entry> {
    vec![
        make("./src/main.rs", EntryKind::File, Some(5)),
        make(".", EntryKind::Dir, Some(1)),
        make("./Cargo.toml", EntryKind::File, Some(3)),
        make("./target", EntryKind::Dir, Some(9)),
        make("./src", EntryKind::Dir, Some(4)),
        make("./src/lib.rs", EntryKind::File, Some(6)),
        make("./.git", EntryKind::Dir, Some(2)),
        make("./.git/config", EntryKind::File, Some(2)),
        make("./Cargo.lock", EntryKind::File, Some(7)),
        make("./target/debug", EntryKind::Dir, Some(8)),
        make("./tests", EntryKind::Dir, None),
        make("./tests/integration.rs", EntryKind::File, Some(3)),
    ]
}

fn ordered(args: Args) -> Vec<Entry> {
    let walker = Walker::new(plain(args));
    let kept = walker.filter_entries(project());
    walker.sort_entries(kept).unwrap()
}

#[test]
fn ordered_by_name_with_directories_first() {
    let got = ordered(base_args());
    assert_eq!(
        displays(&got),
        vec![
            ".",
            "./src",
            "./src/lib.rs",
            "./src/main.rs",
            "./target",
            "./target/debug",
            "./tests",
            "./tests/integration.rs",
            "./Cargo.lock",
            "./Cargo.toml",
        ]
    );
}

#[test]
fn ordered_by_time_newest_first_unknown_last() {
    let mut a = base_args();
    a.sort = Some("time".to_string());
    let got = ordered(a);
    assert_eq!(
        displays(&got),
        vec![
            ".",
            "./target",
            "./target/debug",
            "./src",
            "./src/lib.rs",
            "./src/main.rs",
            "./tests",
            "./tests/integration.rs",
            "./Cargo.lock",
            "./Cargo.toml",
        ]
    );
}

#[test]
fn directories_precede_files_in_both_modes() {
    for mode in [None, Some("time".to_string())] {
        let mut a = base_args();
        a.sort = mode;
        let got = ordered(a);
        let top: Vec<&Entry> = got.iter().filter(|e| e.depth == 1).collect();
        let first_file = top.iter().position(|e| e.kind != EntryKind::Dir).unwrap();
        assert!(top[first_file..].iter().all(|e| e.kind != EntryKind::Dir));
        assert_eq!(first_file, 3);
    }
}

#[test]
fn parallel_assembly_matches_sequential() {
    for mode in [None, Some("time".to_string())] {
        let mut a = base_args();
        a.all = true;
        a.sort = mode;
        let walker = Walker::new(plain(a));
        let seq = walker.sort_entries(project()).unwrap();
        let par = walker.parallel_sort_entries(project()).unwrap();
        assert_eq!(displays(&seq), displays(&par));
    }
}

#[test]
fn missing_root_is_an_error() {
    let walker = Walker::new(plain(base_args()));
    let no_root = vec![file("./a"), file("./b")];
    assert_eq!(walker.sort_entries(no_root).err(), Some(TreeError::MissingRoot));
    assert_eq!(walker.parallel_sort_entries(Vec::new()).err(), Some(TreeError::MissingRoot));
}

#[test]
fn hidden_directory_hides_its_children() {
    let walker = Walker::new(plain(base_args()));
    let kept = walker.filter_entries(vec![dir("."), dir("./.git"), file("./.git/config")]);
    assert_eq!(displays(&kept), vec!["."]);

    let mut a = base_args();
    a.all = true;
    let walker = Walker::new(plain(a));
    let kept = walker.filter_entries(vec![dir("."), dir("./.git"), file("./.git/config")]);
    assert_eq!(displays(&kept), vec![".", "./.git", "./.git/config"]);
}

#[test]
fn root_is_always_kept() {
    let mut a = base_args();
    a.dirs_only = true;
    a.include_pattern = Some("zzz".to_string());
    let mut c = plain(a);
    c.include_regex = Some(Pattern::new("zzz").unwrap());
    let walker = Walker::new(c);
    assert!(walker.filter_entry(&file(".hidden")));
}

#[test]
fn exclude_wins_over_include() {
    let mut a = base_args();
    a.exclude = Some("target".to_string());
    a.include_pattern = Some(".*".to_string());
    let c = Config::new(a, false).unwrap();
    let walker = Walker::new(c);
    let kept = walker.filter_entries(vec![dir("."), file("./target"), file("./Cargo.toml")]);
    assert_eq!(displays(&kept), vec![".", "./Cargo.toml"]);
}

fn raw_name_entry(name: &[u8]) -> Entry {
    Entry {
        path: vec![b".".to_vec(), name.to_vec()],
        display: "./x".to_string(),
        depth: 1,
        kind: EntryKind::File,
        size: None,
        modified: None,
        mode: None,
    }
}

#[test]
fn names_that_are_not_text() {
    let odd = raw_name_entry(&[b'f', 0xff]);
    let mut a = base_args();
    a.include_pattern = Some("f".to_string());
    let walker = Walker::new(Config::new(a, false).unwrap());
    assert!(!walker.filter_entry(&odd));

    let mut a = base_args();
    a.exclude = Some("f".to_string());
    let walker = Walker::new(Config::new(a, false).unwrap());
    assert!(walker.filter_entry(&odd));
    assert!(!walker.filter_entry(&raw_name_entry(b"f")));

    let formatter = Formatter::new(plain(base_args()));
    assert_eq!(formatter.format_entry(&odd), "f\u{FFFD}");
}

#[test]
fn configuration_from_arguments() {
    let c = Config::new(base_args(), true).unwrap();
    assert_eq!(c.depth, 3);
    assert!(!c.color_enabled);

    let mut a = base_args();
    a.no_color = false;
    a.level = Some(5);
    let c = Config::new(a.clone(), true).unwrap();
    assert_eq!(c.depth, 5);
    assert!(c.color_enabled);
    let c = Config::new(a.clone(), false).unwrap();
    assert!(!c.color_enabled);
    a.color = true;
    assert!(Config::new(a, false).unwrap().color_enabled);
}

#[test]
fn bad_patterns_are_reported() {
    let mut a = base_args();
    a.exclude = Some("(".to_string());
    a.include_pattern = Some("[".to_string());
    assert_eq!(Config::new(a.clone(), false).err().unwrap().pattern, "(");
    a.exclude = Some("ok".to_string());
    assert_eq!(Config::new(a, false).err().unwrap().pattern, "[");
    assert!(Pattern::new("a(b").is_err());
    let p = Pattern::new("^Car").unwrap();
    assert!(p.is_match("Cargo.toml"));
    assert!(!p.is_match("xCargo"));
}

fn lines(args: Args, entries: &Vec<Entry>) -> Vec<String> {
    let mut f = Formatter::new(plain(args));
    f.format_tree(entries)
}

#[test]
fn tree_drawing() {
    let got = lines(base_args(), &ordered(base_args()));
    assert_eq!(
        got,
        vec![
            "├── src",
            "│   ├── lib.rs",
            "│   └── main.rs",
            "├── target",
            "│   └── debug",
            "├── tests",
            "│   └── integration.rs",
            "├── Cargo.lock",
            "└── Cargo.toml",
            "",
            "4 directories, 5 files",
        ]
    );
}

#[test]
fn tree_drawing_ascii() {
    let mut a = base_args();
    a.ascii = true;
    let got = lines(a, &ordered(base_args()));
    assert_eq!(&got[..4], &["|-- src", "|   |-- lib.rs", "|   `-- main.rs", "|-- target"]);
    assert_eq!(got[8], "`-- Cargo.toml");
}

#[test]
fn last_directory_has_blank_continuation() {
    let es = vec![dir("."), file("./a"), dir("./z"), file("./z/b"), file("./z/c")];
    let got = lines(base_args(), &es);
    assert_eq!(got, vec!["├── a", "└── z", "    ├── b", "    └── c", "", "1 directory, 3 files"]);
}

#[test]
fn summary_counts_exclude_root() {
    let es = vec![dir("."), dir("./a"), dir("./a/b"), file("./f1"), file("./f2"), file("./f3")];
    let got = lines(base_args(), &es);
    assert_eq!(got.last().unwrap(), "2 directories, 3 files");
    let only_files = lines(base_args(), &vec![dir("."), file("./f")]);
    assert_eq!(only_files.last().unwrap(), "0 directories 1 file");
    assert!(lines(base_args(), &vec![dir(".")]).is_empty());
}

#[test]
fn reduced_mode_lists_entries_only() {
    let mut a = base_args();
    a.noreport = true;
    let es = vec![dir("."), dir("./a"), dir("./a/b"), file("./f1"), file("./f2"), file("./f3")];
    let got = lines(a, &es);
    assert_eq!(got, vec!["a", "b", "f1", "f2", "f3"]);
}

#[test]
fn entry_columns() {
    let mut a = base_args();
    a.perms = true;
    a.uid = true;
    a.gid = true;
    a.size = true;
    a.mtime = true;
    let f = Formatter::new(plain(a));
    let mut e = file("./notes.txt");
    e.size = Some(1536);
    e.modified = Some(1_700_000_000_500_000_000);
    assert_eq!(f.format_entry(&e), "-rw-r--r--  user  group  1.5 KB  1700000000  notes.txt");
    let mut d = dir("./src");
    d.modified = None;
    assert_eq!(f.format_entry(&d), "drwxr-xr-x  user  group      src");
}

#[test]
fn human_sizes() {
    let mut a = base_args();
    a.size = true;
    let f = Formatter::new(plain(a));
    let cases: [(u64, &str); 9] = [
        (0, "0 B"),
        (1023, "1023 B"),
        (1024, "1.0 KB"),
        (1280, "1.2 KB"),
        (1331, "1.3 KB"),
        (1048575, "1024.0 KB"),
        (3 * 1024 * 1024, "3.0 MB"),
        (5 * 1024 * 1024 * 1024 + 512 * 1024 * 1024, "5.5 GB"),
        (u64::MAX, "17179869184.0 GB"),
    ];
    for (size, text) in cases {
        let mut e = file("./x");
        e.size = Some(size);
        assert_eq!(f.format_entry(&e), format!("{}  x", text));
    }
}

#[test]
fn type_marks_full_paths_and_quiet_names() {
    let mut a = base_args();
    a.filelimit = true;
    a.full_path = true;
    let f = Formatter::new(plain(a));
    assert_eq!(f.format_entry(&dir("./src")), "./src/");
    let mut link = file("./ln");
    link.kind = EntryKind::Symlink;
    assert_eq!(f.format_entry(&link), "./ln@");
    let mut exe = file("./run");
    exe.mode = Some(0o755);
    assert_eq!(f.format_entry(&exe), "./run*");
    assert_eq!(f.format_entry(&file("./plain")), "./plain");

    let mut a = base_args();
    a.quiet = true;
    let f = Formatter::new(plain(a));
    assert_eq!(f.format_entry(&file("./a\u{7}b\u{e9} c")), "a?b? c");
}

fn count(n: &FileNode) -> usize {
    1 + n.children.iter().map(count).sum::<usize>()
}

fn flatten(n: &FileNode, out: &mut Vec<String>) {
    out.push(n.path.clone());
    for c in &n.children {
        flatten(c, out);
    }
}

#[test]
fn json_document_mirrors_the_order() {
    let mut a = base_args();
    a.all = true;
    let walker = Walker::new(plain(a.clone()));
    let seq = walker.sort_entries(project()).unwrap();
    let f = Formatter::new(plain(a));
    let tree = f.build_file_tree(&seq);
    assert_eq!(count(&tree), seq.len());
    let mut flat = Vec::new();
    flatten(&tree, &mut flat);
    assert_eq!(flat, displays(&seq));
    assert_eq!(tree.name, ".");
    assert!(tree.is_dir);
    let src = tree.children.iter().find(|c| c.name == "src").unwrap();
    assert_eq!(src.children.len(), 2);
    assert_eq!(src.children[0].modified, 0);
    assert_eq!(src.children[0].size, 100);
}

#[test]
fn json_document_without_root() {
    let f = Formatter::new(plain(base_args()));
    let tree = f.build_file_tree(&vec![file("./a")]);
    assert_eq!(tree.name, ".");
    assert_eq!(tree.path, ".");
    assert!(tree.children.is_empty());
}

#[test]
fn filtering_twice_changes_nothing() {
    let mut a = base_args();
    a.exclude = Some("lock".to_string());
    let walker = Walker::new(Config::new(a, false).unwrap());
    let once = walker.filter_entries(project());
    let twice = walker.filter_entries(walker.filter_entries(project()));
    assert_eq!(displays(&once), displays(&twice));
    assert_eq!(
        displays(&once),
        vec![
            "./src/main.rs",
            ".",
            "./Cargo.toml",
            "./target",
            "./src",
            "./src/lib.rs",
            "./target/debug",
            "./tests",
            "./tests/integration.rs",
        ]
    );
    for e in &once {
        assert_eq!(walker.filter_entry(e), walker.filter_entry(e));
    }
}

#[test]
fn parents_come_first() {
    let mut a = base_args();
    a.all = true;
    let got = ordered(a);
    assert_eq!(got.iter().filter(|e| e.depth == 0).count(), 1);
    assert_eq!(got[0].depth, 0);
    for (i, e) in got.iter().enumerate().skip(1) {
        let parent = &e.path[..e.path.len() - 1];
        let j = got.iter().position(|p| p.path.as_slice() == parent).unwrap();
        assert!(j < i);
        for between in &got[j + 1..i] {
            assert!(between.path.len() > parent.len() && &between.path[..parent.len()] == parent);
        }
    }
}
