use treecmd::{Args, Config, Entry, EntryKind, Formatter, Pattern, Walker};

fn args() -> Args {
    Args {
        all: true,
        ascii: false,
        color: false,
        dirs_only: false,
        mtime: false,
        filelimit: false,
        full_path: false,
        gid: false,
        noreport: false,
        exclude: None,
        follow_links: false,
        no_color: true,
        literal: false,
        include_pattern: None,
        perms: false,
        quiet: false,
        size: false,
        sort: None,
        uid: false,
        samefilesystem: false,
        level: Some(2),
        path: Some(".".to_string()),
        json: false,
        progress: false,
        threads: None,
    }
}

fn config(args: Args) -> Config {
    Config {
        args,
        color_enabled: false,
        exclude_regex: None,
        include_regex: None,
        depth: 2,
    }
}

fn entry(path: &str, kind: EntryKind, modified: Option<u64>) -> Entry {
    let parts: Vec<Vec<u8>> = path.split('/').map(|c| c.as_bytes().to_vec()).collect();
    Entry {
        depth: parts.len() - 1,
        path: parts,
        display: path.to_string(),
        kind,
        size: Some(100),
        modified,
        mode: Some(0o644),
    }
}

/// A project directory, listed in no particular order.
fn project() -> Vec<Entry> {
    vec![
        entry("./src/main.rs", EntryKind::File, Some(5)),
        entry(".", EntryKind::Dir, Some(1)),
        entry("./Cargo.toml", EntryKind::File, Some(3)),
        entry("./target", EntryKind::Dir, Some(9)),
        entry("./src", EntryKind::Dir, Some(4)),
        entry("./src/lib.rs", EntryKind::File, Some(6)),
        entry("./.git", EntryKind::Dir, Some(2)),
        entry("./.git/config", EntryKind::File, Some(2)),
        entry("./Cargo.lock", EntryKind::File, Some(7)),
        entry("./target/debug", EntryKind::Dir, Some(8)),
        entry("./tests", EntryKind::Dir, None),
        entry("./tests/integration.rs", EntryKind::File, Some(3)),
    ]
}

fn name(e: &Entry) -> String {
    String::from_utf8_lossy(e.path.last().unwrap()).into_owned()
}

#[test]
fn test_basic_walk() {
    let mut a = args();
    a.all = false;
    let walker = Walker::new(config(a));
    let entries = walker.filter_entries(project());

    assert!(!entries.is_empty(), "应该找到一些条目");
    assert!(entries.len() > 1, "应该找到多于1个条目");

    let root_count = entries.iter().filter(|e| e.depth == 0).count();
    assert_eq!(root_count, 1, "应该恰好有一个根目录");
}

#[test]
fn test_parallel_walk() {
    let mut a = args();
    a.threads = Some(2);
    let walker = Walker::new(config(a));
    let entries = walker.parallel_sort_entries(walker.filter_entries(project())).unwrap();

    assert!(!entries.is_empty(), "并行遍历应该返回条目");
    assert!(entries.len() > 1, "并行遍历应该找到多于1个条目");
}

#[test]
fn test_parallel_vs_serial_consistency() {
    let walker = Walker::new(config(args()));

    let serial_entries = walker.filter_entries(project());
    let serial_sorted = walker.sort_entries(serial_entries).unwrap();

    let parallel_sorted = walker.parallel_sort_entries(walker.filter_entries(project())).unwrap();

    assert_eq!(
        serial_sorted.len(),
        parallel_sorted.len(),
        "串行和并行处理应该返回相同数量的条目"
    );
}

#[test]
fn test_sort_entries() {
    let walker = Walker::new(config(args()));
    let entries = walker.filter_entries(project());
    let sorted = walker.sort_entries(entries).unwrap();

    if !sorted.is_empty() {
        assert_eq!(sorted[0].depth, 0, "根目录应该是第一个");
    }
}

#[test]
fn test_json_output_structure() {
    let mut a = args();
    a.mtime = true;
    a.filelimit = true;
    a.full_path = true;
    a.size = true;
    a.json = true;
    let walker = Walker::new(config(a.clone()));
    let entries = walker.filter_entries(project());
    let sorted = walker.sort_entries(entries).unwrap();

    let formatter = Formatter::new(config(a));
    let _tree = formatter.build_file_tree(&sorted);

    assert!(true);
}

#[test]
fn test_dirs_only_filter() {
    let mut a = args();
    a.dirs_only = true;
    let walker = Walker::new(config(a));
    let entries = walker.filter_entries(project());

    for entry in &entries {
        if entry.depth > 0 {
            assert!(entry.kind == EntryKind::Dir, "所有条目都应该是目录");
        }
    }
}

#[test]
fn test_exclude_pattern() {
    let mut a = args();
    a.exclude = Some("target".to_string());
    a.level = Some(3);
    let mut c = config(a);
    c.exclude_regex = Some(Pattern::new("target").unwrap());
    c.depth = 3;
    let walker = Walker::new(c);
    let entries = walker.filter_entries(project());

    for entry in &entries {
        assert_ne!(name(entry), "target", "不应该找到target目录");
    }
}

#[test]
fn test_include_pattern() {
    let mut a = args();
    a.include_pattern = Some("Cargo".to_string());
    let mut c = config(a);
    c.include_regex = Some(Pattern::new("Cargo").unwrap());
    let walker = Walker::new(c);
    let entries = walker.filter_entries(project());

    let has_cargo = entries.iter().any(|e| name(e).contains("Cargo"));

    assert!(has_cargo, "应该找到Cargo相关条目");
}

#[test]
fn test_sort_by_time() {
    let mut a = args();
    a.sort = Some("time".to_string());
    let walker = Walker::new(config(a));
    let entries = walker.filter_entries(project());
    let sorted = walker.sort_entries(entries).unwrap();

    assert!(!sorted.is_empty(), "排序应该返回结果");
}
