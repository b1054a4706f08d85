use phos::{
    create_default_config, format_grid, format_long, format_tree_node, json_entries, layout_grid,
    sort_by_lowercase_name, Config, FileEntry, NamedPath, OutputFormat, Preset, SortField, Sorter,
    TreeNode, UserCache,
};

fn entry(name: &str, is_dir: bool, size: u64, modified: Option<i128>) -> FileEntry {
    FileEntry {
        path: format!("/data/{}", name),
        name: name.to_string(),
        is_dir,
        is_file: !is_dir,
        is_symlink: false,
        size,
        modified,
        mode: Some(if is_dir { 0o755 } else { 0o644 }),
        uid: Some(0),
        gid: Some(0),
    }
}

fn names(v: &[FileEntry]) -> Vec<String> {
    v.iter().map(|e| e.name.clone()).collect()
}

fn sample() -> Vec<FileEntry> {
    vec![
        entry("b.txt", false, 30, Some(3)),
        entry("A.rs", false, 10, None),
        entry("docs", true, 4096, Some(1)),
        entry("a.rs", false, 20, Some(2)),
        entry("Zeta", true, 4096, Some(5)),
        entry("c", false, 10, Some(4)),
    ]
}

#[test]
fn default_sort_is_by_name_with_directories_first() {
    let mut v = sample();
    Sorter::default().sort(&mut v);
    assert_eq!(names(&v), vec!["docs", "Zeta", "A.rs", "a.rs", "b.txt", "c"]);
}

#[test]
fn reverse_keeps_directories_first() {
    let mut v = sample();
    Sorter { field: SortField::Name, reverse: true, dirs_first: true }.sort(&mut v);
    assert_eq!(names(&v), vec!["Zeta", "docs", "c", "b.txt", "a.rs", "A.rs"]);
}

#[test]
fn sort_by_size_is_stable() {
    let mut v = sample();
    Sorter { field: SortField::Size, reverse: false, dirs_first: false }.sort(&mut v);
    assert_eq!(names(&v), vec!["A.rs", "c", "a.rs", "b.txt", "docs", "Zeta"]);
}

#[test]
fn sort_by_time_puts_missing_times_first() {
    let mut v = sample();
    Sorter { field: SortField::Time, reverse: false, dirs_first: false }.sort(&mut v);
    assert_eq!(names(&v), vec!["A.rs", "docs", "a.rs", "b.txt", "c", "Zeta"]);
    Sorter { field: SortField::Time, reverse: true, dirs_first: false }.sort(&mut v);
    assert_eq!(names(&v), vec!["Zeta", "c", "b.txt", "a.rs", "docs", "A.rs"]);
}

#[test]
fn sort_by_extension_then_lowercase_name() {
    let mut v = sample();
    Sorter { field: SortField::Extension, reverse: false, dirs_first: false }.sort(&mut v);
    assert_eq!(names(&v), vec!["c", "docs", "Zeta", "A.rs", "a.rs", "b.txt"]);
}

#[test]
fn subdirectories_sort_by_lowercase_name() {
    let mut v = vec![
        NamedPath { name: "beta".to_string(), path: "/x/beta".to_string() },
        NamedPath { name: "Alpha".to_string(), path: "/x/Alpha".to_string() },
        NamedPath { name: "alpha".to_string(), path: "/x/alpha".to_string() },
    ];
    sort_by_lowercase_name(&mut v);
    let got: Vec<&str> = v.iter().map(|p| p.path.as_str()).collect();
    assert_eq!(got, vec!["/x/Alpha", "/x/alpha", "/x/beta"]);
}

#[test]
fn permissions_and_kind() {
    let mut e = entry("run.sh", false, 1, None);
    e.mode = Some(0o754);
    assert_eq!(e.permissions_str(), "rwxr-xr--");
    e.mode = None;
    assert_eq!(e.permissions_str(), "---------");
    assert_eq!(e.file_type_char(), '-');
    let d = entry("d", true, 1, None);
    assert_eq!(d.file_type_char(), 'd');
    let mut l = entry("l", false, 1, None);
    l.is_symlink = true;
    l.is_file = false;
    assert_eq!(l.file_type_char(), 'l');
}

#[test]
fn extensions_follow_path_rules() {
    for name in ["a.tar.gz", ".bashrc", "noext", "trailing.", ".a.b", "..", ".", ""] {
        let expected = std::path::Path::new(name).extension().map(|e| e.to_string_lossy().into_owned());
        assert_eq!(phos::extension_of(name), expected, "name {:?}", name);
    }
}

#[test]
fn user_cache_reads_passwd_lines() {
    let passwd = vec![
        "root:x:0:0:root:/root:/bin/bash".to_string(),
        "daemon:x:1:1::/:/usr/sbin/nologin".to_string(),
        "broken line".to_string(),
        "nobody:x:notanumber:1::/:/bin/false".to_string(),
        "toor:x:0:0::/:/bin/sh".to_string(),
    ];
    let group = vec!["wheel:x:10:".to_string(), "users:x:+100:alice".to_string()];
    let cache = UserCache::new(&passwd, &group);
    assert_eq!(cache.get_user(0), "toor");
    assert_eq!(cache.get_user(1), "daemon");
    assert_eq!(cache.get_user(4242), "4242");
    assert_eq!(cache.get_group(10), "wheel");
    assert_eq!(cache.get_group(100), "users");
    assert_eq!(phos::get_username(&cache, 1), "daemon");
    assert_eq!(phos::get_groupname(&cache, 7), "7");
}

#[test]
fn default_config_has_four_presets() {
    let config = create_default_config();
    let rust = config.get("rust").unwrap();
    assert_eq!(rust.pattern.as_deref(), Some("*.rs"));
    assert_eq!(rust.sort_field, Some(SortField::Time));
    assert_eq!(rust.output_format, Some(OutputFormat::Long));
    let large = config.get("large").unwrap();
    assert_eq!(large.min_size.as_deref(), Some("100MB"));
    let media = config.get("media").unwrap();
    assert_eq!(media.extensions.as_ref().unwrap().len(), 10);
    assert_eq!(media.output_format, Some(OutputFormat::Grid));
    assert_eq!(media.human_readable, None);
    let recent = config.get("recent").unwrap();
    assert_eq!(recent.modified_within.as_deref(), Some("1d"));
    assert!(config.get("missing").is_none());
    assert_eq!(config.presets().len(), 4);
}

#[test]
fn inserting_a_preset_replaces_one_of_the_same_name() {
    let mut config = Config::new();
    let mut p = Preset::default();
    p.pattern = Some("*.md".to_string());
    config.insert("docs".to_string(), p);
    let mut q = Preset::default();
    q.pattern = Some("*.txt".to_string());
    config.insert("docs".to_string(), q);
    assert_eq!(config.presets().len(), 1);
    assert_eq!(config.get("docs").unwrap().pattern.as_deref(), Some("*.txt"));
}

#[test]
fn grid_fills_columns_top_to_bottom() {
    let names: Vec<String> = vec!["a", "bb", "ccc", "d", "e"].into_iter().map(String::from).collect();
    let lens: Vec<usize> = names.iter().map(|s| s.len()).collect();
    assert_eq!(layout_grid(&names, &lens, 15), "a    ccc  e\nbb   d    \n");
    assert_eq!(layout_grid(&names, &lens, 3), "a\nbb\nccc\nd\ne\n");
    assert_eq!(layout_grid(&Vec::new(), &Vec::new(), 80), "");
}

#[test]
fn grid_of_entries_without_color() {
    colored::control::set_override(false);
    let v = vec![entry("one.txt", false, 1, None), entry("two", false, 1, None)];
    assert_eq!(format_grid(&v, 80), "one.txt  two      \n");
}

#[test]
fn colors_follow_the_entry_kind() {
    colored::control::set_override(true);
    assert_eq!(phos::colorize_name(&entry("dir", true, 0, None)), "\u{1b}[1;34mdir\u{1b}[0m");
    assert_eq!(phos::colorize_name(&entry("main.RS", false, 0, None)), "\u{1b}[33mmain.RS\u{1b}[0m");
    assert_eq!(phos::colorize_name(&entry("a.zip", false, 0, None)), "\u{1b}[31ma.zip\u{1b}[0m");
    assert_eq!(phos::colorize_name(&entry("a.png", false, 0, None)), "\u{1b}[35ma.png\u{1b}[0m");
    assert_eq!(phos::colorize_name(&entry("notes", false, 0, None)), "notes");
    let mut x = entry("tool", false, 0, None);
    x.mode = Some(0o755);
    assert_eq!(phos::colorize_name(&x), "\u{1b}[1;32mtool\u{1b}[0m");
    let mut l = entry("link", false, 0, None);
    l.is_symlink = true;
    l.is_file = false;
    assert_eq!(phos::colorize_name(&l), "\u{1b}[36mlink\u{1b}[0m");
    colored::control::set_override(false);
    assert_eq!(phos::colorize_name(&entry("dir", true, 0, None)), "dir");
}

#[test]
fn long_listing_aligns_columns() {
    colored::control::set_override(false);
    let cache = UserCache::new(&vec!["root:x:0:0:::".to_string(), "al:x:1000:1000:::".to_string()], &vec!["root:x:0:".to_string()]);
    let mut a = entry("big.bin", false, 2048, None);
    a.uid = Some(1000);
    a.gid = Some(1000);
    let b = entry("s", false, 5, None);
    let out = format_long(&[a, b], true, &cache, &vec![None, None]);
    assert_eq!(
        out,
        "-rw-r--r-- al   1000 2.0K Jan  1  1970 big.bin\n-rw-r--r-- root root   5B Jan  1  1970 s\n"
    );
    assert_eq!(format_long(&[], false, &cache, &vec![]), "");
}

#[test]
fn long_listing_shows_link_targets() {
    colored::control::set_override(false);
    let cache = UserCache::new(&vec![], &vec![]);
    let mut l = entry("ln", false, 3, None);
    l.is_symlink = true;
    l.is_file = false;
    l.uid = None;
    l.gid = None;
    let out = format_long(&[l], false, &cache, &vec![Some("target".to_string())]);
    assert_eq!(out, "lrw-r--r-- - - 3 Jan  1  1970 ln -> target\n");
}

#[test]
fn tree_drawing() {
    colored::control::set_override(false);
    let leaf = |n: &str| TreeNode { entry: entry(n, false, 1, None), children: vec![] };
    let sub = TreeNode { entry: entry("sub", true, 1, None), children: vec![leaf("x"), leaf("y")] };
    let root = TreeNode { entry: entry("root", true, 1, None), children: vec![sub, leaf("z")] };
    let out = format_tree_node(&root, "", true, true);
    assert_eq!(out, "root\n├── sub\n│   ├── x\n│   └── y\n└── z\n");
}

#[test]
fn json_records_carry_the_fields() {
    let cache = UserCache::new(&vec!["root:x:0:0:::".to_string()], &vec![]);
    let v = vec![entry("f", false, 9, Some(1_700_000_000_000_000_000)), entry("g", false, 1, None)];
    let recs = json_entries(&v, &cache);
    assert_eq!(recs.len(), 2);
    assert_eq!(recs[0].name, "f");
    assert_eq!(recs[0].path, "/data/f");
    assert_eq!(recs[0].permissions, "rw-r--r--");
    assert_eq!(recs[0].owner, "root");
    assert_eq!(recs[0].group, "0");
    assert!(recs[0].modified.as_ref().unwrap().starts_with("2023-11-1"));
    assert!(recs[1].modified.is_none());
}

#[test]
fn times_are_written_in_local_time() {
    let t: i128 = 1_700_000_000 * 1_000_000_000 + 123_456_789;
    let local = chrono::DateTime::from_timestamp(1_700_000_000, 123_456_789)
        .unwrap()
        .with_timezone(&chrono::Local);
    let cache = UserCache::new(&Vec::new(), &Vec::new());
    let recs = json_entries(&[entry("f", false, 1, Some(t))], &cache);
    assert_eq!(recs[0].modified.as_deref(), Some(local.to_rfc3339().as_str()));
    colored::control::set_override(false);
    let mut e = entry("f", false, 1, Some(t));
    e.uid = None;
    e.gid = None;
    let out = format_long(&[e], false, &cache, &vec![None]);
    let date = local.format("%b %e %H:%M").to_string();
    assert_eq!(out, format!("-rw-r--r-- - - 1 {} f\n", date));
}

#[test]
fn painting_sets_the_style_again_after_inner_resets() {
    colored::control::set_override(true);
    let d = entry("a\u{1b}[0mb", true, 0, None);
    assert_eq!(phos::colorize_name(&d), "\u{1b}[1;34ma\u{1b}[0m\u{1b}[1;34mb\u{1b}[0m");
    let e = entry("x\u{1b}[1my", true, 0, None);
    assert_eq!(phos::colorize_name(&e), "\u{1b}[1;34mx\u{1b}[1my\u{1b}[0m");
    colored::control::set_override(false);
}
