use phos::{
    format_size, parse_size, Config, Engine, FileEntry, FileFilter, Order, Preset, SortField,
    Sorter, TotalPreorder,
};
use std::cmp::Ordering;

fn entry(name: &str, is_dir: bool, size: u64, modified: Option<i128>) -> FileEntry {
    FileEntry {
        path: format!("/srv/{}", name),
        name: name.to_string(),
        is_dir,
        is_file: !is_dir,
        is_symlink: false,
        size,
        modified,
        mode: Some(0o644),
        uid: None,
        gid: None,
    }
}

fn mixed() -> Vec<FileEntry> {
    vec![
        entry("notes.md", false, 7, Some(9)),
        entry("bin", true, 4096, Some(1)),
        entry("Notes.md", false, 7, Some(3)),
        entry("a.tar", false, 900, None),
        entry("lib", true, 4096, Some(2)),
        entry("b.TAR", false, 7, Some(3)),
        entry("zz", false, 0, Some(3)),
    ]
}

fn names(v: &[FileEntry]) -> Vec<String> {
    v.iter().map(|e| e.name.clone()).collect()
}

fn all_sorters() -> Vec<Sorter> {
    let mut out = Vec::new();
    for field in [SortField::Name, SortField::Size, SortField::Time, SortField::Extension] {
        for reverse in [false, true] {
            for dirs_first in [false, true] {
                out.push(Sorter { field, reverse, dirs_first });
            }
        }
    }
    out
}

fn as_ordering(o: Order) -> Ordering {
    match o {
        Order::Less => Ordering::Less,
        Order::Equal => Ordering::Equal,
        Order::Greater => Ordering::Greater,
    }
}

#[test]
fn plain_sizes_read_back() {
    for n in [0u64, 7, 1023, 1024, 123_456_789, 9_007_199_254_740_992] {
        assert_eq!(parse_size(&format_size(n, false)), Some(n));
    }
    for n in [0u64, 1, 512, 1023] {
        assert_eq!(parse_size(&format_size(n, true)), Some(n));
    }
    // beyond 2^53 the reading goes through binary64 and rounds
    assert_eq!(parse_size(&format_size(9_007_199_254_740_993, false)), Some(9_007_199_254_740_992));
}

#[test]
fn sorting_matches_the_standard_stable_sort() {
    for s in all_sorters() {
        let mut ours = mixed();
        s.sort(&mut ours);
        let mut std_sorted = mixed();
        std_sorted.sort_by(|a, b| as_ordering(s.compare(a, b)));
        assert_eq!(names(&ours), names(&std_sorted));
    }
}

#[test]
fn sorting_twice_changes_nothing() {
    for s in all_sorters() {
        let mut once = mixed();
        s.sort(&mut once);
        let mut twice = once.clone();
        s.sort(&mut twice);
        assert_eq!(names(&once), names(&twice));
    }
}

#[test]
fn directories_come_first_whatever_the_order() {
    for s in all_sorters().into_iter().filter(|s| s.dirs_first) {
        let mut v = mixed();
        s.sort(&mut v);
        assert!(v[0].is_dir && v[1].is_dir);
        assert!(v[2..].iter().all(|e| !e.is_dir));
    }
}

#[test]
fn reversing_flips_comparisons() {
    let plain = Sorter { field: SortField::Size, reverse: false, dirs_first: true };
    let reversed = Sorter { reverse: true, ..plain };
    let small = entry("small", false, 1, None);
    let big = entry("big", false, 2, None);
    let dir = entry("dir", true, 0, None);
    assert_eq!(plain.compare(&small, &big), Order::Less);
    assert_eq!(reversed.compare(&small, &big), Order::Greater);
    assert_eq!(plain.compare(&dir, &small), Order::Less);
    assert_eq!(reversed.compare(&dir, &small), Order::Less);
}

#[test]
fn a_stored_preset_reads_back() {
    let mut config = Config::new();
    let mut first = Preset::default();
    first.pattern = Some("*.rs".to_string());
    config.insert("code".to_string(), first);
    let mut second = Preset::default();
    second.min_size = Some("1M".to_string());
    config.insert("big".to_string(), second);
    assert_eq!(config.get("code").unwrap().pattern, Some("*.rs".to_string()));
    assert_eq!(config.get("big").unwrap().min_size, Some("1M".to_string()));
    assert!(config.get("other").is_none());
}

#[test]
fn what_the_filter_passes_passes_the_name_test() {
    let mut p = Preset::default();
    p.extensions = Some(vec!["Md".to_string(), "tar".to_string()]);
    p.pattern = Some("*.*".to_string());
    p.no_symlinks = Some(true);
    let engine = Engine::new(p);
    let filter = engine.build_filter().unwrap();
    let mut candidates = mixed();
    candidates.push(entry(".hidden.md", false, 1, None));
    let mut link = entry("link.md", false, 1, None);
    link.is_symlink = true;
    link.is_file = false;
    candidates.push(link);
    let mut passed = 0;
    for e in &candidates {
        if filter.matches(e) {
            passed += 1;
            assert!(engine.pre_filter_matches(&e.name, e.is_dir, e.is_file, e.is_symlink));
        }
    }
    assert_eq!(passed, 4);
}

fn listed(name: &str, is_dir: bool, entry: Option<FileEntry>) -> phos::Listed {
    phos::Listed {
        name: name.to_string(),
        path: format!("/srv/{}", name),
        is_dir,
        is_file: !is_dir,
        is_symlink: false,
        entry,
    }
}

#[test]
fn a_directory_plan_shows_filtered_sorted_entries_and_visits_directories_by_name() {
    let mut p = Preset::default();
    p.max_depth = Some(3);
    p.extensions = Some(vec!["md".to_string()]);
    p.sort_field = Some(SortField::Size);
    let engine = Engine::new(p);
    let filter = engine.build_filter().unwrap();
    let items = vec![
        listed("b.md", false, Some(entry("b.md", false, 30, None))),
        listed("Zoo", true, Some(entry("Zoo", true, 0, None))),
        listed("a.md", false, Some(entry("a.md", false, 10, None))),
        listed(".git", true, None),
        listed("c.txt", false, None),
        listed("alpha", true, Some(entry("alpha", true, 0, None))),
    ];
    let plan = engine.plan_directory(&filter, &items);
    assert_eq!(names(&plan.entries), vec!["Zoo", "alpha", "a.md", "b.md"]);
    let visited: Vec<String> = plan.subdirs.iter().map(|n| n.name.clone()).collect();
    assert_eq!(visited, vec![".git", "alpha", "Zoo"]);
    let action = engine.item_action(&filter, &items[4]);
    assert!(!action.show && !action.descend);
    let action = engine.item_action(&filter, &items[3]);
    assert!(!action.show && action.descend);
}

#[test]
fn a_tree_level_keeps_every_read_entry_in_order() {
    let mut p = Preset::default();
    p.pattern = Some("*.rs".to_string());
    let engine = Engine::new(p);
    let items = vec![
        listed("src", true, Some(entry("src", true, 0, None))),
        listed("main.rs", false, Some(entry("main.rs", false, 1, None))),
        listed("lib.rs", false, Some(entry("lib.rs", false, 1, None))),
        listed("README", false, None),
        listed(".cache", true, Some(entry(".cache", true, 0, None))),
    ];
    let level = engine.tree_entries(&items);
    assert_eq!(names(&level), vec!["src", "lib.rs", "main.rs"]);
}

#[test]
fn instants_count_nanoseconds_from_the_epoch() {
    assert_eq!(phos::instant_nanos(0, 0), 0);
    assert_eq!(phos::instant_nanos(2, 5), 2_000_000_005);
    assert_eq!(phos::instant_nanos(-1, 500_000_000), -500_000_000);
    assert_eq!(phos::instant_nanos(1, 1_500_000_000), 2_500_000_000);
}

#[test]
fn a_tree_level_keeps_matching_leaves_and_nonempty_subtrees() {
    let mut p = Preset::default();
    p.pattern = Some("*.rs".to_string());
    p.max_depth = Some(2);
    let engine = Engine::new(p);
    let filter = engine.build_filter().unwrap();
    let leaf = engine.tree_child(&filter, entry("main.rs", false, 1, None), None).unwrap();
    assert_eq!(leaf.entry.name, "main.rs");
    assert!(leaf.children.is_empty());
    assert!(engine.tree_child(&filter, entry("notes.md", false, 1, None), None).is_none());
    let empty_dir = phos::TreeNode { entry: entry("docs", true, 0, None), children: Vec::new() };
    assert!(engine.tree_child(&filter, entry("docs", true, 0, None), Some(empty_dir)).is_none());
    let full_dir = phos::TreeNode {
        entry: entry("src", true, 0, None),
        children: vec![phos::TreeNode { entry: entry("lib.rs", false, 1, None), children: Vec::new() }],
    };
    let kept = engine.tree_child(&filter, entry("src", true, 0, None), Some(full_dir)).unwrap();
    assert_eq!(kept.children.len(), 1);
}

#[test]
fn a_tree_drawing_has_one_line_per_node() {
    let tree = phos::TreeNode {
        entry: entry("root", true, 0, None),
        children: vec![
            phos::TreeNode {
                entry: entry("a", true, 0, None),
                children: vec![phos::TreeNode { entry: entry("x", false, 0, None), children: Vec::new() }],
            },
            phos::TreeNode { entry: entry("b", false, 0, None), children: Vec::new() },
        ],
    };
    let text = phos::format_tree_node(&tree, "", true, true);
    assert_eq!(text.matches('\n').count(), 4);
}

#[test]
fn long_listings_sort_as_the_standard_sort_does() {
    let mut many = Vec::new();
    for i in 0..300u64 {
        let name = format!("f{}.{}", (i * 7919) % 53, ["rs", "md", "TXT"][(i % 3) as usize]);
        many.push(entry(&name, i % 11 == 0, (i * 31) % 17, if i % 5 == 0 { None } else { Some((i % 13) as i128) }));
    }
    for s in all_sorters() {
        let mut ours = many.clone();
        s.sort(&mut ours);
        let mut std_sorted = many.clone();
        std_sorted.sort_by(|a, b| as_ordering(s.compare(a, b)));
        assert_eq!(names(&ours), names(&std_sorted));
        let ours_paths: Vec<String> = ours.iter().map(|e| format!("{}{}{:?}", e.path, e.size, e.modified)).collect();
        let std_paths: Vec<String> = std_sorted.iter().map(|e| format!("{}{}{:?}", e.path, e.size, e.modified)).collect();
        assert_eq!(ours_paths, std_paths);
    }
}

#[test]
fn a_gathering_step_appends_what_is_shown() {
    let mut p = Preset::default();
    p.max_depth = Some(1);
    p.extensions = Some(vec!["md".to_string()]);
    let engine = Engine::new(p);
    let filter = engine.build_filter().unwrap();
    let mut acc = vec![entry("first.md", false, 1, None)];
    assert!(!engine.gather(&filter, &listed("b.md", false, Some(entry("b.md", false, 2, None))), &mut acc));
    assert!(!engine.gather(&filter, &listed("c.txt", false, None), &mut acc));
    assert!(engine.gather(&filter, &listed("sub", true, Some(entry("sub", true, 0, None))), &mut acc));
    assert!(engine.gather(&filter, &listed(".git", true, None), &mut acc));
    assert_eq!(names(&acc), vec!["first.md", "b.md", "sub"]);
}

fn no_overrides() -> phos::Overrides {
    phos::Overrides {
        pattern: None,
        extensions: None,
        min_size: None,
        max_size: None,
        dirs_only: false,
        files_only: false,
        show_all: false,
        modified_within: None,
        modified_before: None,
        recursive: false,
        max_depth: None,
        sort_field: None,
        reverse: false,
        long: false,
        tree: false,
        json: false,
    }
}

#[test]
fn overrides_replace_what_they_give() {
    let config = phos::create_default_config();
    let rust = config.get("rust").unwrap().clone();
    let same = phos::apply_overrides(rust.clone(), no_overrides());
    assert_eq!(same.pattern, Some("*.rs".to_string()));
    assert_eq!(same.max_depth, None);
    let mut o = no_overrides();
    o.pattern = Some("*.toml".to_string());
    o.recursive = true;
    o.show_all = true;
    o.tree = true;
    o.json = true;
    o.sort_field = Some(SortField::Size);
    let r = phos::apply_overrides(rust.clone(), o);
    assert_eq!(r.pattern, Some("*.toml".to_string()));
    assert_eq!(r.max_depth, Some(usize::MAX));
    assert_eq!(r.show_hidden, Some(true));
    assert!(matches!(r.output_format, Some(phos::OutputFormat::Tree)));
    assert!(matches!(r.sort_field, Some(SortField::Size)));
    assert_eq!(r.reverse, Some(true));
    assert_eq!(r.human_readable, Some(true));
    let mut d = no_overrides();
    d.recursive = true;
    d.max_depth = Some(2);
    assert_eq!(phos::apply_overrides(rust, d).max_depth, Some(2));
}
