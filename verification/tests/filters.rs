use phos::{
    glob_pattern_matches, CompositeFilter, Engine, ExtensionFilter, FileEntry, FileFilter, Filter,
    GlobFilter, HiddenFilter, ModifiedFilter, Preset, SizeFilter, TypeFilter,
};

fn entry(name: &str, is_dir: bool, size: u64, modified: Option<i128>) -> FileEntry {
    FileEntry {
        path: format!("/data/{}", name),
        name: name.to_string(),
        is_dir,
        is_file: !is_dir,
        is_symlink: false,
        size,
        modified,
        mode: None,
        uid: None,
        gid: None,
    }
}

#[test]
fn glob_filter_matches_names() {
    let g = GlobFilter::new("*.rs").ok().unwrap();
    assert!(g.matches(&entry("main.rs", false, 0, None)));
    assert!(!g.matches(&entry("main.RS", false, 0, None)));
    assert!(GlobFilter::new("[").is_err());
    assert!(!glob_pattern_matches("[", "["));
    assert!(glob_pattern_matches("a?c", "abc"));
}

#[test]
fn extension_filter_is_case_insensitive_and_passes_directories() {
    let f = ExtensionFilter::new(vec!["JPG".to_string(), "png".to_string()]);
    assert!(f.matches(&entry("photo.jpg", false, 0, None)));
    assert!(f.matches(&entry("PHOTO.PNG", false, 0, None)));
    assert!(!f.matches(&entry("notes.txt", false, 0, None)));
    assert!(!f.matches(&entry("jpg", false, 0, None)));
    assert!(f.matches(&entry("folder", true, 0, None)));
}

#[test]
fn size_filter_bounds_are_inclusive() {
    let f = SizeFilter::new(Some(10), Some(20));
    assert!(f.matches(&entry("a", false, 10, None)));
    assert!(f.matches(&entry("a", false, 20, None)));
    assert!(!f.matches(&entry("a", false, 9, None)));
    assert!(!f.matches(&entry("a", false, 21, None)));
    assert!(f.matches(&entry("d", true, 1_000_000, None)));
    assert!(SizeFilter::new(None, None).matches(&entry("a", false, 5, None)));
}

#[test]
fn type_modified_and_hidden_filters() {
    let t = TypeFilter { dirs_only: true, files_only: false, no_symlinks: false };
    assert!(t.matches(&entry("d", true, 0, None)));
    assert!(!t.matches(&entry("f", false, 0, None)));
    let newer = ModifiedFilter::new(100, true);
    assert!(newer.matches(&entry("f", false, 0, Some(100))));
    assert!(!newer.matches(&entry("f", false, 0, Some(99))));
    assert!(!newer.matches(&entry("f", false, 0, None)));
    let older = ModifiedFilter::new(100, false);
    assert!(older.matches(&entry("f", false, 0, Some(99))));
    assert!(!older.matches(&entry("f", false, 0, Some(101))));
    assert!(!HiddenFilter.matches(&entry(".git", true, 0, None)));
    assert!(HiddenFilter.matches(&entry("git", true, 0, None)));
}

#[test]
fn composite_requires_every_filter() {
    let mut c = CompositeFilter::new();
    assert!(c.matches(&entry(".x", false, 0, None)));
    c.add(Filter::Hidden(HiddenFilter));
    c.add(Filter::Size(SizeFilter::new(Some(5), None)));
    assert!(c.matches(&entry("x", false, 5, None)));
    assert!(!c.matches(&entry(".x", false, 5, None)));
    assert!(!c.matches(&entry("x", false, 4, None)));
}

#[test]
fn preset_filter_combines_settings() {
    let mut p = Preset::default();
    p.pattern = Some("*.log".to_string());
    p.min_size = Some("1K".to_string());
    let engine = Engine::new(p);
    let f = engine.build_filter().unwrap();
    assert!(f.matches(&entry("app.log", false, 2048, None)));
    assert!(!f.matches(&entry("app.log", false, 100, None)));
    assert!(!f.matches(&entry("app.txt", false, 2048, None)));
    assert!(!f.matches(&entry(".app.log", false, 2048, None)));
}

#[test]
fn preset_filter_with_times() {
    let mut p = Preset::default();
    p.modified_within = Some("1h".to_string());
    p.show_hidden = Some(true);
    let engine = Engine::new(p);
    let now = 5_000 * 1_000_000_000i128;
    let f = engine.build_filter_at(now, now);
    assert!(f.matches(&entry("new", false, 0, Some(now - 60 * 1_000_000_000))));
    assert!(!f.matches(&entry("old", false, 0, Some(now - 7200 * 1_000_000_000))));
    assert!(!f.matches(&entry("none", false, 0, None)));
    assert!(f.matches(&entry(".hidden", false, 0, Some(now))));
}

#[test]
fn building_a_filter_fails_where_a_duration_is_out_of_range() {
    let mut p = Preset::default();
    p.modified_before = Some("9223372036854776s".to_string());
    assert!(Engine::new(p).build_filter().is_none());
    let mut q = Preset::default();
    q.modified_within = Some("100000000d".to_string());
    assert!(Engine::new(q).build_filter().is_none());
    let mut r = Preset::default();
    r.modified_within = Some("9000 days".to_string());
    assert!(Engine::new(r).build_filter().is_some());
}

#[test]
fn pre_filter_rules() {
    let mut p = Preset::default();
    p.extensions = Some(vec!["RS".to_string()]);
    p.pattern = Some("m*".to_string());
    p.no_symlinks = Some(true);
    let e = Engine::new(p);
    assert!(e.pre_filter_matches("main.rs", false, true, false));
    assert!(!e.pre_filter_matches("lib.rs", false, true, false));
    assert!(!e.pre_filter_matches("main.c", false, true, false));
    assert!(!e.pre_filter_matches("main.rs", false, false, true));
    assert!(e.pre_filter_matches("anydir", true, false, false));
    assert!(!e.pre_filter_matches(".hidden", true, false, false));
    assert!(e.within_depth(0));
    assert!(!e.within_depth(1));
    let mut q = Preset::default();
    q.max_depth = Some(2);
    q.dirs_only = Some(true);
    let e2 = Engine::new(q);
    assert!(e2.within_depth(2));
    assert!(!e2.within_depth(3));
    assert!(!e2.pre_filter_matches("file", false, true, false));
    assert!(e2.is_recursive());
}

#[test]
fn filters_are_built_at_given_clock_readings() {
    let mut p = Preset::default();
    p.modified_within = Some("1d".to_string());
    let engine = Engine::new(p);
    let day = 86_400 * 1_000_000_000i128;
    let f = engine.build_filter_with_clock(0, 0).unwrap();
    assert!(f.matches(&entry("new", false, 0, Some(-day + 1))));
    assert!(!f.matches(&entry("old", false, 0, Some(-day - 1))));
    assert!(engine.build_filter().is_some());
    let mut q = Preset::default();
    q.modified_before = Some("100000000d".to_string());
    let far = Engine::new(q);
    assert!(far.build_filter_with_clock(0, 0).is_none());
    assert!(far.build_filter_with_clock(0, 100_000_000 * day).is_some());
    let recent = phos::create_default_config();
    let p = recent.get("recent").unwrap().clone();
    assert!(Engine::new(p).build_filter().is_some());
}
