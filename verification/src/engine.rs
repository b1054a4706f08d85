use vstd::prelude::*;
use crate::entry::{name_extension, FileEntry};
use crate::filter::{
    duration_fits, duration_in_range, extension_accepts, glob_matches, glob_pattern_matches,
    glob_valid, is_hidden_name, read_duration, DurationReading, lemma_all_accept_push, modified_accepts, parse_duration,
    size_accepts, spec_parse_duration, starts_with_dot, type_accepts, all_accept, CompositeFilter,
    ExtensionFilter, FileFilter, Filter, GlobFilter, HiddenFilter, ModifiedFilter, SizeFilter,
    TypeFilter,
};
use crate::preset::{empty_preset, parse_size, spec_parse_size, Preset, PresetView};
use crate::sort::{SortField, Sorter};
use crate::format::{latest_instant, TreeNode};
use crate::text::{lowercase, string_views, to_lowercase, Order, compare_str, lemma_lex_order_equal};

verus! {

/// The value of an optional flag, `default` when absent.
pub open spec fn flag(o: Option<bool>, default: bool) -> bool {
    match o {
        Some(b) => b,
        None => default,
    }
}

/// The size that an optional size text gives, if any.
pub open spec fn size_bound(text: Option<Seq<char>>) -> Option<u64> {
    match text {
        Some(t) => spec_parse_size(t),
        None => None,
    }
}

/// Nanoseconds in one second.
pub open spec fn nanos_per_second() -> int {
    1_000_000_000
}

/// The earliest instant that `chrono` represents (`NaiveDateTime::MIN`,
/// -262143-01-01T00:00:00 UTC), in nanoseconds since the Unix epoch.
pub open spec fn earliest_instant() -> int {
    -8_334_601_228_800 * 1_000_000_000
}

/// The cutoff that an optional duration text gives at time `now`: `now`
/// less the duration, where the text denotes one.
pub open spec fn cutoff_for(text: Option<Seq<char>>, now: int) -> Option<int> {
    match text {
        Some(t) => match spec_parse_duration(t) {
            Some(d) => Some(now - d * nanos_per_second()),
            None => None,
        },
        None => None,
    }
}

/// The cutoff, if any, is an instant that `chrono` represents (subtracting
/// further panics).
pub open spec fn cutoff_in_range(text: Option<Seq<char>>, now: int) -> bool {
    cutoff_for(text, now) matches Some(c) ==> c >= earliest_instant()
}

/// A reading of the clock: an instant from the Unix epoch up to the latest
/// that `chrono` represents.
pub open spec fn clock_reading(t: int) -> bool {
    0 <= t <= latest_instant()
}

/// The duration that a time window denotes, if any, reaches back from the
/// epoch no further than the earliest instant that `chrono` represents.
pub open spec fn window_reachable(text: Option<Seq<char>>) -> bool {
    text matches Some(t) ==> (spec_parse_duration(t) matches Some(d) ==> d <= 8_334_601_228_800)
}

/// Both duration texts, where given, denote durations that can be built.
pub open spec fn durations_fit(p: PresetView) -> bool {
    &&& (p.modified_within matches Some(t) ==> duration_fits(t))
    &&& (p.modified_before matches Some(t) ==> duration_fits(t))
}

/// Whether a name passes an optional glob: always where there is none or it
/// does not compile.
pub open spec fn glob_accepts(pattern: Option<Seq<char>>, name: Seq<char>) -> bool {
    match pattern {
        Some(pat) => glob_valid(pat) ==> glob_matches(pat, name),
        None => true,
    }
}

/// Whether the filter that a preset builds passes `entry`, the relative
/// times taken at `now_within` and `now_before`: the glob (where it
/// compiles), the extensions, the size bounds (where one parses), the
/// kinds, the two time cutoffs (where their texts parse), and, unless
/// hidden entries are shown, a name not starting with a dot.
pub open spec fn preset_accepts(p: PresetView, now_within: int, now_before: int, entry: FileEntry) -> bool {
    &&& glob_accepts(p.pattern, entry.name@)
    &&& (p.extensions matches Some(exts) ==> extension_accepts(
        exts.map_values(|e: Seq<char>| lowercase(e)),
        entry,
    ))
    &&& ((size_bound(p.min_size) is Some || size_bound(p.max_size) is Some) ==> size_accepts(
        size_bound(p.min_size),
        size_bound(p.max_size),
        entry,
    ))
    &&& ((flag(p.dirs_only, false) || flag(p.files_only, false) || flag(p.no_symlinks, false))
        ==> type_accepts(
        flag(p.dirs_only, false),
        flag(p.files_only, false),
        flag(p.no_symlinks, false),
        entry,
    ))
    &&& (cutoff_for(p.modified_within, now_within) matches Some(c) ==> modified_accepts(
        c as i128,
        true,
        entry,
    ))
    &&& (cutoff_for(p.modified_before, now_before) matches Some(c) ==> modified_accepts(
        c as i128,
        false,
        entry,
    ))
    &&& (!flag(p.show_hidden, false) ==> !is_hidden_name(entry.name@))
}

/// Whether the cheap test on a directory listing's name and kind lets an
/// entry through to the full filter: hidden names go unless shown;
/// directories pass; with `dirs_only` nothing else does; symbolic links go
/// with `no_symlinks`; then the extensions and the glob (where it compiles)
/// must match.
pub open spec fn pre_filter_accepts(p: PresetView, name: Seq<char>, is_dir: bool, is_symlink: bool) -> bool {
    if !flag(p.show_hidden, false) && is_hidden_name(name) {
        false
    } else if is_dir {
        true
    } else if flag(p.dirs_only, false) {
        false
    } else if is_symlink && flag(p.no_symlinks, false) {
        false
    } else if p.extensions matches Some(exts) && !(name_extension(name) matches Some(x) && exists|i: int|
        0 <= i < exts.len() && #[trigger] lowercase(exts[i]) == lowercase(x)) {
        false
    } else if p.pattern matches Some(pat) && glob_valid(pat) && !glob_matches(pat, name) {
        false
    } else {
        true
    }
}

/// What a preset's filter never passes: a name starting with a dot unless
/// hidden entries are shown (`show_hidden` is `Some(true)`); a name that a
/// compiling glob pattern does not match; a non-directory without a listed
/// extension; a non-directory, when directories only are asked for.
pub proof fn lemma_preset_rejects(p: PresetView, now_within: int, now_before: int, e: FileEntry)
    ensures
        (p.show_hidden != Some(true) && e.name@.len() > 0 && e.name@[0] == '.') ==> !preset_accepts(
            p,
            now_within,
            now_before,
            e,
        ),
        (p.pattern matches Some(pat) && glob_valid(pat) && !glob_matches(pat, e.name@)) ==> !preset_accepts(
            p,
            now_within,
            now_before,
            e,
        ),
        (p.extensions is Some && !e.is_dir && name_extension(e.name@) is None) ==> !preset_accepts(
            p,
            now_within,
            now_before,
            e,
        ),
        (p.dirs_only == Some(true) && !e.is_dir) ==> !preset_accepts(p, now_within, now_before, e),
{
}

/// A preset's before-window (`modified_before`, denoting `d` seconds) keeps
/// only entries with a modification time at or before `now_before` less
/// `d` seconds, never one without a time; with no other setting but shown
/// hidden entries, it keeps exactly those.
pub proof fn lemma_before_window(
    p: PresetView,
    now_within: i128,
    now_before: i128,
    entry: FileEntry,
    t: Seq<char>,
    d: int,
)
    requires
        p.modified_before == Some(t),
        spec_parse_duration(t) == Some(d),
        cutoff_in_range(p.modified_within, now_within as int),
        cutoff_in_range(p.modified_before, now_before as int),
    ensures
        preset_accepts(p, now_within as int, now_before as int, entry) ==> (entry.modified matches Some(m)
            && m <= now_before - d * 1_000_000_000),
        p == (PresetView { show_hidden: Some(true), modified_before: Some(t), ..empty_preset() }) ==> (
        preset_accepts(p, now_within as int, now_before as int, entry) <==> (entry.modified matches Some(m)
            && m <= now_before - d * 1_000_000_000)),
{
    crate::filter::lemma_duration_nonnegative(t);
}

/// A preset's within-window (`modified_within`, denoting `d` seconds) keeps
/// only entries with a modification time at or after `now_within` less `d`
/// seconds, never one without a time; with no other setting but shown
/// hidden entries, it keeps exactly those.
pub proof fn lemma_within_window(
    p: PresetView,
    now_within: i128,
    now_before: i128,
    entry: FileEntry,
    t: Seq<char>,
    d: int,
)
    requires
        p.modified_within == Some(t),
        spec_parse_duration(t) == Some(d),
        cutoff_in_range(p.modified_within, now_within as int),
        cutoff_in_range(p.modified_before, now_before as int),
    ensures
        preset_accepts(p, now_within as int, now_before as int, entry) ==> (entry.modified matches Some(m)
            && m >= now_within - d * 1_000_000_000),
        p == (PresetView { show_hidden: Some(true), modified_within: Some(t), ..empty_preset() }) ==> (
        preset_accepts(p, now_within as int, now_before as int, entry) <==> (entry.modified matches Some(m)
            && m >= now_within - d * 1_000_000_000)),
{
    crate::filter::lemma_duration_nonnegative(t);
}

/// The cheap test on a directory listing's names never drops an entry that
/// the preset's full filter passes: whatever the filter accepts passed the
/// name test first.
pub proof fn lemma_pre_filter_sound(p: PresetView, now_within: int, now_before: int, entry: FileEntry)
    requires
        preset_accepts(p, now_within, now_before, entry),
    ensures
        pre_filter_accepts(p, entry.name@, entry.is_dir, entry.is_symlink),
{
    if !entry.is_dir {
        if let Some(exts) = p.extensions {
            let lowered = exts.map_values(|e: Seq<char>| lowercase(e));
            if let Some(x) = name_extension(entry.name@) {
                assert(lowered.contains(lowercase(x)));
                let k = choose|k: int| 0 <= k < lowered.len() && lowered[k] == lowercase(x);
                assert(lowercase(exts[k]) == lowercase(x));
            }
        }
    }
}

/// The sorter that a preset asks for: by name, not reversed, directories
/// first, where not given.
pub open spec fn preset_sorter(p: PresetView) -> Sorter {
    Sorter {
        field: match p.sort_field {
            Some(f) => f,
            None => SortField::Name,
        },
        reverse: flag(p.reverse, false),
        dirs_first: flag(p.dirs_first, true),
    }
}

/// `chrono::Local::now()`: the current time as whole seconds since the Unix
/// epoch and the nanoseconds past them. `Utc::now`, through which it goes,
/// panics on a clock before the epoch and unwraps `from_timestamp` of the
/// system time, so the seconds lie between the epoch and the latest instant
/// that `chrono` represents, and the nanoseconds below a second. What time
/// it is, is left unsaid.
#[verifier::external_body]
fn local_now() -> (r: (i64, u32))
    ensures
        0 <= r.0 <= 8_210_266_876_799,
        r.1 < 1_000_000_000,
{
    let now = chrono::Local::now();
    (now.timestamp(), now.timestamp_subsec_nanos())
}

/// An instant given as whole seconds since the Unix epoch and the
/// nanoseconds past them, in nanoseconds since the epoch.
pub fn instant_nanos(secs: i64, nanos: u32) -> (r: i128)
    requires
        nanos < 2_000_000_000,
    ensures
        r == secs * nanos_per_second() + nanos,
{
    secs as i128 * 1_000_000_000 + nanos as i128
}

/// The current time in nanoseconds since the Unix epoch: the clock's
/// reading (`instant_nanos` of its seconds and nanoseconds). Which instant
/// the clock gives is left unsaid; every reading is a `clock_reading`.
pub fn now_nanos() -> (r: i128)
    ensures
        clock_reading(r as int),
{
    let (secs, nanos) = local_now();
    instant_nanos(secs, nanos)
}

/// Runs searches with one preset.
pub struct Engine {
    preset: Preset,
}

impl Engine {
    /// An engine for `preset`.
    pub fn new(preset: Preset) -> (r: Self)
        ensures
            r.settings() == preset@,
    {
        Engine { preset }
    }

    /// The preset's settings.
    pub closed spec fn settings(&self) -> PresetView {
        self.preset@
    }

    /// The preset.
    pub fn preset(&self) -> (r: &Preset)
        ensures
            r@ == self.settings(),
    {
        &self.preset
    }

    /// The filter of the preset, with the relative times taken at
    /// `now_within` and `now_before` (nanoseconds since the Unix epoch).
    #[verifier::rlimit(40)]
    #[verifier::spinoff_prover]
    pub fn build_filter_at(&self, now_within: i128, now_before: i128) -> (r: CompositeFilter)
        requires
            durations_fit(self.settings()),
            cutoff_in_range(self.settings().modified_within, now_within as int),
            cutoff_in_range(self.settings().modified_before, now_before as int),
        ensures
            forall|e: FileEntry| #[trigger] r.accepts(e) == preset_accepts(self.settings(), now_within as int, now_before as int, e),
    {
        let ghost p = self.settings();
        let mut composite = CompositeFilter::new();
        let ghost stage0 = composite.parts();
        assert forall|e: FileEntry| #[trigger] all_accept(stage0, e) by {}

        if let Some(pat) = &self.preset.pattern {
            if let Ok(glob_filter) = GlobFilter::new(pat.as_str()) {
                composite.add(Filter::Glob(glob_filter));
            }
        }
        let ghost stage1 = composite.parts();
        assert forall|e: FileEntry| #[trigger] all_accept(stage1, e) == glob_accepts(p.pattern, e.name@) by {
            if stage1 != stage0 {
                lemma_all_accept_push(stage0, stage1.last(), e);
                assert(stage1 == stage0.push(stage1.last()));
            }
        }

        if let Some(exts) = &self.preset.extensions {
            let copied = clone_strings(exts);
            let f = ExtensionFilter::new(copied);
            composite.add(Filter::Extension(f));
        }
        let ghost stage2 = composite.parts();
        assert forall|e: FileEntry| #[trigger] all_accept(stage2, e) == (all_accept(stage1, e) && (p.extensions matches Some(exts) ==> extension_accepts(exts.map_values(|x: Seq<char>| lowercase(x)), e))) by {
            if stage2 != stage1 {
                lemma_all_accept_push(stage1, stage2.last(), e);
                assert(stage2 == stage1.push(stage2.last()));
            }
        }

        let min_size = match &self.preset.min_size {
            Some(s) => parse_size(s.as_str()),
            None => None,
        };
        let max_size = match &self.preset.max_size {
            Some(s) => parse_size(s.as_str()),
            None => None,
        };
        if min_size.is_some() || max_size.is_some() {
            composite.add(Filter::Size(SizeFilter::new(min_size, max_size)));
        }
        let ghost stage3 = composite.parts();
        assert forall|e: FileEntry| #[trigger] all_accept(stage3, e) == (all_accept(stage2, e) && ((size_bound(p.min_size) is Some || size_bound(p.max_size) is Some) ==> size_accepts(size_bound(p.min_size), size_bound(p.max_size), e))) by {
            if stage3 != stage2 {
                lemma_all_accept_push(stage2, stage3.last(), e);
                assert(stage3 == stage2.push(stage3.last()));
            }
        }

        let dirs_only = unwrap_flag(self.preset.dirs_only, false);
        let files_only = unwrap_flag(self.preset.files_only, false);
        let no_symlinks = unwrap_flag(self.preset.no_symlinks, false);
        if dirs_only || files_only || no_symlinks {
            composite.add(Filter::Type(TypeFilter { dirs_only, files_only, no_symlinks }));
        }
        let ghost stage4 = composite.parts();
        assert forall|e: FileEntry| #[trigger] all_accept(stage4, e) == (all_accept(stage3, e) && ((dirs_only || files_only || no_symlinks) ==> type_accepts(dirs_only, files_only, no_symlinks, e))) by {
            if stage4 != stage3 {
                lemma_all_accept_push(stage3, stage4.last(), e);
                assert(stage4 == stage3.push(stage4.last()));
            }
        }

        if let Some(within) = &self.preset.modified_within {
            if let Some(secs) = parse_duration(within.as_str()) {
                let cutoff = now_within - secs as i128 * 1_000_000_000;
                composite.add(Filter::Modified(ModifiedFilter::new(cutoff, true)));
            }
        }
        let ghost stage5 = composite.parts();
        assert forall|e: FileEntry| #[trigger] all_accept(stage5, e) == (all_accept(stage4, e) && (cutoff_for(p.modified_within, now_within as int) matches Some(c) ==> modified_accepts(c as i128, true, e))) by {
            if stage5 != stage4 {
                lemma_all_accept_push(stage4, stage5.last(), e);
                assert(stage5 == stage4.push(stage5.last()));
            }
        }

        if let Some(before) = &self.preset.modified_before {
            if let Some(secs) = parse_duration(before.as_str()) {
                let cutoff = now_before - secs as i128 * 1_000_000_000;
                composite.add(Filter::Modified(ModifiedFilter::new(cutoff, false)));
            }
        }
        let ghost stage6 = composite.parts();
        assert forall|e: FileEntry| #[trigger] all_accept(stage6, e) == (all_accept(stage5, e) && (cutoff_for(p.modified_before, now_before as int) matches Some(c) ==> modified_accepts(c as i128, false, e))) by {
            if stage6 != stage5 {
                lemma_all_accept_push(stage5, stage6.last(), e);
                assert(stage6 == stage5.push(stage6.last()));
            }
        }

        if !unwrap_flag(self.preset.show_hidden, false) {
            composite.add(Filter::Hidden(HiddenFilter));
        }
        let ghost stage7 = composite.parts();
        assert forall|e: FileEntry| #[trigger] composite.accepts(e) == preset_accepts(p, now_within as int, now_before as int, e) by {
            if stage7 != stage6 {
                lemma_all_accept_push(stage6, stage7.last(), e);
                assert(stage7 == stage6.push(stage7.last()));
            }
        }
        composite
    }

    /// The filter of the preset with the relative times taken at the clock
    /// readings `now_within` and `now_before`; `None` where building it
    /// panics: a duration beyond what `TimeDelta` holds, or a cutoff before
    /// the earliest instant that `chrono` represents.
    pub fn build_filter_with_clock(&self, now_within: i128, now_before: i128) -> (r: Option<CompositeFilter>)
        ensures
            filter_built(self.settings(), now_within as int, now_before as int, r),
    {
        if !window_buildable(&self.preset.modified_within, now_within) {
            return None;
        }
        if !window_buildable(&self.preset.modified_before, now_before) {
            return None;
        }
        Some(self.build_filter_at(now_within, now_before))
    }

    /// The filter of the preset (`Engine::build_filter`), with the relative
    /// times taken from the clock, read once for each time window that
    /// needs it: `build_filter_with_clock` at those readings. Where every
    /// duration fits and is no longer than the time from `chrono`'s earliest
    /// instant to the epoch, a filter is built.
    pub fn build_filter(&self) -> (r: Option<CompositeFilter>)
        ensures
            exists|now_within: int, now_before: int|
                clock_reading(now_within) && clock_reading(now_before) && filter_built(
                    self.settings(),
                    now_within,
                    now_before,
                    r,
                ),
            (durations_fit(self.settings()) && window_reachable(self.settings().modified_within)
                && window_reachable(self.settings().modified_before)) ==> r is Some,
    {
        let ghost p = self.settings();
        let now_within = clock_for(&self.preset.modified_within);
        let now_before = clock_for(&self.preset.modified_before);
        let r = self.build_filter_with_clock(now_within, now_before);
        assert(clock_reading(now_within as int) && clock_reading(now_before as int) && filter_built(
            p,
            now_within as int,
            now_before as int,
            r,
        ));
        r
    }

    /// Whether an entry listed under `name` and of the given kind goes on to
    /// the full filter (see `pre_filter_accepts`).
    pub fn pre_filter_matches(&self, name: &str, is_dir: bool, is_file: bool, is_symlink: bool) -> (r: bool)
        ensures
            r == pre_filter_accepts(self.settings(), name@, is_dir, is_symlink),
    {
        let ghost p = self.settings();
        if !unwrap_flag(self.preset.show_hidden, false) && starts_with_dot(name) {
            return false;
        }
        if is_dir {
            return true;
        }
        if unwrap_flag(self.preset.dirs_only, false) {
            return false;
        }
        if is_symlink && unwrap_flag(self.preset.no_symlinks, false) {
            return false;
        }
        if let Some(exts) = &self.preset.extensions {
            match crate::entry::extension_of(name) {
                Some(ext) => {
                    let ext_lower = to_lowercase(ext.as_str());
                    let mut found = false;
                    let mut i: usize = 0;
                    while i < exts.len()
                        invariant
                            i <= exts.len(),
                            found == exists|k: int| 0 <= k < i && #[trigger] lowercase(exts@[k]@) == ext_lower@,
                        decreases exts.len() - i,
                    {
                        let lower = to_lowercase(exts[i].as_str());
                        let same = compare_str(lower.as_str(), ext_lower.as_str()) == Order::Equal;
                        proof {
                            lemma_lex_order_equal(lower@, ext_lower@);
                        }
                        if same {
                            found = true;
                        }
                        i = i + 1;
                    }
                    let ghost ev = string_views(exts@);
                    assert(found == exists|k: int| 0 <= k < ev.len() && #[trigger] lowercase(ev[k]) == lowercase(ext@)) by {
                        if found {
                            let k = choose|k: int| 0 <= k < exts@.len() && #[trigger] lowercase(exts@[k]@) == ext_lower@;
                            assert(lowercase(ev[k]) == lowercase(ext@));
                        }
                        if exists|k: int| 0 <= k < ev.len() && #[trigger] lowercase(ev[k]) == lowercase(ext@) {
                            let k = choose|k: int| 0 <= k < ev.len() && #[trigger] lowercase(ev[k]) == lowercase(ext@);
                            assert(lowercase(exts@[k]@) == ext_lower@);
                        }
                    }
                    if !found {
                        return false;
                    }
                },
                None => {
                    return false;
                },
            }
        }
        if let Some(pat) = &self.preset.pattern {
            if !glob_pattern_matches(pat.as_str(), name) && glob_valid_check(pat.as_str()) {
                return false;
            }
        }
        true
    }

    /// Whether a directory `depth` levels below the start is listed: up to
    /// `max_depth` where one is given, else only the start itself.
    pub fn within_depth(&self, depth: usize) -> (r: bool)
        ensures
            r == match self.settings().max_depth {
                Some(d) => depth <= d,
                None => depth == 0,
            },
    {
        match self.preset.max_depth {
            Some(d) => depth <= d,
            None => depth == 0,
        }
    }

    /// Whether directories are descended into (a depth limit is given).
    pub fn is_recursive(&self) -> (r: bool)
        ensures
            r == self.settings().max_depth is Some,
    {
        self.preset.max_depth.is_some()
    }

    /// Whether a listed entry is walked into: a directory, when directories
    /// are descended into.
    pub fn descends_into(&self, entry: &FileEntry) -> (r: bool)
        ensures
            r == (entry.is_dir && self.settings().max_depth is Some),
    {
        entry.is_dir && self.preset.max_depth.is_some()
    }

    /// The sorter that the preset asks for.
    pub fn sorter(&self) -> (r: Sorter)
        ensures
            r == preset_sorter(self.settings()),
    {
        Sorter {
            field: match self.preset.sort_field {
                Some(f) => f,
                None => SortField::Name,
            },
            reverse: unwrap_flag(self.preset.reverse, false),
            dirs_first: unwrap_flag(self.preset.dirs_first, true),
        }
    }
}

/// Whether a directory's subtree stays in a tree listing: the directory
/// passes the filter itself, or something below it was kept.
pub fn keeps_subtree(filter: &CompositeFilter, entry: &FileEntry, subtree: &TreeNode) -> (r: bool)
    ensures
        r == (filter.accepts(*entry) || subtree.children@.len() > 0),
{
    filter.matches(entry) || subtree.children.len() > 0
}

/// Whether a glob pattern compiles.
fn glob_valid_check(pattern: &str) -> (r: bool)
    ensures
        r == glob_valid(pattern@),
{
    GlobFilter::new(pattern).is_ok()
}

/// What building a preset's filter gives with the relative times taken at
/// `now_within` and `now_before`: nothing where building it panics (a
/// duration or a cutoff out of range), else a filter that passes exactly
/// what `preset_accepts` passes.
pub open spec fn filter_built(p: PresetView, now_within: int, now_before: int, r: Option<CompositeFilter>) -> bool {
    let buildable = durations_fit(p) && cutoff_in_range(p.modified_within, now_within)
        && cutoff_in_range(p.modified_before, now_before);
    match r {
        None => !buildable,
        Some(c) => buildable && forall|e: FileEntry| #[trigger] c.accepts(e) == preset_accepts(p, now_within, now_before, e),
    }
}

/// Whether the time window `text` can be built at the clock reading `now`:
/// its duration, if it denotes one, is one that `TimeDelta` holds, and the
/// cutoff is an instant that `chrono` represents.
fn window_buildable(text: &Option<String>, now: i128) -> (r: bool)
    ensures
        r == ((text matches Some(t) ==> duration_fits(t@)) && cutoff_in_range(
            crate::preset::opt_text(*text),
            now as int,
        )),
{
    match text {
        None => true,
        Some(t) => {
            if !duration_in_range(t.as_str()) {
                return false;
            }
            match parse_duration(t.as_str()) {
                None => true,
                Some(secs) => now >= -8_334_601_228_800 * 1_000_000_000 + secs as i128 * 1_000_000_000,
            }
        },
    }
}

/// The clock, read where the time window `text` denotes a duration that can
/// be built (the one case in which the filter uses the time), else 0.
fn clock_for(text: &Option<String>) -> (r: i128)
    ensures
        clock_reading(r as int),
{
    match text {
        Some(t) => match read_duration(t.as_str()) {
            DurationReading::Seconds(_) => now_nanos(),
            _ => 0,
        },
        None => 0,
    }
}

/// The value of an optional flag, `default` when absent (`unwrap_or`).
pub fn unwrap_flag(o: Option<bool>, default: bool) -> (r: bool)
    ensures
        r == flag(o, default),
{
    match o {
        Some(b) => b,
        None => default,
    }
}

/// A copy of a list of strings.
pub fn clone_strings(v: &Vec<String>) -> (r: Vec<String>)
    ensures
        string_views(r@) == string_views(v@),
{
    let mut r: Vec<String> = Vec::new();
    let mut i: usize = 0;
    while i < v.len()
        invariant
            i <= v.len(),
            string_views(r@) == string_views(v@).take(i as int),
        decreases v.len() - i,
    {
        let ghost before = r@;
        r.push(v[i].clone());
        assert(string_views(r@) =~= string_views(before).push(v@[i as int]@));
        assert(string_views(v@).take(i + 1) =~= string_views(v@).take(i as int).push(v@[i as int]@));
        i = i + 1;
    }
    assert(string_views(v@).take(v.len() as int) =~= string_views(v@));
    r
}

} // verus!
