use vstd::prelude::*;
use crate::text::{
    chars_of, compare_str, owned_text, string_from_chars, string_views, sub_chars, to_uppercase, trim,
    trim_end, trim_start, trim_str, uppercase, white_space, Order,
};
use crate::sort::SortField;
use crate::format::{spec_format_size, OutputFormat};
use crate::numbers::{
    decimal, digit_prefix, digit_rest, digits_len, digits_value, digits_value_up_to, f64_round,
    lemma_decimal_digits, lemma_decimal_value, lemma_digits_len_of_run, leading_digits,
    round_to_f64, two_pow,
};

verus! {

/// The settings of a search: filters, ordering and output. Every setting is
/// optional; an absent one takes the listing's default.
#[derive(Clone, Debug)]
pub struct Preset {
    pub pattern: Option<String>,
    pub extensions: Option<Vec<String>>,
    pub min_size: Option<String>,
    pub max_size: Option<String>,
    pub dirs_only: Option<bool>,
    pub files_only: Option<bool>,
    pub no_symlinks: Option<bool>,
    pub modified_within: Option<String>,
    pub modified_before: Option<String>,
    pub max_depth: Option<usize>,
    pub sort_field: Option<SortField>,
    pub reverse: Option<bool>,
    pub dirs_first: Option<bool>,
    pub output_format: Option<OutputFormat>,
    pub human_readable: Option<bool>,
    pub show_hidden: Option<bool>,
}

/// The contents of a `Preset`, with texts as character sequences.
pub struct PresetView {
    pub pattern: Option<Seq<char>>,
    pub extensions: Option<Seq<Seq<char>>>,
    pub min_size: Option<Seq<char>>,
    pub max_size: Option<Seq<char>>,
    pub dirs_only: Option<bool>,
    pub files_only: Option<bool>,
    pub no_symlinks: Option<bool>,
    pub modified_within: Option<Seq<char>>,
    pub modified_before: Option<Seq<char>>,
    pub max_depth: Option<usize>,
    pub sort_field: Option<SortField>,
    pub reverse: Option<bool>,
    pub dirs_first: Option<bool>,
    pub output_format: Option<OutputFormat>,
    pub human_readable: Option<bool>,
    pub show_hidden: Option<bool>,
}

/// The characters of an optional string.
pub open spec fn opt_text(o: Option<String>) -> Option<Seq<char>> {
    match o {
        Some(s) => Some(s@),
        None => None,
    }
}

/// The characters of an optional list of strings.
pub open spec fn opt_texts(o: Option<Vec<String>>) -> Option<Seq<Seq<char>>> {
    match o {
        Some(v) => Some(string_views(v@)),
        None => None,
    }
}

impl View for Preset {
    type V = PresetView;

    open spec fn view(&self) -> PresetView {
        PresetView {
            pattern: opt_text(self.pattern),
            extensions: opt_texts(self.extensions),
            min_size: opt_text(self.min_size),
            max_size: opt_text(self.max_size),
            dirs_only: self.dirs_only,
            files_only: self.files_only,
            no_symlinks: self.no_symlinks,
            modified_within: opt_text(self.modified_within),
            modified_before: opt_text(self.modified_before),
            max_depth: self.max_depth,
            sort_field: self.sort_field,
            reverse: self.reverse,
            dirs_first: self.dirs_first,
            output_format: self.output_format,
            human_readable: self.human_readable,
            show_hidden: self.show_hidden,
        }
    }
}

/// A preset with no setting given.
pub open spec fn empty_preset() -> PresetView {
    PresetView {
        pattern: None,
        extensions: None,
        min_size: None,
        max_size: None,
        dirs_only: None,
        files_only: None,
        no_symlinks: None,
        modified_within: None,
        modified_before: None,
        max_depth: None,
        sort_field: None,
        reverse: None,
        dirs_first: None,
        output_format: None,
        human_readable: None,
        show_hidden: None,
    }
}

impl Default for Preset {
    /// A preset with no setting given.
    fn default() -> (r: Self)
        ensures
            r@ == empty_preset(),
    {
        Preset {
            pattern: None,
            extensions: None,
            min_size: None,
            max_size: None,
            dirs_only: None,
            files_only: None,
            no_symlinks: None,
            modified_within: None,
            modified_before: None,
            max_depth: None,
            sort_field: None,
            reverse: None,
            dirs_first: None,
            output_format: None,
            human_readable: None,
            show_hidden: None,
        }
    }
}

/// The presets by name that the list of named presets `s` holds, a later
/// entry for a name replacing an earlier one.
pub open spec fn preset_table(s: Seq<(String, Preset)>) -> Map<Seq<char>, PresetView>
    decreases s.len(),
{
    if s.len() == 0 {
        Map::empty()
    } else {
        preset_table(s.drop_last()).insert(s.last().0@, s.last().1@)
    }
}

/// No name occurs twice in the list.
pub open spec fn names_distinct(s: Seq<(String, Preset)>) -> bool {
    forall|i: int, j: int| 0 <= i < s.len() && 0 <= j < s.len() && i != j ==> #[trigger] s[i].0@ != #[trigger] s[j].0@
}

#[verifier::spinoff_prover]
proof fn lemma_preset_table(s: Seq<(String, Preset)>)
    requires
        names_distinct(s),
    ensures
        forall|k: Seq<char>| preset_table(s).contains_key(k) <==> exists|i: int| 0 <= i < s.len() && #[trigger] s[i].0@ == k,
        forall|i: int| 0 <= i < s.len() ==> preset_table(s)[#[trigger] s[i].0@] == s[i].1@,
    decreases s.len(),
{
    if s.len() > 0 {
        let t = s.drop_last();
        assert forall|i: int, j: int| 0 <= i < t.len() && 0 <= j < t.len() && i != j implies #[trigger] t[i].0@ != #[trigger] t[j].0@ by {
            assert(t[i] == s[i] && t[j] == s[j]);
        }
        lemma_preset_table(t);
        assert forall|k: Seq<char>| preset_table(s).contains_key(k) implies exists|i: int| 0 <= i < s.len() && #[trigger] s[i].0@ == k by {
            if k == s.last().0@ {
                assert(s[s.len() - 1].0@ == k);
            } else {
                assert(preset_table(t).contains_key(k));
                let i = choose|i: int| 0 <= i < t.len() && #[trigger] t[i].0@ == k;
                assert(s[i] == t[i]);
                assert(s[i].0@ == k);
            }
        }
        assert forall|k: Seq<char>| (exists|i: int| 0 <= i < s.len() && #[trigger] s[i].0@ == k) implies preset_table(s).contains_key(k) by {
            let i = choose|i: int| 0 <= i < s.len() && #[trigger] s[i].0@ == k;
            if i < s.len() - 1 {
                assert(t[i].0@ == k);
            }
        }
        assert forall|i: int| 0 <= i < s.len() implies preset_table(s)[#[trigger] s[i].0@] == s[i].1@ by {
            if i < s.len() - 1 {
                assert(t[i] == s[i]);
                assert(s[i].0@ != s[s.len() - 1].0@);
            }
        }
    }
}

/// Named presets, as the configuration file holds them.
pub struct Config {
    presets: Vec<(String, Preset)>,
}

impl Config {
    #[verifier::type_invariant]
    closed spec fn wf(self) -> bool {
        names_distinct(self.presets@)
    }

    /// The presets by name.
    pub closed spec fn table(&self) -> Map<Seq<char>, PresetView> {
        preset_table(self.presets@)
    }

    /// A configuration with no presets.
    pub fn new() -> (r: Self)
        ensures
            r.table() == Map::<Seq<char>, PresetView>::empty(),
    {
        Config { presets: Vec::new() }
    }

    fn position(&self, name: &str) -> (r: Option<usize>)
        ensures
            match r {
                Some(i) => i < self.presets@.len() && self.presets@[i as int].0@ == name@,
                None => forall|i: int| 0 <= i < self.presets@.len() ==> #[trigger] self.presets@[i].0@ != name@,
            },
    {
        let mut i: usize = 0;
        while i < self.presets.len()
            invariant
                i <= self.presets@.len(),
                forall|k: int| 0 <= k < i ==> #[trigger] self.presets@[k].0@ != name@,
            decreases self.presets.len() - i,
        {
            if compare_str(self.presets[i].0.as_str(), name) == Order::Equal {
                proof {
                    crate::text::lemma_lex_order_equal(self.presets@[i as int].0@, name@);
                }
                return Some(i);
            }
            proof {
                crate::text::lemma_lex_order_equal(self.presets@[i as int].0@, name@);
            }
            i = i + 1;
        }
        None
    }

    /// The preset named `name`, if there is one.
    pub fn get(&self, name: &str) -> (r: Option<&Preset>)
        ensures
            match r {
                Some(p) => self.table().contains_key(name@) && self.table()[name@] == p@,
                None => !self.table().contains_key(name@),
            },
    {
        proof {
            use_type_invariant(self);
            lemma_preset_table(self.presets@);
        }
        match self.position(name) {
            Some(i) => Some(&self.presets[i].1),
            None => None,
        }
    }

    /// Sets the preset named `name` to `preset`, replacing one of that name.
    pub fn insert(&mut self, name: String, preset: Preset)
        ensures
            final(self).table() == old(self).table().insert(name@, preset@),
    {
        proof {
            use_type_invariant(&*self);
            lemma_preset_table(self.presets@);
        }
        let ghost old_table = self.table();
        let ghost key = name@;
        let ghost value = preset@;
        match self.position(name.as_str()) {
            Some(i) => {
                let mut presets: Vec<(String, Preset)> = Vec::new();
                std::mem::swap(&mut presets, &mut self.presets);
                let ghost before = presets@;
                presets.set(i, (name, preset));
                proof {
                    assert forall|a: int, b: int| 0 <= a < presets@.len() && 0 <= b < presets@.len() && a != b implies #[trigger] presets@[a].0@ != #[trigger] presets@[b].0@ by {
                        assert(before[a].0@ != before[b].0@);
                        assert(before[i as int].0@ == key);
                    }
                    lemma_preset_table(presets@);
                    assert(preset_table(presets@) =~= preset_table(before).insert(key, value)) by {
                        assert forall|k: Seq<char>| #[trigger] preset_table(presets@).contains_key(k) == preset_table(before).insert(key, value).contains_key(k) by {
                            if preset_table(before).contains_key(k) && k != key {
                                let j = choose|j: int| 0 <= j < before.len() && #[trigger] before[j].0@ == k;
                                assert(presets@[j].0@ == k);
                            }
                            if preset_table(presets@).contains_key(k) && k != key {
                                let j = choose|j: int| 0 <= j < presets@.len() && #[trigger] presets@[j].0@ == k;
                                assert(before[j].0@ == k);
                            }
                            assert(presets@[i as int].0@ == key);
                        }
                        assert forall|k: Seq<char>| #[trigger] preset_table(presets@).contains_key(k) implies preset_table(presets@)[k] == preset_table(before).insert(key, value)[k] by {
                            let j = choose|j: int| 0 <= j < presets@.len() && #[trigger] presets@[j].0@ == k;
                            if j != i {
                                assert(before[j] == presets@[j]);
                            }
                        }
                    }
                }
                self.presets = presets;
            },
            None => {
                let mut presets: Vec<(String, Preset)> = Vec::new();
                std::mem::swap(&mut presets, &mut self.presets);
                let ghost before = presets@;
                presets.push((name, preset));
                proof {
                    assert(presets@.drop_last() =~= before);
                    assert forall|a: int, b: int| 0 <= a < presets@.len() && 0 <= b < presets@.len() && a != b implies #[trigger] presets@[a].0@ != #[trigger] presets@[b].0@ by {
                        if a < before.len() && b < before.len() {
                            assert(before[a].0@ != before[b].0@);
                        } else if a < before.len() {
                            assert(before[a].0@ != key);
                        } else {
                            assert(before[b].0@ != key);
                        }
                    }
                }
                self.presets = presets;
            },
        }
    }

    /// The named presets, each name once.
    pub fn presets(&self) -> (r: &Vec<(String, Preset)>)
        ensures
            preset_table(r@) == self.table(),
            names_distinct(r@),
    {
        proof {
            use_type_invariant(self);
        }
        &self.presets
    }
}

/// What `insert` stores under a name, `get` gives back; every other name
/// keeps the preset it had, or its absence.
pub proof fn lemma_insert_then_get(
    before: Config,
    after: Config,
    name: Seq<char>,
    preset: PresetView,
    other: Seq<char>,
)
    requires
        after.table() == before.table().insert(name, preset),
    ensures
        after.table().contains_key(name),
        after.table()[name] == preset,
        other != name ==> after.table().contains_key(other) == before.table().contains_key(other),
        other != name && before.table().contains_key(other) ==> after.table()[other]
            == before.table()[other],
{
}

/// Settings given for one run, which override those of a preset: texts
/// and lists where given, flags where set, and the output format.
pub struct Overrides {
    pub pattern: Option<String>,
    pub extensions: Option<Vec<String>>,
    pub min_size: Option<String>,
    pub max_size: Option<String>,
    pub dirs_only: bool,
    pub files_only: bool,
    pub show_all: bool,
    pub modified_within: Option<String>,
    pub modified_before: Option<String>,
    pub recursive: bool,
    pub max_depth: Option<usize>,
    pub sort_field: Option<SortField>,
    pub reverse: bool,
    pub long: bool,
    pub tree: bool,
    pub json: bool,
}

/// The given value where there is one, else the current one.
pub open spec fn or_given<A>(given: Option<A>, current: Option<A>) -> Option<A> {
    if given is Some {
        given
    } else {
        current
    }
}

/// `Some(true)` where the flag is set, else the current value.
pub open spec fn set_if(flag: bool, current: Option<bool>) -> Option<bool> {
    if flag {
        Some(true)
    } else {
        current
    }
}

/// A preset with the overrides applied: each given text or list replaces
/// the preset's; each set flag sets its setting (`show_all` shows hidden
/// entries); `recursive` lifts a missing depth limit to `usize::MAX`, and a
/// given depth limit replaces the preset's; the first of `long`, `tree`,
/// `json` that is set picks the output format.
pub open spec fn overridden(p: PresetView, o: Overrides) -> PresetView {
    PresetView {
        pattern: or_given(opt_text(o.pattern), p.pattern),
        extensions: or_given(opt_texts(o.extensions), p.extensions),
        min_size: or_given(opt_text(o.min_size), p.min_size),
        max_size: or_given(opt_text(o.max_size), p.max_size),
        dirs_only: set_if(o.dirs_only, p.dirs_only),
        files_only: set_if(o.files_only, p.files_only),
        show_hidden: set_if(o.show_all, p.show_hidden),
        modified_within: or_given(opt_text(o.modified_within), p.modified_within),
        modified_before: or_given(opt_text(o.modified_before), p.modified_before),
        max_depth: if o.max_depth is Some {
            o.max_depth
        } else if o.recursive && p.max_depth is None {
            Some(usize::MAX)
        } else {
            p.max_depth
        },
        sort_field: or_given(o.sort_field, p.sort_field),
        reverse: set_if(o.reverse, p.reverse),
        output_format: if o.long {
            Some(OutputFormat::Long)
        } else if o.tree {
            Some(OutputFormat::Tree)
        } else if o.json {
            Some(OutputFormat::Json)
        } else {
            p.output_format
        },
        ..p
    }
}

fn given_text(given: Option<String>, current: Option<String>) -> (r: Option<String>)
    ensures
        opt_text(r) == or_given(opt_text(given), opt_text(current)),
{
    if given.is_some() {
        given
    } else {
        current
    }
}

fn given_texts(given: Option<Vec<String>>, current: Option<Vec<String>>) -> (r: Option<Vec<String>>)
    ensures
        opt_texts(r) == or_given(opt_texts(given), opt_texts(current)),
{
    if given.is_some() {
        given
    } else {
        current
    }
}

fn set_flag(flag: bool, current: Option<bool>) -> (r: Option<bool>)
    ensures
        r == set_if(flag, current),
{
    if flag {
        Some(true)
    } else {
        current
    }
}

/// Applies the overrides of one run to a preset (see `overridden`).
pub fn apply_overrides(preset: Preset, o: Overrides) -> (r: Preset)
    ensures
        r@ == overridden(preset@, o),
{
    let ghost p = preset@;
    let ghost given = o;
    let max_depth = if o.max_depth.is_some() {
        o.max_depth
    } else if o.recursive && preset.max_depth.is_none() {
        Some(usize::MAX)
    } else {
        preset.max_depth
    };
    let sort_field = if o.sort_field.is_some() {
        o.sort_field
    } else {
        preset.sort_field
    };
    let output_format = if o.long {
        Some(OutputFormat::Long)
    } else if o.tree {
        Some(OutputFormat::Tree)
    } else if o.json {
        Some(OutputFormat::Json)
    } else {
        preset.output_format
    };
    let r = Preset {
        pattern: given_text(o.pattern, preset.pattern),
        extensions: given_texts(o.extensions, preset.extensions),
        min_size: given_text(o.min_size, preset.min_size),
        max_size: given_text(o.max_size, preset.max_size),
        dirs_only: set_flag(o.dirs_only, preset.dirs_only),
        files_only: set_flag(o.files_only, preset.files_only),
        no_symlinks: preset.no_symlinks,
        modified_within: given_text(o.modified_within, preset.modified_within),
        modified_before: given_text(o.modified_before, preset.modified_before),
        max_depth,
        sort_field,
        reverse: set_flag(o.reverse, preset.reverse),
        dirs_first: preset.dirs_first,
        output_format,
        human_readable: preset.human_readable,
        show_hidden: set_flag(o.show_all, preset.show_hidden),
    };
    assert(r@ == overridden(p, given));
    r
}

/// A preset that only orders and formats: by `field`, reversed, in `format`,
/// with `human_readable` as given.
pub open spec fn ordering_preset(field: SortField, format: OutputFormat, human_readable: Option<bool>) -> PresetView {
    PresetView {
        sort_field: Some(field),
        reverse: Some(true),
        output_format: Some(format),
        human_readable,
        ..empty_preset()
    }
}

/// The presets that a new configuration file holds: `rust` (Rust sources,
/// newest first, long), `large` (at least 100MB, largest first, long),
/// `media` (audio, video and image extensions, largest first, grid) and
/// `recent` (modified within a day, newest first, long).
pub open spec fn default_presets() -> Map<Seq<char>, PresetView> {
    Map::empty().insert(
        "rust"@,
        PresetView {
            pattern: Some("*.rs"@),
            ..ordering_preset(SortField::Time, OutputFormat::Long, Some(true))
        },
    ).insert(
        "large"@,
        PresetView {
            min_size: Some("100MB"@),
            ..ordering_preset(SortField::Size, OutputFormat::Long, Some(true))
        },
    ).insert(
        "media"@,
        PresetView {
            extensions: Some(
                seq![
                    "mp4"@,
                    "mkv"@,
                    "avi"@,
                    "mov"@,
                    "png"@,
                    "jpg"@,
                    "jpeg"@,
                    "gif"@,
                    "mp3"@,
                    "wav"@,
                ],
            ),
            ..ordering_preset(SortField::Size, OutputFormat::Grid, None)
        },
    ).insert(
        "recent"@,
        PresetView {
            modified_within: Some("1d"@),
            ..ordering_preset(SortField::Time, OutputFormat::Long, Some(true))
        },
    )
}

/// The configuration written on first use: the presets `rust`, `large`,
/// `media` and `recent`.
pub fn create_default_config() -> (r: Config)
    ensures
        r.table() == default_presets(),
{
    let mut config = Config::new();
    let mut rust = Preset::default();
    rust.pattern = Some(owned_text("*.rs"));
    rust.sort_field = Some(SortField::Time);
    rust.reverse = Some(true);
    rust.output_format = Some(OutputFormat::Long);
    rust.human_readable = Some(true);
    config.insert(owned_text("rust"), rust);

    let mut large = Preset::default();
    large.min_size = Some(owned_text("100MB"));
    large.sort_field = Some(SortField::Size);
    large.reverse = Some(true);
    large.output_format = Some(OutputFormat::Long);
    large.human_readable = Some(true);
    config.insert(owned_text("large"), large);

    let mut media = Preset::default();
    let mut exts: Vec<String> = Vec::new();
    exts.push(owned_text("mp4"));
    exts.push(owned_text("mkv"));
    exts.push(owned_text("avi"));
    exts.push(owned_text("mov"));
    exts.push(owned_text("png"));
    exts.push(owned_text("jpg"));
    exts.push(owned_text("jpeg"));
    exts.push(owned_text("gif"));
    exts.push(owned_text("mp3"));
    exts.push(owned_text("wav"));
    assert(string_views(exts@) =~= seq![
        "mp4"@,
        "mkv"@,
        "avi"@,
        "mov"@,
        "png"@,
        "jpg"@,
        "jpeg"@,
        "gif"@,
        "mp3"@,
        "wav"@,
    ]);
    media.extensions = Some(exts);
    media.sort_field = Some(SortField::Size);
    media.reverse = Some(true);
    media.output_format = Some(OutputFormat::Grid);
    config.insert(owned_text("media"), media);

    let mut recent = Preset::default();
    recent.modified_within = Some(owned_text("1d"));
    recent.sort_field = Some(SortField::Time);
    recent.reverse = Some(true);
    recent.output_format = Some(OutputFormat::Long);
    recent.human_readable = Some(true);
    config.insert(owned_text("recent"), recent);
    assert(config.table() =~= default_presets());
    config
}

/// The binary exponent of a size unit, written in capitals: `K`, `KB`, `KIB`
/// are 2^10, `M`.. 2^20, `G`.. 2^30, `T`.. 2^40; `B` and every other text
/// count single bytes.
pub open spec fn unit_shift(u: Seq<char>) -> nat {
    if u == seq!['K'] || u == seq!['K', 'B'] || u == seq!['K', 'I', 'B'] {
        10
    } else if u == seq!['M'] || u == seq!['M', 'B'] || u == seq!['M', 'I', 'B'] {
        20
    } else if u == seq!['G'] || u == seq!['G', 'B'] || u == seq!['G', 'I', 'B'] {
        30
    } else if u == seq!['T'] || u == seq!['T', 'B'] || u == seq!['T', 'I', 'B'] {
        40
    } else {
        0
    }
}

/// `x`, or `u64::MAX` where `x` does not fit: a saturating conversion.
pub open spec fn saturate(x: nat) -> u64 {
    if x > u64::MAX {
        u64::MAX
    } else {
        x as u64
    }
}

/// The size that a text such as `"100MB"` or `" 2 gib "` denotes: the leading
/// decimal digits, read as a binary64 number, times the unit's power of two,
/// converted to `u64` with saturation. No digits: no size.
pub open spec fn spec_parse_size(s: Seq<char>) -> Option<u64> {
    let t = trim(s);
    let d = digit_prefix(t);
    if d.len() == 0 {
        None
    } else {
        let v = digits_value(d);
        let unit = uppercase(trim(digit_rest(t)));
        if v > u64::MAX {
            Some(u64::MAX)
        } else {
            Some(saturate(f64_round(v) * two_pow(unit_shift(unit))))
        }
    }
}

fn unit_shift_of(u: &Vec<char>) -> (r: u32)
    ensures
        r == unit_shift(u@),
{
    let n = u.len();
    if n == 0 || n > 3 {
        return 0;
    }
    if n >= 2 && u[n - 1] != 'B' {
        return 0;
    }
    if n == 3 && u[1] != 'I' {
        return 0;
    }
    if n == 2 {
        assert(u@ == seq![u@[0], 'B']);
    } else if n == 3 {
        assert(u@ == seq![u@[0], 'I', 'B']);
    } else {
        assert(u@ == seq![u@[0]]);
    }
    let c = u[0];
    if c == 'K' {
        10
    } else if c == 'M' {
        20
    } else if c == 'G' {
        30
    } else if c == 'T' {
        40
    } else {
        0
    }
}

proof fn lemma_two_pow_units()
    ensures
        two_pow(0) == 1,
        two_pow(10) == 0x400,
        two_pow(20) == 0x10_0000,
        two_pow(30) == 0x4000_0000,
        two_pow(40) == 0x100_0000_0000,
{
    reveal_with_fuel(two_pow, 41);
}

/// Parses a human-readable size such as `"100MB"`, `"2G"` or `"512"`.
///
/// Surrounding white space is ignored; the leading decimal digits give the
/// number and the rest, trimmed and taken case-insensitively, the unit.
/// Without digits there is no size; an unknown unit counts bytes. The number
/// is taken as the nearest binary64 value, and a product beyond `u64::MAX`
/// saturates.
pub fn parse_size(s: &str) -> (r: Option<u64>)
    ensures
        r == spec_parse_size(s@),
{
    let t = trim_str(s);
    let tv = chars_of(t.as_str());
    let k = leading_digits(&tv);
    if k == 0 {
        return None;
    }
    proof {
        crate::numbers::lemma_digits_len_bound(tv@);
    }
    let value = digits_value_up_to(&tv, 0, k, u64::MAX);
    assert(tv@.subrange(0, k as int) =~= digit_prefix(tv@));
    let rest = sub_chars(&tv, k, tv.len());
    assert(rest@ =~= digit_rest(tv@));
    let rest_str = string_from_chars(&rest);
    let rest_trimmed = trim_str(rest_str.as_str());
    let unit = to_uppercase(rest_trimmed.as_str());
    let unit_chars = chars_of(unit.as_str());
    let shift = unit_shift_of(&unit_chars);
    match value {
        None => Some(u64::MAX),
        Some(v) => {
            let rounded = round_to_f64(v);
            proof {
                lemma_two_pow_units();
            }
            let mult: u128 = if shift == 10 {
                0x400
            } else if shift == 20 {
                0x10_0000
            } else if shift == 30 {
                0x4000_0000
            } else if shift == 40 {
                0x100_0000_0000
            } else {
                1
            };
            assert(rounded * mult <= 0x1_0000_0000_0000_0000 * 0x100_0000_0000) by (nonlinear_arith)
                requires
                    rounded <= 0x1_0000_0000_0000_0000,
                    mult <= 0x100_0000_0000,
            ;
            let product: u128 = rounded * mult;
            if product > 0xffff_ffff_ffff_ffff {
                Some(u64::MAX)
            } else {
                Some(product as u64)
            }
        },
    }
}

/// A byte count written by `format_size` reads back through `parse_size` as
/// itself wherever binary64 holds it exactly (every count up to 2^53 among
/// them): in plain form always, and in human-readable form below one
/// kibibyte (`512B`).
#[verifier::spinoff_prover]
pub proof fn lemma_formatted_size_reads_back(n: u64)
    requires
        f64_round(n as nat) == n,
    ensures
        spec_parse_size(spec_format_size(n, false)) == Some(n),
        n < 1024 ==> spec_parse_size(spec_format_size(n, true)) == Some(n),
{
    let d = decimal(n as nat);
    let none = Seq::<char>::empty();
    lemma_decimal_digits(n as nat);
    lemma_decimal_value(n as nat);
    assert(crate::numbers::is_digit(d[0]));
    assert(crate::numbers::is_digit(d.last()));
    assert(trim_start(d) == d);
    assert(trim_end(d) == d);
    lemma_digits_len_of_run(d, none);
    assert(d + none =~= d);
    assert(trim(none) == none);
    assert(uppercase(none) =~= none);
    assert(unit_shift(none) == 0);
    assert(two_pow(0) == 1);
    if n < 1024 {
        let unit = seq!['B'];
        let h = d + unit;
        assert(h[0] == d[0]);
        assert(h.last() == 'B');
        assert(trim_start(h) == h);
        assert(trim_end(h) == h);
        lemma_digits_len_of_run(d, unit);
        assert(trim_start(unit) == unit);
        assert(trim_end(unit) == unit);
        assert(uppercase(unit) =~= unit);
        assert(unit[0] != seq!['K'][0] && unit[0] != seq!['M'][0] && unit[0] != seq!['G'][0]
            && unit[0] != seq!['T'][0]);
        assert(unit_shift(unit) == 0);
        crate::numbers::lemma_f64_round_exact(n as nat);
    }
}

} // verus!
