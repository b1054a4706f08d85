use vstd::prelude::*;
use crate::entry::{name_extension, FileEntry};
use crate::text::{
    ascii_lower, chars_of, lowercase, string_from_chars, string_views, sub_chars, to_lowercase, trim,
    trim_end, trim_start, trim_str, white_space,
};
use crate::numbers::{
    decimal, digit_prefix, digit_rest, digits_value, digits_value_up_to, is_digit,
    lemma_decimal_digits, lemma_decimal_value, lemma_digits_len_of_run, leading_digits,
};

verus! {

#[verifier::external_type_specification]
#[verifier::external_body]
pub struct ExPatternError(glob::PatternError);

/// Whether `glob::Pattern::new` accepts a pattern text.
pub uninterp spec fn glob_valid(pattern: Seq<char>) -> bool;

/// What `glob::Pattern::matches` (default options: case-sensitive) answers
/// for a pattern text that compiles and a name.
pub uninterp spec fn glob_matches(pattern: Seq<char>, name: Seq<char>) -> bool;

/// `glob::Pattern::new`: succeeds exactly on the pattern texts named valid.
#[verifier::external_body]
fn glob_compile(pattern: &str) -> (r: Result<(), glob::PatternError>)
    ensures
        r is Ok == glob_valid(pattern@),
{
    match glob::Pattern::new(pattern) {
        Ok(_) => Ok(()),
        Err(e) => Err(e),
    }
}

/// `glob::Pattern::matches` on the compiled pattern text: `None` where the
/// text does not compile, else whether `name` matches.
#[verifier::external_body]
fn glob_match(pattern: &str, name: &str) -> (r: Option<bool>)
    ensures
        r is Some == glob_valid(pattern@),
        r matches Some(b) ==> b == glob_matches(pattern@, name@),
{
    match glob::Pattern::new(pattern) {
        Ok(p) => Some(p.matches(name)),
        Err(_) => None,
    }
}

/// Whether `name` matches the glob `pattern`, false where the pattern does
/// not compile.
pub fn glob_pattern_matches(pattern: &str, name: &str) -> (r: bool)
    ensures
        r == (glob_valid(pattern@) && glob_matches(pattern@, name@)),
{
    match glob_match(pattern, name) {
        Some(b) => b,
        None => false,
    }
}

/// A test that an entry passes or fails.
pub trait FileFilter {
    spec fn accepts(&self, entry: FileEntry) -> bool;

    fn matches(&self, entry: &FileEntry) -> (r: bool)
        ensures
            r == self.accepts(*entry),
    ;
}

/// A pattern that cannot be compiled as a glob.
#[derive(Debug)]
pub struct InvalidPattern;

/// Entries whose name matches a glob pattern.
pub struct GlobFilter {
    pub pattern: String,
}

impl GlobFilter {
    /// A filter for the glob `pattern_str`, or an error where it does not
    /// compile.
    pub fn new(pattern_str: &str) -> (r: Result<Self, InvalidPattern>)
        ensures
            r is Ok == glob_valid(pattern_str@),
            r matches Ok(g) ==> g.pattern@ == pattern_str@,
    {
        match glob_compile(pattern_str) {
            Ok(()) => Ok(GlobFilter { pattern: pattern_str.to_string() }),
            Err(_) => Err(InvalidPattern),
        }
    }
}

impl FileFilter for GlobFilter {
    open spec fn accepts(&self, entry: FileEntry) -> bool {
        glob_valid(self.pattern@) && glob_matches(self.pattern@, entry.name@)
    }

    fn matches(&self, entry: &FileEntry) -> (r: bool) {
        glob_pattern_matches(self.pattern.as_str(), entry.name.as_str())
    }
}

/// Whether an entry passes an extension filter with the given lowercased
/// extensions: directories always, other entries when the lowercased
/// extension of their name is among them.
pub open spec fn extension_accepts(extensions: Seq<Seq<char>>, entry: FileEntry) -> bool {
    entry.is_dir || match name_extension(entry.name@) {
        Some(x) => extensions.contains(lowercase(x)),
        None => false,
    }
}

/// Entries with one of a set of extensions (case-insensitive); directories
/// pass.
pub struct ExtensionFilter {
    extensions: Vec<String>,
}

impl ExtensionFilter {
    /// A filter for the extensions `exts`, kept lowercased.
    pub fn new(exts: Vec<String>) -> (r: Self)
        ensures
            r.lowercased() == string_views(exts@).map_values(|e: Seq<char>| lowercase(e)),
    {
        let mut extensions: Vec<String> = Vec::new();
        let mut i: usize = 0;
        while i < exts.len()
            invariant
                i <= exts.len(),
                string_views(extensions@) == string_views(exts@).take(i as int).map_values(
                    |e: Seq<char>| lowercase(e),
                ),
            decreases exts.len() - i,
        {
            let ghost before = extensions@;
            extensions.push(to_lowercase(exts[i].as_str()));
            assert(string_views(extensions@) =~= string_views(before).push(lowercase(exts@[i as int]@)));
            assert(string_views(exts@).take(i + 1) =~= string_views(exts@).take(i as int).push(exts@[i as int]@));
            assert(string_views(extensions@) =~= string_views(exts@).take(i + 1).map_values(
                |e: Seq<char>| lowercase(e),
            ));
            i = i + 1;
        }
        assert(string_views(exts@).take(exts.len() as int) =~= string_views(exts@));
        ExtensionFilter { extensions }
    }

    /// The extensions, lowercased.
    pub closed spec fn lowercased(&self) -> Seq<Seq<char>> {
        string_views(self.extensions@)
    }
}

impl FileFilter for ExtensionFilter {
    open spec fn accepts(&self, entry: FileEntry) -> bool {
        extension_accepts(self.lowercased(), entry)
    }

    fn matches(&self, entry: &FileEntry) -> (r: bool) {
        if entry.is_dir {
            return true;
        }
        match entry.extension() {
            Some(ext) => {
                let lower = to_lowercase(ext.as_str());
                let mut i: usize = 0;
                while i < self.extensions.len()
                    invariant
                        i <= self.extensions.len(),
                        forall|k: int| 0 <= k < i ==> self.extensions@[k]@ != lower@,
                        lower@ == lowercase(ext@),
                        name_extension(entry.name@) == Some(ext@),
                        !entry.is_dir,
                    decreases self.extensions.len() - i,
                {
                    if self.extensions[i] == lower {
                        assert(self.lowercased()[i as int] == lower@);
                        return true;
                    }
                    i = i + 1;
                }
                assert(!self.lowercased().contains(lower@)) by {
                    if self.lowercased().contains(lower@) {
                        let k = choose|k: int| 0 <= k < self.lowercased().len() && self.lowercased()[k] == lower@;
                        assert(self.extensions@[k]@ == lower@);
                    }
                }
                false
            },
            None => false,
        }
    }
}

/// Whether an entry passes a size filter: directories always, other
/// entries when their size is at least `min` and at most `max`, where given.
pub open spec fn size_accepts(min_size: Option<u64>, max_size: Option<u64>, entry: FileEntry) -> bool {
    entry.is_dir || ((min_size matches Some(m) ==> entry.size >= m) && (max_size matches Some(m) ==> entry.size <= m))
}

/// Entries whose size lies within bounds; directories pass.
pub struct SizeFilter {
    min_size: Option<u64>,
    max_size: Option<u64>,
}

impl SizeFilter {
    /// A filter for sizes from `min_size` to `max_size`, both inclusive and
    /// optional.
    pub fn new(min_size: Option<u64>, max_size: Option<u64>) -> (r: Self)
        ensures
            r.min() == min_size,
            r.max() == max_size,
    {
        SizeFilter { min_size, max_size }
    }

    /// The least size that passes, if bounded.
    pub closed spec fn min(&self) -> Option<u64> {
        self.min_size
    }

    /// The greatest size that passes, if bounded.
    pub closed spec fn max(&self) -> Option<u64> {
        self.max_size
    }
}

impl FileFilter for SizeFilter {
    open spec fn accepts(&self, entry: FileEntry) -> bool {
        size_accepts(self.min(), self.max(), entry)
    }

    fn matches(&self, entry: &FileEntry) -> (r: bool) {
        if entry.is_dir {
            return true;
        }
        if let Some(min) = self.min_size {
            if entry.size < min {
                return false;
            }
        }
        if let Some(max) = self.max_size {
            if entry.size > max {
                return false;
            }
        }
        true
    }
}

/// Entries of the kinds asked for.
pub struct TypeFilter {
    pub dirs_only: bool,
    pub files_only: bool,
    pub no_symlinks: bool,
}

/// Whether an entry passes a type filter.
pub open spec fn type_accepts(dirs_only: bool, files_only: bool, no_symlinks: bool, entry: FileEntry) -> bool {
    (dirs_only ==> entry.is_dir) && (files_only ==> entry.is_file) && (no_symlinks ==> !entry.is_symlink)
}

impl FileFilter for TypeFilter {
    open spec fn accepts(&self, entry: FileEntry) -> bool {
        type_accepts(self.dirs_only, self.files_only, self.no_symlinks, entry)
    }

    fn matches(&self, entry: &FileEntry) -> (r: bool) {
        if self.dirs_only && !entry.is_dir {
            return false;
        }
        if self.files_only && !entry.is_file {
            return false;
        }
        if self.no_symlinks && entry.is_symlink {
            return false;
        }
        true
    }
}

/// Whether an entry passes a modification-time filter: it has a time, at
/// or after the cutoff when `newer`, at or before it otherwise.
pub open spec fn modified_accepts(cutoff: i128, newer: bool, entry: FileEntry) -> bool {
    match entry.modified {
        Some(t) => if newer {
            t >= cutoff
        } else {
            t <= cutoff
        },
        None => false,
    }
}

/// Entries modified at or after (`newer`) or at or before a cutoff, in
/// nanoseconds since the Unix epoch.
pub struct ModifiedFilter {
    cutoff: i128,
    newer: bool,
}

impl ModifiedFilter {
    /// A filter against `cutoff` in the direction `newer`.
    pub fn new(cutoff: i128, newer: bool) -> (r: Self)
        ensures
            r.cutoff() == cutoff,
            r.newer() == newer,
    {
        ModifiedFilter { cutoff, newer }
    }

    /// The cutoff time.
    pub closed spec fn cutoff(&self) -> i128 {
        self.cutoff
    }

    /// Whether newer entries pass (else older ones).
    pub closed spec fn newer(&self) -> bool {
        self.newer
    }
}

impl FileFilter for ModifiedFilter {
    open spec fn accepts(&self, entry: FileEntry) -> bool {
        modified_accepts(self.cutoff(), self.newer(), entry)
    }

    fn matches(&self, entry: &FileEntry) -> (r: bool) {
        match entry.modified {
            Some(t) => if self.newer {
                t >= self.cutoff
            } else {
                t <= self.cutoff
            },
            None => false,
        }
    }
}

/// Whether a name is hidden: it starts with a dot.
pub open spec fn is_hidden_name(name: Seq<char>) -> bool {
    name.len() > 0 && name[0] == '.'
}

/// Whether `name` starts with a dot.
pub fn starts_with_dot(name: &str) -> (r: bool)
    ensures
        r == is_hidden_name(name@),
{
    let v = chars_of(name);
    v.len() > 0 && v[0] == '.'
}

/// Entries whose name does not start with a dot.
pub struct HiddenFilter;

impl FileFilter for HiddenFilter {
    open spec fn accepts(&self, entry: FileEntry) -> bool {
        !is_hidden_name(entry.name@)
    }

    fn matches(&self, entry: &FileEntry) -> (r: bool) {
        !starts_with_dot(entry.name.as_str())
    }
}

/// One filter of a composite.
pub enum Filter {
    Glob(GlobFilter),
    Extension(ExtensionFilter),
    Size(SizeFilter),
    Type(TypeFilter),
    Modified(ModifiedFilter),
    Hidden(HiddenFilter),
}

impl FileFilter for Filter {
    open spec fn accepts(&self, entry: FileEntry) -> bool {
        match self {
            Filter::Glob(f) => f.accepts(entry),
            Filter::Extension(f) => f.accepts(entry),
            Filter::Size(f) => f.accepts(entry),
            Filter::Type(f) => f.accepts(entry),
            Filter::Modified(f) => f.accepts(entry),
            Filter::Hidden(f) => f.accepts(entry),
        }
    }

    fn matches(&self, entry: &FileEntry) -> (r: bool) {
        match self {
            Filter::Glob(f) => f.matches(entry),
            Filter::Extension(f) => f.matches(entry),
            Filter::Size(f) => f.matches(entry),
            Filter::Type(f) => f.matches(entry),
            Filter::Modified(f) => f.matches(entry),
            Filter::Hidden(f) => f.matches(entry),
        }
    }
}

/// Entries that pass every one of a list of filters.
pub struct CompositeFilter {
    filters: Vec<Filter>,
}

impl CompositeFilter {
    /// A composite with no filters: it passes everything.
    pub fn new() -> (r: Self)
        ensures
            r.parts() == Seq::<Filter>::empty(),
    {
        CompositeFilter { filters: Vec::new() }
    }

    /// Adds a filter that entries must also pass.
    pub fn add(&mut self, filter: Filter)
        ensures
            final(self).parts() == old(self).parts().push(filter),
    {
        self.filters.push(filter);
    }

    /// The filters, in the order they were added.
    pub closed spec fn parts(&self) -> Seq<Filter> {
        self.filters@
    }
}

/// Whether an entry passes all the filters.
pub open spec fn all_accept(filters: Seq<Filter>, entry: FileEntry) -> bool {
    forall|i: int| 0 <= i < filters.len() ==> #[trigger] filters[i].accepts(entry)
}

/// Adding a filter to a list narrows what all of them accept to what the
/// list accepted and the new filter accepts.
pub proof fn lemma_all_accept_push(filters: Seq<Filter>, f: Filter, entry: FileEntry)
    ensures
        all_accept(filters.push(f), entry) == (all_accept(filters, entry) && f.accepts(entry)),
{
    let g = filters.push(f);
    if all_accept(filters, entry) && f.accepts(entry) {
        assert forall|i: int| 0 <= i < g.len() implies #[trigger] g[i].accepts(entry) by {
            if i < filters.len() {
                assert(g[i] == filters[i]);
            }
        }
    }
    if all_accept(g, entry) {
        assert(g[filters.len() as int] == f);
        assert forall|i: int| 0 <= i < filters.len() implies #[trigger] filters[i].accepts(entry) by {
            assert(g[i] == filters[i]);
        }
    }
}

impl FileFilter for CompositeFilter {
    open spec fn accepts(&self, entry: FileEntry) -> bool {
        all_accept(self.parts(), entry)
    }

    fn matches(&self, entry: &FileEntry) -> (r: bool) {
        let mut i: usize = 0;
        while i < self.filters.len()
            invariant
                i <= self.filters.len(),
                forall|k: int| 0 <= k < i ==> #[trigger] self.filters@[k].accepts(*entry),
            decreases self.filters.len() - i,
        {
            if !self.filters[i].matches(entry) {
                return false;
            }
            i = i + 1;
        }
        true
    }
}

/// The seconds in one unit of a duration text, written in lowercase:
/// `s`, `sec`, `second`, `seconds`; `m`, `min`, `minute`, `minutes`; `h`,
/// `hour`, `hours`; `d`, `day`, `days`; `w`, `week`, `weeks`.
pub open spec fn duration_unit_seconds(u: Seq<char>) -> Option<int> {
    if u == seq!['s'] || u == seq!['s', 'e', 'c'] || u == seq!['s', 'e', 'c', 'o', 'n', 'd'] || u
        == seq!['s', 'e', 'c', 'o', 'n', 'd', 's'] {
        Some(1)
    } else if u == seq!['m'] || u == seq!['m', 'i', 'n'] || u == seq!['m', 'i', 'n', 'u', 't', 'e']
        || u == seq!['m', 'i', 'n', 'u', 't', 'e', 's'] {
        Some(60)
    } else if u == seq!['h'] || u == seq!['h', 'o', 'u', 'r'] || u == seq!['h', 'o', 'u', 'r', 's'] {
        Some(3600)
    } else if u == seq!['d'] || u == seq!['d', 'a', 'y'] || u == seq!['d', 'a', 'y', 's'] {
        Some(86400)
    } else if u == seq!['w'] || u == seq!['w', 'e', 'e', 'k'] || u == seq!['w', 'e', 'e', 'k', 's'] {
        Some(604800)
    } else {
        None
    }
}

/// The largest duration, in seconds, that `chrono::TimeDelta` holds
/// (`i64::MAX` milliseconds, whole seconds).
pub open spec fn max_duration_seconds() -> int {
    9223372036854775
}

/// The number of seconds that a duration text such as `"2h"` or `" 3 Days"`
/// denotes: leading decimal digits (at most `i64::MAX`), then a unit,
/// trimmed and taken case-insensitively. No digits, or no known unit: none.
pub open spec fn spec_parse_duration(s: Seq<char>) -> Option<int> {
    let t = trim(s);
    let d = digit_prefix(t);
    if d.len() == 0 || digits_value(d) > i64::MAX {
        None
    } else {
        match duration_unit_seconds(lowercase(trim(digit_rest(t)))) {
            Some(k) => Some(digits_value(d) * k),
            None => None,
        }
    }
}

/// A duration text denotes no negative count of seconds.
pub proof fn lemma_duration_nonnegative(s: Seq<char>)
    ensures
        spec_parse_duration(s) matches Some(d) ==> d >= 0,
{
}

/// Whether the duration a text denotes, if any, fits in a
/// `chrono::TimeDelta` (building one beyond its range panics).
pub open spec fn duration_fits(s: Seq<char>) -> bool {
    spec_parse_duration(s) matches Some(x) ==> x <= max_duration_seconds()
}

fn unit_seconds_of(u: &Vec<char>) -> (r: Option<i64>)
    ensures
        r matches Some(k) ==> duration_unit_seconds(u@) == Some(k as int),
        r is None ==> duration_unit_seconds(u@) is None,
{
    let n = u.len();
    if n == 0 {
        return None;
    }
    let c = u[0];
    let ghost v = u@;
    if n == 1 {
        assert(v =~= seq![c]);
        return if c == 's' {
            Some(1)
        } else if c == 'm' {
            Some(60)
        } else if c == 'h' {
            Some(3600)
        } else if c == 'd' {
            Some(86400)
        } else if c == 'w' {
            Some(604800)
        } else {
            None
        };
    }
    if n == 3 {
        assert(v =~= seq![c, v[1], v[2]]);
        if c == 's' && u[1] == 'e' && u[2] == 'c' {
            return Some(1);
        }
        if c == 'm' && u[1] == 'i' && u[2] == 'n' {
            return Some(60);
        }
        if c == 'd' && u[1] == 'a' && u[2] == 'y' {
            return Some(86400);
        }
        return None;
    }
    if n == 4 {
        assert(v =~= seq![c, v[1], v[2], v[3]]);
        if c == 'h' && u[1] == 'o' && u[2] == 'u' && u[3] == 'r' {
            return Some(3600);
        }
        if c == 'd' && u[1] == 'a' && u[2] == 'y' && u[3] == 's' {
            return Some(86400);
        }
        if c == 'w' && u[1] == 'e' && u[2] == 'e' && u[3] == 'k' {
            return Some(604800);
        }
        return None;
    }
    if n == 5 {
        assert(v =~= seq![c, v[1], v[2], v[3], v[4]]);
        if c == 'h' && u[1] == 'o' && u[2] == 'u' && u[3] == 'r' && u[4] == 's' {
            return Some(3600);
        }
        if c == 'w' && u[1] == 'e' && u[2] == 'e' && u[3] == 'k' && u[4] == 's' {
            return Some(604800);
        }
        return None;
    }
    if n == 6 {
        assert(v =~= seq![c, v[1], v[2], v[3], v[4], v[5]]);
        if c == 's' && u[1] == 'e' && u[2] == 'c' && u[3] == 'o' && u[4] == 'n' && u[5] == 'd' {
            return Some(1);
        }
        if c == 'm' && u[1] == 'i' && u[2] == 'n' && u[3] == 'u' && u[4] == 't' && u[5] == 'e' {
            return Some(60);
        }
        return None;
    }
    if n == 7 {
        assert(v =~= seq![c, v[1], v[2], v[3], v[4], v[5], v[6]]);
        if c == 's' && u[1] == 'e' && u[2] == 'c' && u[3] == 'o' && u[4] == 'n' && u[5] == 'd'
            && u[6] == 's' {
            return Some(1);
        }
        if c == 'm' && u[1] == 'i' && u[2] == 'n' && u[3] == 'u' && u[4] == 't' && u[5] == 'e'
            && u[6] == 's' {
            return Some(60);
        }
        return None;
    }
    None
}

/// The outcome of reading a duration text.
pub enum DurationReading {
    /// The text denotes no duration.
    Invalid,
    /// The text denotes more seconds than a `TimeDelta` holds.
    OutOfRange,
    /// The text denotes this many seconds.
    Seconds(i64),
}

/// Reads a duration text, telling apart texts that denote no duration from
/// those that denote one too long to build.
pub fn read_duration(s: &str) -> (r: DurationReading)
    ensures
        match r {
            DurationReading::Invalid => spec_parse_duration(s@) is None,
            DurationReading::OutOfRange => !duration_fits(s@),
            DurationReading::Seconds(x) => spec_parse_duration(s@) == Some(x as int) && x
                <= max_duration_seconds(),
        },
{
    let t = trim_str(s);
    let tv = chars_of(t.as_str());
    let k = leading_digits(&tv);
    if k == 0 {
        return DurationReading::Invalid;
    }
    proof {
        crate::numbers::lemma_digits_len_bound(tv@);
    }
    let value = digits_value_up_to(&tv, 0, k, 0x7fff_ffff_ffff_ffff);
    assert(tv@.subrange(0, k as int) =~= digit_prefix(tv@));
    let v = match value {
        None => {
            return DurationReading::Invalid;
        },
        Some(v) => v,
    };
    let rest = sub_chars(&tv, k, tv.len());
    assert(rest@ =~= digit_rest(tv@));
    let rest_str = string_from_chars(&rest);
    let rest_trimmed = trim_str(rest_str.as_str());
    let unit = to_lowercase(rest_trimmed.as_str());
    let unit_chars = chars_of(unit.as_str());
    match unit_seconds_of(&unit_chars) {
        None => DurationReading::Invalid,
        Some(per) => {
            if v > 9223372036854775 / (per as u64) {
                assert(v * per > 9223372036854775) by (nonlinear_arith)
                    requires
                        v > 9223372036854775int / (per as int),
                        per > 0,
                ;
                DurationReading::OutOfRange
            } else {
                assert(v * per <= 9223372036854775) by (nonlinear_arith)
                    requires
                        v <= 9223372036854775int / (per as int),
                        per > 0,
                ;
                DurationReading::Seconds(v as i64 * per)
            }
        },
    }
}

/// Whether a duration text denotes a duration that can be built.
pub fn duration_in_range(s: &str) -> (r: bool)
    ensures
        r == duration_fits(s@),
{
    match read_duration(s) {
        DurationReading::OutOfRange => false,
        DurationReading::Invalid => true,
        DurationReading::Seconds(_) => true,
    }
}

/// Parses a duration such as `"30s"`, `"5 min"`, `"2h"`, `"1d"` or `"3weeks"`
/// into seconds.
///
/// Surrounding white space is ignored; the leading decimal digits give the
/// count and the rest, trimmed and case-insensitive, the unit. Texts that
/// denote a duration beyond what `TimeDelta` holds are outside its domain
/// (building such a duration panics).
pub fn parse_duration(s: &str) -> (r: Option<i64>)
    requires
        duration_fits(s@),
    ensures
        match r {
            Some(x) => spec_parse_duration(s@) == Some(x as int),
            None => spec_parse_duration(s@) is None,
        },
{
    match read_duration(s) {
        DurationReading::Seconds(x) => Some(x),
        DurationReading::Invalid => None,
        DurationReading::OutOfRange => None,
    }
}

/// Whether every character of `u` is a lowercase ASCII letter, and there
/// is one.
pub open spec fn lowercase_word(u: Seq<char>) -> bool {
    u.len() > 0 && forall|i: int| 0 <= i < u.len() ==> 97 <= (#[trigger] u[i] as u32) <= 122
}

proof fn lemma_trim_blanks(gap: Seq<char>, unit: Seq<char>)
    requires
        forall|i: int| 0 <= i < gap.len() ==> #[trigger] gap[i] == ' ',
        lowercase_word(unit),
    ensures
        trim(gap + unit) == unit,
    decreases gap.len(),
{
    if gap.len() > 0 {
        assert((gap + unit).drop_first() =~= gap.drop_first() + unit);
        lemma_trim_blanks(gap.drop_first(), unit);
        assert((gap + unit)[0] == ' ');
    } else {
        assert(gap + unit =~= unit);
        assert(!white_space(unit[0]));
        assert(trim_start(unit) == unit);
        assert(!white_space(unit.last()));
        assert(trim_end(unit) == unit);
    }
}

proof fn lemma_duration_reading(n: nat, gap: Seq<char>, unit: Seq<char>)
    requires
        n <= i64::MAX,
        forall|i: int| 0 <= i < gap.len() ==> #[trigger] gap[i] == ' ',
        lowercase_word(unit),
    ensures
        spec_parse_duration(decimal(n) + gap + unit) == match duration_unit_seconds(unit) {
            Some(k) => Some(n * k),
            None => None,
        },
{
    let d = decimal(n);
    let rest = gap + unit;
    let text = d + gap + unit;
    assert(text =~= d + rest);
    lemma_decimal_digits(n);
    lemma_decimal_value(n);
    assert(is_digit(d[0]));
    assert(text[0] == d[0]);
    assert(trim_start(text) == text);
    assert(text.last() == unit.last());
    assert(97 <= (unit[unit.len() - 1] as u32) <= 122);
    assert(trim_end(text) == text);
    assert(!is_digit(rest[0])) by {
        if gap.len() > 0 {
            assert(rest[0] == ' ');
        } else {
            assert(rest[0] == unit[0]);
        }
    }
    lemma_digits_len_of_run(d, rest);
    lemma_trim_blanks(gap, unit);
    assert(lowercase(unit) =~= unit) by {
        assert(crate::text::is_ascii_text(unit));
        assert forall|i: int| 0 <= i < unit.len() implies ascii_lower(#[trigger] unit[i]) == unit[i] by {}
    }
}


proof fn lemma_unit_table(u: Seq<char>)
    ensures
        (u == seq!['s'] || u == seq!['s', 'e', 'c'] || u == seq!['s', 'e', 'c', 'o', 'n', 'd'] || u
            == seq!['s', 'e', 'c', 'o', 'n', 'd', 's']) ==> duration_unit_seconds(u) == Some(1int),
        (u == seq!['m'] || u == seq!['m', 'i', 'n'] || u == seq!['m', 'i', 'n', 'u', 't', 'e'] || u
            == seq!['m', 'i', 'n', 'u', 't', 'e', 's']) ==> duration_unit_seconds(u) == Some(60int),
        (u == seq!['h'] || u == seq!['h', 'o', 'u', 'r'] || u == seq!['h', 'o', 'u', 'r', 's'])
            ==> duration_unit_seconds(u) == Some(3600int),
        (u == seq!['d'] || u == seq!['d', 'a', 'y'] || u == seq!['d', 'a', 'y', 's'])
            ==> duration_unit_seconds(u) == Some(86400int),
        (u == seq!['w'] || u == seq!['w', 'e', 'e', 'k'] || u == seq!['w', 'e', 'e', 'k', 's'])
            ==> duration_unit_seconds(u) == Some(604800int),
{
    if u.len() > 0 {
        let c = u[0];
        if c != 's' {
            assert(u != seq!['s'] && u != seq!['s', 'e', 'c'] && u != seq!['s', 'e', 'c', 'o', 'n', 'd'] && u
                != seq!['s', 'e', 'c', 'o', 'n', 'd', 's']) by {
                assert(seq!['s'][0] == 's' && seq!['s', 'e', 'c'][0] == 's');
                assert(seq!['s', 'e', 'c', 'o', 'n', 'd'][0] == 's' && seq!['s', 'e', 'c', 'o', 'n', 'd', 's'][0] == 's');
            }
        }
        if c != 'm' {
            assert(u != seq!['m'] && u != seq!['m', 'i', 'n'] && u != seq!['m', 'i', 'n', 'u', 't', 'e'] && u
                != seq!['m', 'i', 'n', 'u', 't', 'e', 's']) by {
                assert(seq!['m'][0] == 'm' && seq!['m', 'i', 'n'][0] == 'm');
                assert(seq!['m', 'i', 'n', 'u', 't', 'e'][0] == 'm' && seq!['m', 'i', 'n', 'u', 't', 'e', 's'][0] == 'm');
            }
        }
        if c != 'h' {
            assert(u != seq!['h'] && u != seq!['h', 'o', 'u', 'r'] && u != seq!['h', 'o', 'u', 'r', 's']) by {
                assert(seq!['h'][0] == 'h' && seq!['h', 'o', 'u', 'r'][0] == 'h' && seq!['h', 'o', 'u', 'r', 's'][0] == 'h');
            }
        }
        if c != 'd' {
            assert(u != seq!['d'] && u != seq!['d', 'a', 'y'] && u != seq!['d', 'a', 'y', 's']) by {
                assert(seq!['d'][0] == 'd' && seq!['d', 'a', 'y'][0] == 'd' && seq!['d', 'a', 'y', 's'][0] == 'd');
            }
        }
    }
}

/// A count, any number of blanks and a unit word in lowercase read as the
/// count times the unit's length: a second for `s`, `sec`, `second`,
/// `seconds`; 60 seconds for `m`, `min`, `minute`, `minutes`; 3600 for
/// `h`, `hour`, `hours`; 86400 for `d`, `day`, `days`; 604800 for `w`,
/// `week`, `weeks`; any other word reads as no duration.
pub proof fn lemma_duration_units(n: nat, gap: Seq<char>, unit: Seq<char>)
    requires
        n <= i64::MAX,
        forall|i: int| 0 <= i < gap.len() ==> #[trigger] gap[i] == ' ',
        lowercase_word(unit),
    ensures
        ({
            let text = decimal(n) + gap + unit;
            &&& (unit == seq!['s'] || unit == seq!['s', 'e', 'c'] || unit == seq!['s', 'e', 'c', 'o', 'n', 'd']
                || unit == seq!['s', 'e', 'c', 'o', 'n', 'd', 's']) ==> spec_parse_duration(text) == Some(
                n as int,
            )
            &&& (unit == seq!['m'] || unit == seq!['m', 'i', 'n'] || unit == seq!['m', 'i', 'n', 'u', 't', 'e']
                || unit == seq!['m', 'i', 'n', 'u', 't', 'e', 's']) ==> spec_parse_duration(text) == Some(
                (n * 60) as int,
            )
            &&& (unit == seq!['h'] || unit == seq!['h', 'o', 'u', 'r'] || unit == seq!['h', 'o', 'u', 'r', 's'])
                ==> spec_parse_duration(text) == Some((n * 3600) as int)
            &&& (unit == seq!['d'] || unit == seq!['d', 'a', 'y'] || unit == seq!['d', 'a', 'y', 's'])
                ==> spec_parse_duration(text) == Some((n * 86400) as int)
            &&& (unit == seq!['w'] || unit == seq!['w', 'e', 'e', 'k'] || unit == seq!['w', 'e', 'e', 'k', 's'])
                ==> spec_parse_duration(text) == Some((n * 604800) as int)
            &&& spec_parse_duration(text) is Some ==> (unit == seq!['s'] || unit == seq!['s', 'e', 'c']
                || unit == seq!['s', 'e', 'c', 'o', 'n', 'd'] || unit == seq!['s', 'e', 'c', 'o', 'n', 'd', 's']
                || unit == seq!['m'] || unit == seq!['m', 'i', 'n'] || unit == seq!['m', 'i', 'n', 'u', 't', 'e']
                || unit == seq!['m', 'i', 'n', 'u', 't', 'e', 's'] || unit == seq!['h'] || unit == seq!['h', 'o', 'u', 'r']
                || unit == seq!['h', 'o', 'u', 'r', 's'] || unit == seq!['d'] || unit == seq!['d', 'a', 'y']
                || unit == seq!['d', 'a', 'y', 's'] || unit == seq!['w'] || unit == seq!['w', 'e', 'e', 'k']
                || unit == seq!['w', 'e', 'e', 'k', 's'])
        }),
{
    lemma_duration_reading(n, gap, unit);
    lemma_unit_table(unit);
}

/// What each kind of filter passes, said of the entry's own fields: a size
/// filter passes directories and any other entry whose size is at least
/// the lower bound and at most the upper bound, where given; a kind filter
/// passes what is a directory when asked for directories only, a file when
/// asked for files only, and no symbolic link when those are left out; a
/// time filter passes entries with a time at or after the cutoff (newer)
/// or at or before it, never one without a time; the hidden-name filter
/// passes names that do not start with a dot; an extension filter passes
/// directories and entries whose lowercased extension is listed.
pub proof fn lemma_filter_rules(
    size: SizeFilter,
    kind: TypeFilter,
    time: ModifiedFilter,
    hidden: HiddenFilter,
    ext: ExtensionFilter,
    e: FileEntry,
)
    ensures
        size.accepts(e) <==> (e.is_dir || ((size.min() is None || e.size >= size.min()->0) && (size.max() is None
            || e.size <= size.max()->0))),
        kind.accepts(e) <==> ((!kind.dirs_only || e.is_dir) && (!kind.files_only || e.is_file) && (
        !kind.no_symlinks || !e.is_symlink)),
        time.accepts(e) <==> (e.modified is Some && (time.newer() ==> e.modified->0 >= time.cutoff()) && (
        !time.newer() ==> e.modified->0 <= time.cutoff())),
        hidden.accepts(e) <==> (e.name@.len() == 0 || e.name@[0] != '.'),
        ext.accepts(e) <==> (e.is_dir || (name_extension(e.name@) is Some && exists|i: int|
            0 <= i < ext.lowercased().len() && ext.lowercased()[i] == lowercase(
                name_extension(e.name@)->0,
            ))),
{
    if !e.is_dir && name_extension(e.name@) is Some {
        let x = lowercase(name_extension(e.name@)->0);
        if ext.lowercased().contains(x) {
            let i = choose|i: int| 0 <= i < ext.lowercased().len() && ext.lowercased()[i] == x;
        }
    }
}

} // verus!
