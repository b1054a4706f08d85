use vstd::prelude::*;
use colored::Colorize;
use vstd::string::StringSliceAdditionalSpecFns;
use crate::text::{compare_str, owned_text, lemma_lex_order_equal, lowercase, push_char, to_lowercase, Order};
use crate::entry::{group_text, name_extension, owner_text, permissions_text, FileEntry};
use crate::user_cache::UserCache;
use crate::numbers::{decimal, div_round_even, f64_round, push_decimal, round_to_f64, two_pow};

verus! {

/// The layout in which a listing is printed.
#[derive(PartialEq, Eq, Structural, Clone, Copy, Debug)]
pub enum OutputFormat {
    Grid,
    Long,
    Tree,
    Json,
}

/// `size / 2^e` with one decimal: the binary64 value of `size`, scaled, as
/// tenths rounded to nearest, ties to even (what `{:.1}` prints).
pub open spec fn scaled_tenths(size: nat, e: nat) -> nat {
    div_round_even(f64_round(size) * 10, two_pow(e))
}

/// A number of tenths written with one decimal, then the unit letter.
pub open spec fn tenths_text(t: nat, unit: char) -> Seq<char> {
    decimal(t / 10) + seq!['.'] + decimal(t % 10) + seq![unit]
}

/// The text of a size: plain bytes, or with a binary unit (`K`, `M`, `G`,
/// `T`, one decimal) when human-readable, the largest unit that the size
/// reaches; sizes below 1024 are bytes with a `B`.
pub open spec fn spec_format_size(size: u64, human_readable: bool) -> Seq<char> {
    if !human_readable {
        decimal(size as nat)
    } else if size >= 0x100_0000_0000 {
        tenths_text(scaled_tenths(size as nat, 40), 'T')
    } else if size >= 0x4000_0000 {
        tenths_text(scaled_tenths(size as nat, 30), 'G')
    } else if size >= 0x10_0000 {
        tenths_text(scaled_tenths(size as nat, 20), 'M')
    } else if size >= 0x400 {
        tenths_text(scaled_tenths(size as nat, 10), 'K')
    } else {
        decimal(size as nat) + seq!['B']
    }
}

proof fn lemma_unit_powers()
    ensures
        two_pow(10) == 0x400,
        two_pow(20) == 0x10_0000,
        two_pow(30) == 0x4000_0000,
        two_pow(40) == 0x100_0000_0000,
{
    reveal_with_fuel(two_pow, 41);
}

fn push_scaled(out: &mut String, size: u64, e: Ghost<nat>, d: u128, unit: char)
    requires
        d == two_pow(e@),
        0x400 <= d <= 0x100_0000_0000,
    ensures
        final(out)@ == old(out)@ + tenths_text(scaled_tenths(size as nat, e@), unit),
        tenths_text(scaled_tenths(size as nat, e@), unit).len() <= 42,
{
    let r = round_to_f64(size);
    let n: u128 = r * 10;
    let q: u128 = n / d;
    let rem: u128 = n % d;
    let t: u128 = if 2 * rem > d || (2 * rem == d && q % 2 == 1) {
        q + 1
    } else {
        q
    };
    assert(t == scaled_tenths(size as nat, e@));
    assert(q <= n / 0x400) by (nonlinear_arith)
        requires
            q == n / d,
            d >= 0x400,
            n >= 0,
    ;
    assert(t < 0x1_0000_0000_0000_0000);
    let whole: u64 = (t / 10) as u64;
    let frac: u64 = (t % 10) as u64;
    proof {
        crate::numbers::lemma_decimal_len_u64(whole as nat);
        crate::numbers::lemma_decimal_len_u64(frac as nat);
    }
    push_decimal(out, whole);
    push_char(out, '.');
    push_decimal(out, frac);
    push_char(out, unit);
    assert(final(out)@ =~= old(out)@ + tenths_text(t as nat, unit));
}

/// The text of a file size: the byte count, or when `human_readable` the
/// size in the largest binary unit it reaches with one decimal (`1.5K`,
/// `2.0G`), or `512B` below one kibibyte.
pub fn format_size(size: u64, human_readable: bool) -> (r: String)
    ensures
        r@ == spec_format_size(size, human_readable),
        r@.len() <= 64,
{
    let mut out = String::new();
    proof {
        lemma_unit_powers();
    }
    proof {
        crate::numbers::lemma_decimal_len_u64(size as nat);
    }
    if !human_readable {
        push_decimal(&mut out, size);
    } else if size >= 0x100_0000_0000 {
        push_scaled(&mut out, size, Ghost(40), 0x100_0000_0000, 'T');
    } else if size >= 0x4000_0000 {
        push_scaled(&mut out, size, Ghost(30), 0x4000_0000, 'G');
    } else if size >= 0x10_0000 {
        push_scaled(&mut out, size, Ghost(20), 0x10_0000, 'M');
    } else if size >= 0x400 {
        push_scaled(&mut out, size, Ghost(10), 0x400, 'K');
    } else {
        push_decimal(&mut out, size);
        push_char(&mut out, 'B');
    }
    assert(out@ =~= spec_format_size(size, human_readable));
    out
}

/// How `colored` paints a name.
#[derive(PartialEq, Eq, Structural, Clone, Copy, Debug)]
pub enum NameStyle {
    Plain,
    Directory,
    Symlink,
    Executable,
    Source,
    Archive,
    Media,
}

/// The SGR parameters that `colored` writes for a style: bold blue for
/// directories, cyan for links, bold green for executables, yellow for
/// sources, red for archives, magenta for media.
pub open spec fn style_code(s: NameStyle) -> Seq<char> {
    match s {
        NameStyle::Plain => Seq::empty(),
        NameStyle::Directory => "1;34"@,
        NameStyle::Symlink => "36"@,
        NameStyle::Executable => "1;32"@,
        NameStyle::Source => "33"@,
        NameStyle::Archive => "31"@,
        NameStyle::Media => "35"@,
    }
}

/// Extensions of source and text files.
pub open spec fn source_extensions() -> Seq<Seq<char>> {
    seq![
        "rs"@,
        "go"@,
        "py"@,
        "c"@,
        "cpp"@,
        "h"@,
        "hpp"@,
        "sh"@,
        "js"@,
        "ts"@,
        "toml"@,
        "json"@,
        "yaml"@,
        "yml"@,
        "md"@,
    ]
}

/// Extensions of archives.
pub open spec fn archive_extensions() -> Seq<Seq<char>> {
    seq!["zip"@, "tar"@, "gz"@, "bz2"@, "xz"@, "rar"@, "7z"@]
}

/// Extensions of images, video and audio.
pub open spec fn media_extensions() -> Seq<Seq<char>> {
    seq![
        "png"@,
        "jpg"@,
        "jpeg"@,
        "gif"@,
        "bmp"@,
        "webp"@,
        "svg"@,
        "mp4"@,
        "mkv"@,
        "avi"@,
        "mov"@,
        "mp3"@,
        "flac"@,
        "wav"@,
    ]
}

/// The style of an entry's name: directories, then links, then regular
/// files that are executable (any execute bit), then by the lowercased
/// extension; everything else plain.
pub open spec fn name_style(e: FileEntry) -> NameStyle {
    if e.is_dir {
        NameStyle::Directory
    } else if e.is_symlink {
        NameStyle::Symlink
    } else if e.is_file {
        if e.mode matches Some(m) && m & 0o111 != 0 {
            NameStyle::Executable
        } else {
            match name_extension(e.name@) {
                Some(x) => if source_extensions().contains(lowercase(x)) {
                    NameStyle::Source
                } else if archive_extensions().contains(lowercase(x)) {
                    NameStyle::Archive
                } else if media_extensions().contains(lowercase(x)) {
                    NameStyle::Media
                } else {
                    NameStyle::Plain
                },
                None => NameStyle::Plain,
            }
        }
    } else {
        NameStyle::Plain
    }
}

fn is_among(s: &str, list: &Vec<&str>) -> (r: bool)
    ensures
        r == list@.map_values(|x: &str| x@).contains(s@),
{
    let ghost views = list@.map_values(|x: &str| x@);
    let mut i: usize = 0;
    while i < list.len()
        invariant
            i <= list.len(),
            views == list@.map_values(|x: &str| x@),
            forall|k: int| 0 <= k < i ==> #[trigger] views[k] != s@,
        decreases list.len() - i,
    {
        let same = compare_str(list[i], s) == Order::Equal;
        proof {
            lemma_lex_order_equal(list@[i as int]@, s@);
        }
        if same {
            assert(views[i as int] == s@);
            return true;
        }
        i = i + 1;
    }
    false
}

/// The style of an entry's name.
pub fn style_of(e: &FileEntry) -> (r: NameStyle)
    ensures
        r == name_style(*e),
{
    if e.is_dir {
        return NameStyle::Directory;
    }
    if e.is_symlink {
        return NameStyle::Symlink;
    }
    if !e.is_file {
        return NameStyle::Plain;
    }
    if let Some(m) = e.mode {
        if m & 0o111 != 0 {
            return NameStyle::Executable;
        }
    }
    match e.extension() {
        None => NameStyle::Plain,
        Some(x) => {
            let lower = to_lowercase(x.as_str());
            let sources = vec!["rs", "go", "py", "c", "cpp", "h", "hpp", "sh", "js", "ts", "toml", "json", "yaml", "yml", "md"];
            assert(sources@.map_values(|x: &str| x@) =~= source_extensions());
            if is_among(lower.as_str(), &sources) {
                return NameStyle::Source;
            }
            let archives = vec!["zip", "tar", "gz", "bz2", "xz", "rar", "7z"];
            assert(archives@.map_values(|x: &str| x@) =~= archive_extensions());
            if is_among(lower.as_str(), &archives) {
                return NameStyle::Archive;
            }
            let media = vec!["png", "jpg", "jpeg", "gif", "bmp", "webp", "svg", "mp4", "mkv", "avi", "mov", "mp3", "flac", "wav"];
            assert(media@.map_values(|x: &str| x@) =~= media_extensions());
            if is_among(lower.as_str(), &media) {
                return NameStyle::Media;
            }
            NameStyle::Plain
        },
    }
}

/// The escape sequence that resets all styles.
pub open spec fn reset_seq() -> Seq<char> {
    seq!['\u{1b}', '[', '0', 'm']
}

/// The escape sequence that sets the SGR parameters `code`.
pub open spec fn style_seq(code: Seq<char>) -> Seq<char> {
    seq!['\u{1b}', '['] + code + seq!['m']
}

/// `text` with `style` written again after each reset sequence in it,
/// taken from left to right (two reset sequences cannot overlap).
pub open spec fn escape_resets(text: Seq<char>, style: Seq<char>) -> Seq<char>
    decreases text.len(),
{
    if text.len() == 0 {
        Seq::empty()
    } else if text.len() >= 4 && text.take(4) == reset_seq() {
        reset_seq() + style + escape_resets(text.skip(4), style)
    } else {
        seq![text[0]] + escape_resets(text.skip(1), style)
    }
}

/// What `colored` prints for `text` painted with the SGR parameters `code`
/// when it colors: the style's escape sequence, the text with the style
/// set again after each reset sequence inside it, and a reset.
pub open spec fn colored_text(code: Seq<char>, text: Seq<char>) -> Seq<char> {
    style_seq(code) + escape_resets(text, style_seq(code)) + reset_seq()
}

/// `text` between the escape sequence that sets `code` and the one that
/// resets.
pub open spec fn ansi_wrapped(code: Seq<char>, text: Seq<char>) -> Seq<char> {
    style_seq(code) + text + reset_seq()
}

/// Whether a reset sequence starts at position `i` of `text`.
pub open spec fn reset_at(text: Seq<char>, i: int) -> bool {
    0 <= i && i + 4 <= text.len() && text.subrange(i, i + 4) == reset_seq()
}

/// Whether `text` holds a reset sequence.
pub open spec fn holds_reset(text: Seq<char>) -> bool {
    exists|i: int| #[trigger] reset_at(text, i)
}

/// `out` is what `colored` may print for `text` in the style `code`: the
/// text itself where coloring is off (by the environment, the terminal or
/// an override), else the colored text.
pub open spec fn is_painting(code: Seq<char>, text: Seq<char>, out: Seq<char>) -> bool {
    out == text || out == colored_text(code, text)
}

/// A text without a reset sequence is left as it is by escaping.
pub proof fn lemma_escape_without_reset(text: Seq<char>, style: Seq<char>)
    requires
        !holds_reset(text),
    ensures
        escape_resets(text, style) == text,
    decreases text.len(),
{
    if text.len() > 0 {
        if text.len() >= 4 && text.take(4) == reset_seq() {
            assert(text.subrange(0, 4) =~= text.take(4));
            assert(reset_at(text, 0));
        }
        assert(!holds_reset(text.skip(1))) by {
            if holds_reset(text.skip(1)) {
                let i = choose|i: int| #[trigger] reset_at(text.skip(1), i);
                assert(text.subrange(i + 1, i + 5) =~= text.skip(1).subrange(i, i + 4));
                assert(reset_at(text, i + 1));
            }
        }
        lemma_escape_without_reset(text.skip(1), style);
        assert(text =~= seq![text[0]] + text.skip(1));
    }
}

/// A painted text without a reset sequence is plainly wrapped.
pub proof fn lemma_colored_plain(code: Seq<char>, text: Seq<char>)
    requires
        !holds_reset(text),
    ensures
        colored_text(code, text) == ansi_wrapped(code, text),
{
    lemma_escape_without_reset(text, style_seq(code));
}

proof fn lemma_escape_one_line(text: Seq<char>, style: Seq<char>)
    requires
        !text.contains('\n'),
        !style.contains('\n'),
    ensures
        !escape_resets(text, style).contains('\n'),
    decreases text.len(),
{
    if text.len() > 0 {
        let rest = if text.len() >= 4 && text.take(4) == reset_seq() {
            text.skip(4)
        } else {
            text.skip(1)
        };
        assert(!rest.contains('\n')) by {
            if rest.contains('\n') {
                let k = choose|k: int| 0 <= k < rest.len() && rest[k] == '\n';
                assert(text[k + text.len() - rest.len()] == '\n');
            }
        }
        lemma_escape_one_line(rest, style);
        let e = escape_resets(text, style);
        if e.contains('\n') {
            let k = choose|k: int| 0 <= k < e.len() && e[k] == '\n';
            let tail = escape_resets(rest, style);
            if text.len() >= 4 && text.take(4) == reset_seq() {
                let head = reset_seq() + style;
                assert(e == head + tail);
                if k < head.len() {
                    if k >= 4 {
                        assert(style[k - 4] == '\n');
                    }
                } else {
                    assert(tail[k - head.len()] == '\n');
                }
            } else {
                assert(e == seq![text[0]] + tail);
                if k == 0 {
                    assert(text[0] == '\n');
                } else {
                    assert(tail[k - 1] == '\n');
                }
            }
        }
    }
}

/// Painting puts no line break into a text that had none.
pub proof fn lemma_painting_one_line(code: Seq<char>, text: Seq<char>, out: Seq<char>)
    requires
        is_painting(code, text, out),
        !text.contains('\n'),
        !code.contains('\n'),
    ensures
        !out.contains('\n'),
{
    if out != text {
        let style = style_seq(code);
        assert(!style.contains('\n')) by {
            if style.contains('\n') {
                let k = choose|k: int| 0 <= k < style.len() && style[k] == '\n';
                assert(code[k - 2] == '\n');
            }
        }
        lemma_escape_one_line(text, style);
        let e = escape_resets(text, style);
        if out.contains('\n') {
            let k = choose|k: int| 0 <= k < out.len() && out[k] == '\n';
            assert(out == style + e + reset_seq());
            if k < style.len() {
                assert(style[k] == '\n');
            } else if k < style.len() + e.len() {
                assert(e[k - style.len()] == '\n');
            } else {
                assert(reset_seq()[k - style.len() - e.len()] == '\n');
            }
        }
    }
}

/// `out` is what may be printed for an entry's name.
pub open spec fn is_painted_name(e: FileEntry, out: Seq<char>) -> bool {
    if name_style(e) == NameStyle::Plain {
        out == e.name@
    } else {
        is_painting(style_code(name_style(e)), e.name@, out)
    }
}

/// `text.bold().blue().to_string()` with `colored`: the text, plain or
/// painted as `colored` decides from its environment.
#[verifier::external_body]
fn paint_bold_blue(text: &str) -> (r: String)
    ensures
        r@ == text@ || r@ == colored_text("1;34"@, text@),
{
    text.bold().blue().to_string()
}

/// `text.cyan().to_string()` with `colored`.
#[verifier::external_body]
pub(crate) fn paint_cyan(text: &str) -> (r: String)
    ensures
        r@ == text@ || r@ == colored_text("36"@, text@),
{
    text.cyan().to_string()
}

/// `text.bold().green().to_string()` with `colored`.
#[verifier::external_body]
fn paint_bold_green(text: &str) -> (r: String)
    ensures
        r@ == text@ || r@ == colored_text("1;32"@, text@),
{
    text.bold().green().to_string()
}

/// `text.yellow().to_string()` with `colored`.
#[verifier::external_body]
fn paint_yellow(text: &str) -> (r: String)
    ensures
        r@ == text@ || r@ == colored_text("33"@, text@),
{
    text.yellow().to_string()
}

/// `text.red().to_string()` with `colored`.
#[verifier::external_body]
fn paint_red(text: &str) -> (r: String)
    ensures
        r@ == text@ || r@ == colored_text("31"@, text@),
{
    text.red().to_string()
}

/// `text.magenta().to_string()` with `colored`.
#[verifier::external_body]
fn paint_magenta(text: &str) -> (r: String)
    ensures
        r@ == text@ || r@ == colored_text("35"@, text@),
{
    text.magenta().to_string()
}

/// The entry's name as the listing prints it: in its style's colors where
/// `colored` colors (see `is_painted_name`).
pub fn colorize_name(entry: &FileEntry) -> (r: String)
    ensures
        is_painted_name(*entry, r@),
{
    let name = entry.name.as_str();
    match style_of(entry) {
        NameStyle::Directory => paint_bold_blue(name),
        NameStyle::Symlink => paint_cyan(name),
        NameStyle::Executable => paint_bold_green(name),
        NameStyle::Source => paint_yellow(name),
        NameStyle::Archive => paint_red(name),
        NameStyle::Media => paint_magenta(name),
        NameStyle::Plain => entry.name.clone(),
    }
}

/// `n` spaces.
pub open spec fn spaces(n: nat) -> Seq<char> {
    Seq::new(n, |i: int| ' ')
}

/// The length in bytes of a text's UTF-8 encoding (`str::len`).
pub open spec fn utf8_len(s: Seq<char>) -> nat {
    vstd::utf8::encode_utf8(s).len()
}

/// The largest of some lengths, 0 for none.
pub open spec fn max_len(lens: Seq<nat>) -> nat
    decreases lens.len(),
{
    if lens.len() == 0 {
        0
    } else if max_len(lens.drop_last()) >= lens.last() {
        max_len(lens.drop_last())
    } else {
        lens.last()
    }
}

proof fn lemma_max_len(lens: Seq<nat>)
    ensures
        forall|i: int| 0 <= i < lens.len() ==> #[trigger] lens[i] <= max_len(lens),
        lens.len() > 0 ==> exists|i: int| 0 <= i < lens.len() && lens[i] == max_len(lens),
    decreases lens.len(),
{
    if lens.len() > 0 {
        lemma_max_len(lens.drop_last());
        assert forall|i: int| 0 <= i < lens.len() implies #[trigger] lens[i] <= max_len(lens) by {
            if i < lens.len() - 1 {
                assert(lens[i] == lens.drop_last()[i]);
            }
        }
        if max_len(lens.drop_last()) >= lens.last() && lens.len() > 1 {
            let k = choose|i: int| 0 <= i < lens.drop_last().len() && lens.drop_last()[i] == max_len(lens.drop_last());
            assert(lens[k] == max_len(lens));
        } else {
            assert(lens[lens.len() - 1] == max_len(lens));
        }
    }
}

/// The number of columns of a grid: as many columns of `col_width` as fit
/// in `width`, at least one.
pub open spec fn grid_columns(width: nat, col_width: nat) -> nat {
    if width / col_width >= 1 {
        width / col_width
    } else {
        1
    }
}

/// The cell of row `r` and column `c`: the name placed there (names fill
/// columns top to bottom), padded to the column width except in the last
/// column; empty past the last name.
pub open spec fn grid_cell(
    names: Seq<Seq<char>>,
    lens: Seq<nat>,
    col_width: nat,
    cols: nat,
    rows: nat,
    r: nat,
    c: nat,
) -> Seq<char> {
    let idx = c * rows + r;
    if idx < names.len() {
        names[idx as int] + if c + 1 < cols {
            spaces((col_width - lens[idx as int]) as nat)
        } else {
            Seq::empty()
        }
    } else {
        Seq::empty()
    }
}

/// The first `k` cells of row `r`.
pub open spec fn grid_row(
    names: Seq<Seq<char>>,
    lens: Seq<nat>,
    col_width: nat,
    cols: nat,
    rows: nat,
    r: nat,
    k: nat,
) -> Seq<char>
    decreases k,
{
    if k == 0 {
        Seq::empty()
    } else {
        grid_row(names, lens, col_width, cols, rows, r, (k - 1) as nat) + grid_cell(
            names,
            lens,
            col_width,
            cols,
            rows,
            r,
            (k - 1) as nat,
        )
    }
}

/// The first `k` rows, each ended by a newline.
pub open spec fn grid_rows(
    names: Seq<Seq<char>>,
    lens: Seq<nat>,
    col_width: nat,
    cols: nat,
    rows: nat,
    k: nat,
) -> Seq<char>
    decreases k,
{
    if k == 0 {
        Seq::empty()
    } else {
        grid_rows(names, lens, col_width, cols, rows, (k - 1) as nat) + grid_row(
            names,
            lens,
            col_width,
            cols,
            rows,
            (k - 1) as nat,
            cols,
        ) + seq!['\n']
    }
}

/// The grid of `names` (with their unpainted byte lengths `lens`) for a
/// terminal `width` columns wide: columns two wider than the longest name,
/// as many as fit (at least one), filled top to bottom; nothing for no
/// names.
pub open spec fn grid_text(names: Seq<Seq<char>>, lens: Seq<nat>, width: nat) -> Seq<char> {
    if names.len() == 0 {
        Seq::empty()
    } else {
        let col_width = max_len(lens) + 2;
        let cols = grid_columns(width, col_width);
        let rows = ((names.len() + cols - 1) / cols as int) as nat;
        grid_rows(names, lens, col_width, cols, rows, rows)
    }
}

fn push_spaces(out: &mut String, n: usize)
    ensures
        final(out)@ == old(out)@ + spaces(n as nat),
{
    let mut k: usize = 0;
    while k < n
        invariant
            k <= n,
            out@ == old(out)@ + spaces(k as nat),
        decreases n - k,
    {
        push_char(out, ' ');
        assert(old(out)@ + spaces((k + 1) as nat) =~= old(out)@ + spaces(k as nat) + seq![' ']);
        k = k + 1;
    }
}

fn push_str(out: &mut String, s: &str)
    ensures
        final(out)@ == old(out)@ + s@,
{
    let v = crate::text::chars_of(s);
    let mut k: usize = 0;
    while k < v.len()
        invariant
            k <= v.len(),
            out@ == old(out)@ + v@.take(k as int),
        decreases v.len() - k,
    {
        push_char(out, v[k]);
        assert(v@.take(k + 1) =~= v@.take(k as int).push(v@[k as int]));
        k = k + 1;
    }
    assert(v@.take(v.len() as int) =~= v@);
}

/// The views of some strings.
pub open spec fn views(v: Seq<String>) -> Seq<Seq<char>> {
    v.map_values(|x: String| x@)
}

/// The lengths as naturals.
pub open spec fn nat_lens(v: Seq<usize>) -> Seq<nat> {
    v.map_values(|x: usize| x as nat)
}

/// Lays out already painted names in a grid (see `grid_text`).
pub fn layout_grid(names: &Vec<String>, lens: &Vec<usize>, width: usize) -> (r: String)
    requires
        names.len() == lens.len(),
        names.len() <= isize::MAX,
        width <= u16::MAX,
        forall|i: int| 0 <= i < lens.len() ==> #[trigger] lens@[i] <= isize::MAX,
    ensures
        r@ == grid_text(views(names@), nat_lens(lens@), width as nat),
{
    let n = names.len();
    let ghost ns = views(names@);
    let ghost ls = nat_lens(lens@);
    if n == 0 {
        return String::new();
    }
    let mut longest: usize = 0;
    let mut i: usize = 0;
    assert(ls.take(0) =~= Seq::<nat>::empty());
    while i < n
        invariant
            i <= n,
            n == lens.len(),
            ls == nat_lens(lens@),
            longest == max_len(ls.take(i as int)),
            forall|k: int| 0 <= k < lens.len() ==> #[trigger] lens@[k] <= isize::MAX,
            longest <= isize::MAX,
        decreases n - i,
    {
        assert(ls.take(i + 1).drop_last() =~= ls.take(i as int));
        if lens[i] > longest {
            longest = lens[i];
        }
        i = i + 1;
    }
    assert(ls.take(n as int) =~= ls);
    proof {
        lemma_max_len(ls);
    }
    let col_width: usize = longest + 2;
    let per_row: usize = width / col_width;
    let cols: usize = if per_row >= 1 {
        per_row
    } else {
        1
    };
    let rows: usize = (n + cols - 1) / cols;
    assert(rows * cols <= n + cols - 1) by (nonlinear_arith)
        requires
            rows == (n + cols - 1) / (cols as int),
            cols >= 1,
    ;
    let ghost cw = col_width as nat;
    let mut out = String::new();
    let mut r: usize = 0;
    while r < rows
        invariant
            r <= rows,
            n == names.len(),
            n == lens.len(),
            ns == views(names@),
            ls == nat_lens(lens@),
            col_width == max_len(ls) + 2,
            cw == col_width as nat,
            forall|k: int| 0 <= k < n ==> #[trigger] ls[k] <= max_len(ls),
            cols >= 1,
            rows * cols <= n + cols - 1,
            n <= isize::MAX,
            cols <= u16::MAX,
            out@ == grid_rows(ns, ls, cw, cols as nat, rows as nat, r as nat),
        decreases rows - r,
    {
        let ghost before = out@;
        let mut c: usize = 0;
        while c < cols
            invariant
                c <= cols,
                r < rows,
                n == names.len(),
                n == lens.len(),
                ns == views(names@),
                ls == nat_lens(lens@),
                col_width == max_len(ls) + 2,
                cw == col_width as nat,
                forall|k: int| 0 <= k < n ==> #[trigger] ls[k] <= max_len(ls),
                rows * cols <= n + cols - 1,
                n <= isize::MAX,
                cols <= u16::MAX,
                out@ == before + grid_row(ns, ls, cw, cols as nat, rows as nat, r as nat, c as nat),
            decreases cols - c,
        {
            assert(c * rows + r < rows * cols) by (nonlinear_arith)
                requires
                    c < cols,
                    r < rows,
            ;
            let idx: usize = c * rows + r;
            let ghost at_start = out@;
            let ghost cell = grid_cell(ns, ls, cw, cols as nat, rows as nat, r as nat, c as nat);
            assert(idx as nat == (c as nat) * (rows as nat) + (r as nat));
            if idx < n {
                assert(ns[idx as int] == names@[idx as int]@);
                assert(ls[idx as int] == lens@[idx as int] as nat);
                push_str(&mut out, names[idx].as_str());
                let ghost after_name = out@;
                assert(after_name == at_start + ns[idx as int]);
                if c < cols - 1 {
                    assert(ls[idx as int] <= max_len(ls));
                    let pad: usize = col_width - lens[idx];
                    assert(pad as nat == (cw - ls[idx as int]) as nat);
                    push_spaces(&mut out, pad);
                    assert(out@ == after_name + spaces(pad as nat));
                    assert(cell == ns[idx as int] + spaces((cw - ls[idx as int]) as nat));
                    assert(out@ =~= at_start + cell);
                } else {
                    assert(cell == ns[idx as int] + Seq::<char>::empty());
                    assert(out@ =~= at_start + cell);
                }
            } else {
                assert(cell == Seq::<char>::empty());
            }
            assert(out@ =~= at_start + cell);
            assert(out@ =~= before + grid_row(ns, ls, cw, cols as nat, rows as nat, r as nat, (c + 1) as nat));
            c = c + 1;
        }
        push_char(&mut out, '\n');
        assert(out@ =~= grid_rows(ns, ls, cw, cols as nat, rows as nat, (r + 1) as nat));
        r = r + 1;
    }
    out
}

/// The byte length of a string (`str::len`).
pub fn byte_len(s: &str) -> (r: usize)
    requires
        utf8_len(s@) <= usize::MAX,
    ensures
        r == utf8_len(s@),
{
    proof {
        assert(s.spec_bytes() == vstd::utf8::encode_utf8(s@));
    }
    s.len()
}

/// Whether `names` are paintings of the names of `entries`, one each.
pub open spec fn paints_names(entries: Seq<FileEntry>, names: Seq<Seq<char>>) -> bool {
    names.len() == entries.len() && forall|i: int| 0 <= i < entries.len() ==> is_painted_name(#[trigger] entries[i], names[i])
}

/// The byte lengths of the entries' names.
pub open spec fn name_lens(entries: Seq<FileEntry>) -> Seq<nat> {
    entries.map_values(|e: FileEntry| utf8_len(e.name@))
}

/// The entries' names in a grid for a terminal `term_width` columns wide,
/// painted as `colorize_name` paints them.
pub fn format_grid(entries: &[FileEntry], term_width: usize) -> (r: String)
    requires
        entries@.len() <= isize::MAX,
        term_width <= u16::MAX,
        forall|i: int| 0 <= i < entries@.len() ==> utf8_len(#[trigger] entries@[i].name@) <= isize::MAX,
    ensures
        exists|names: Seq<Seq<char>>| paints_names(entries@, names) && r@ == grid_text(names, name_lens(entries@), term_width as nat),
{
    let mut names: Vec<String> = Vec::new();
    let mut lens: Vec<usize> = Vec::new();
    let mut i: usize = 0;
    while i < entries.len()
        invariant
            i <= entries@.len(),
            names@.len() == i,
            lens@.len() == i,
            forall|k: int| 0 <= k < i ==> is_painted_name(entries@[k], #[trigger] names@[k]@),
            forall|k: int| 0 <= k < i ==> #[trigger] lens@[k] == utf8_len(entries@[k].name@),
            forall|k: int| 0 <= k < entries@.len() ==> utf8_len(#[trigger] entries@[k].name@) <= isize::MAX,
        decreases entries@.len() - i,
    {
        names.push(colorize_name(&entries[i]));
        lens.push(byte_len(entries[i].name.as_str()));
        i = i + 1;
    }
    let out = layout_grid(&names, &lens, term_width);
    assert(nat_lens(lens@) =~= name_lens(entries@));
    assert(paints_names(entries@, views(names@)));
    out
}

/// A node of a directory tree: an entry and the nodes below it.
pub struct TreeNode {
    pub entry: FileEntry,
    pub children: Vec<TreeNode>,
}

/// The texts joined in order.
pub open spec fn concat(parts: Seq<Seq<char>>) -> Seq<char>
    decreases parts.len(),
{
    if parts.len() == 0 {
        Seq::empty()
    } else {
        concat(parts.drop_last()) + parts.last()
    }
}

/// The line of a node: the painted name alone for the root, else after the
/// prefix and a branch (`└── ` for the last child, `├── ` otherwise).
pub open spec fn tree_line(prefix: Seq<char>, is_last: bool, is_root: bool, name: Seq<char>) -> Seq<char> {
    if is_root {
        name + seq!['\n']
    } else {
        prefix + (if is_last {
            "└── "@
        } else {
            "├── "@
        }) + name + seq!['\n']
    }
}

/// The prefix of a node's children: the node's own, extended by nothing
/// under the root, by blanks under a last child, else by a bar.
pub open spec fn child_prefix(prefix: Seq<char>, is_last: bool, is_root: bool) -> Seq<char> {
    prefix + if is_root {
        Seq::empty()
    } else if is_last {
        "    "@
    } else {
        "│   "@
    }
}

/// `out` is a drawing of the tree under `node`: the node's line with its
/// name painted, then the drawings of its children in order, the last child
/// drawn as last.
pub open spec fn tree_rendering(node: TreeNode, prefix: Seq<char>, is_last: bool, is_root: bool, out: Seq<char>) -> bool
    decreases node,
{
    exists|name: Seq<char>, parts: Seq<Seq<char>>|
        {
            &&& is_painted_name(node.entry, name)
            &&& parts.len() == node.children@.len()
            &&& forall|i: int|
                0 <= i < parts.len() ==> tree_rendering(
                    #[trigger] node.children@[i],
                    child_prefix(prefix, is_last, is_root),
                    i == parts.len() - 1,
                    false,
                    parts[i],
                )
            &&& out == tree_line(prefix, is_last, is_root, name) + concat(parts)
        }
}

/// Draws the tree under `node` with `prefix` before each line below the
/// root, as `tree` draws directories.
pub fn format_tree_node(node: &TreeNode, prefix: &str, is_last: bool, is_root: bool) -> (r: String)
    ensures
        tree_rendering(*node, prefix@, is_last, is_root, r@),
    decreases node,
{
    let mut out = String::new();
    let name = colorize_name(&node.entry);
    if is_root {
        push_str(&mut out, name.as_str());
        push_char(&mut out, '\n');
    } else {
        let connector = if is_last {
            owned_text("└── ")
        } else {
            owned_text("├── ")
        };
        push_str(&mut out, prefix);
        push_str(&mut out, connector.as_str());
        push_str(&mut out, name.as_str());
        push_char(&mut out, '\n');
    }
    let ghost line = tree_line(prefix@, is_last, is_root, name@);
    assert(out@ =~= line);
    let addition = if is_root {
        owned_text("")
    } else if is_last {
        owned_text("    ")
    } else {
        owned_text("│   ")
    };
    let mut next_prefix = owned_text(prefix);
    push_str(&mut next_prefix, addition.as_str());
    let ghost cp = child_prefix(prefix@, is_last, is_root);
    assert(next_prefix@ =~= cp) by {
        if is_root {
            reveal_strlit("");
        }
    }
    let count = node.children.len();
    let ghost mut parts: Seq<Seq<char>> = Seq::empty();
    let mut i: usize = 0;
    while i < count
        invariant
            i <= count,
            count == node.children@.len(),
            parts.len() == i,
            next_prefix@ == cp,
            forall|k: int| 0 <= k < i ==> tree_rendering(#[trigger] node.children@[k], cp, k == count - 1, false, parts[k]),
            out@ == line + concat(parts),
        decreases count - i,
    {
        let child_out = format_tree_node(&node.children[i], next_prefix.as_str(), i == count - 1, false);
        push_str(&mut out, child_out.as_str());
        proof {
            let old_parts = parts;
            parts = parts.push(child_out@);
            assert(parts.drop_last() =~= old_parts);
            assert forall|k: int| 0 <= k < i + 1 implies tree_rendering(#[trigger] node.children@[k], cp, k == count - 1, false, parts[k]) by {
                if k < i {
                    assert(parts[k] == old_parts[k]);
                }
            }
        }
        i = i + 1;
    }
    assert(tree_rendering(*node, prefix@, is_last, is_root, out@)) by {
        assert(is_painted_name(node.entry, name@));
    }
    out
}

/// The number of line breaks in a text.
pub open spec fn newlines(s: Seq<char>) -> nat
    decreases s.len(),
{
    if s.len() == 0 {
        0
    } else {
        newlines(s.drop_last()) + if s.last() == '\n' {
            1nat
        } else {
            0nat
        }
    }
}

/// The sum of some counts.
pub open spec fn sum_counts(s: Seq<nat>) -> nat
    decreases s.len(),
{
    if s.len() == 0 {
        0
    } else {
        sum_counts(s.drop_last()) + s.last()
    }
}

/// The number of nodes in the tree under `node`, itself included.
pub open spec fn tree_size(node: TreeNode) -> nat
    decreases node, 1nat, 0int,
{
    1 + children_size(node, node.children@.len() as int)
}

/// The number of nodes in the trees under the first `k` children of `node`.
pub open spec fn children_size(node: TreeNode, k: int) -> nat
    decreases node, 0nat, k,
{
    if 0 < k <= node.children@.len() {
        children_size(node, k - 1) + tree_size(node.children@[k - 1])
    } else {
        0
    }
}

/// No name in the tree under `node` holds a line break.
pub open spec fn names_on_one_line(node: TreeNode) -> bool
    decreases node,
{
    &&& !node.entry.name@.contains('\n')
    &&& forall|i: int| 0 <= i < node.children@.len() ==> names_on_one_line(#[trigger] node.children@[i])
}

proof fn lemma_newlines_add(a: Seq<char>, b: Seq<char>)
    ensures
        newlines(a + b) == newlines(a) + newlines(b),
    decreases b.len(),
{
    if b.len() > 0 {
        lemma_newlines_add(a, b.drop_last());
        assert((a + b).drop_last() =~= a + b.drop_last());
        assert((a + b).last() == b.last());
    } else {
        assert(a + b =~= a);
    }
}

proof fn lemma_newlines_none(s: Seq<char>)
    requires
        !s.contains('\n'),
    ensures
        newlines(s) == 0,
    decreases s.len(),
{
    if s.len() > 0 {
        assert(!s.drop_last().contains('\n')) by {
            if s.drop_last().contains('\n') {
                let k = choose|k: int| 0 <= k < s.drop_last().len() && s.drop_last()[k] == '\n';
                assert(s[k] == '\n');
            }
        }
        lemma_newlines_none(s.drop_last());
        assert(s[s.len() - 1] == s.last());
    }
}

proof fn lemma_newlines_concat(parts: Seq<Seq<char>>)
    ensures
        newlines(concat(parts)) == sum_counts(Seq::new(parts.len(), |i: int| newlines(parts[i]))),
    decreases parts.len(),
{
    let counts = Seq::new(parts.len(), |i: int| newlines(parts[i]));
    if parts.len() > 0 {
        lemma_newlines_concat(parts.drop_last());
        lemma_newlines_add(concat(parts.drop_last()), parts.last());
        assert(counts.drop_last() =~= Seq::new(
            parts.drop_last().len(),
            |i: int| newlines(parts.drop_last()[i]),
        ));
    }
}

proof fn lemma_children_size(node: TreeNode, counts: Seq<nat>, k: int)
    requires
        counts.len() == node.children@.len(),
        0 <= k <= counts.len(),
        forall|i: int| 0 <= i < counts.len() ==> counts[i] == tree_size(#[trigger] node.children@[i]),
    ensures
        sum_counts(counts.take(k)) == children_size(node, k),
    decreases k,
{
    if k > 0 {
        lemma_children_size(node, counts, k - 1);
        assert(counts.take(k).drop_last() =~= counts.take(k - 1));
        assert(counts.take(k).last() == counts[k - 1]);
    } else {
        assert(counts.take(0) =~= Seq::<nat>::empty());
    }
}

proof fn lemma_painted_name_one_line(e: FileEntry, out: Seq<char>)
    requires
        is_painted_name(e, out),
        !e.name@.contains('\n'),
    ensures
        !out.contains('\n'),
{
    let code = style_code(name_style(e));
    reveal_strlit("1;34");
    reveal_strlit("36");
    reveal_strlit("1;32");
    reveal_strlit("33");
    reveal_strlit("31");
    reveal_strlit("35");
    if name_style(e) != NameStyle::Plain {
        assert(!code.contains('\n'));
        lemma_painting_one_line(code, e.name@, out);
    }
}

/// A drawing of a tree whose names hold no line break, under a prefix that
/// holds none, has exactly one line per node of the tree.
pub proof fn lemma_tree_lines(node: TreeNode, prefix: Seq<char>, is_last: bool, is_root: bool, out: Seq<char>)
    requires
        tree_rendering(node, prefix, is_last, is_root, out),
        !prefix.contains('\n'),
        names_on_one_line(node),
    ensures
        newlines(out) == tree_size(node),
    decreases node,
{
    let (name, parts) = choose|name: Seq<char>, parts: Seq<Seq<char>>|
        {
            &&& is_painted_name(node.entry, name)
            &&& parts.len() == node.children@.len()
            &&& forall|i: int|
                0 <= i < parts.len() ==> tree_rendering(
                    #[trigger] node.children@[i],
                    child_prefix(prefix, is_last, is_root),
                    i == parts.len() - 1,
                    false,
                    parts[i],
                )
            &&& out == tree_line(prefix, is_last, is_root, name) + concat(parts)
        };
    let cp = child_prefix(prefix, is_last, is_root);
    reveal_strlit("└── ");
    reveal_strlit("├── ");
    reveal_strlit("    ");
    reveal_strlit("│   ");
    assert(!cp.contains('\n')) by {
        if cp.contains('\n') {
            let k = choose|k: int| 0 <= k < cp.len() && cp[k] == '\n';
            if k < prefix.len() {
                assert(prefix[k] == '\n');
            }
        }
    }
    let counts = Seq::new(parts.len(), |i: int| newlines(parts[i]));
    assert forall|i: int| 0 <= i < parts.len() implies counts[i] == tree_size(node.children@[i]) by {
        lemma_tree_lines(node.children@[i], cp, i == parts.len() - 1, false, parts[i]);
    }
    lemma_children_size(node, counts, parts.len() as int);
    lemma_newlines_concat(parts);
    // the node's own line
    lemma_painted_name_one_line(node.entry, name);
    lemma_newlines_none(name);
    let branch: Seq<char> = if is_last {
        "└── "@
    } else {
        "├── "@
    };
    let head = if is_root {
        name
    } else {
        prefix + branch + name
    };
    assert(!branch.contains('\n'));
    lemma_newlines_none(branch);
    lemma_newlines_none(prefix);
    if !is_root {
        lemma_newlines_add(prefix, branch);
        lemma_newlines_add(prefix + branch, name);
    }
    assert(tree_line(prefix, is_last, is_root, name) =~= head + seq!['\n']);
    lemma_newlines_add(head, seq!['\n']);
    assert(newlines(seq!['\n']) == 1) by {
        assert(seq!['\n'].drop_last() =~= Seq::<char>::empty());
        assert(newlines(Seq::<char>::empty()) == 0);
    }
    lemma_newlines_add(tree_line(prefix, is_last, is_root, name), concat(parts));
    assert(counts.take(parts.len() as int) =~= counts);
    assert(newlines(tree_line(prefix, is_last, is_root, name)) == 1);
    assert(newlines(concat(parts)) == sum_counts(counts));
}

proof fn lemma_concat_starts(parts: Seq<Seq<char>>)
    requires
        parts.len() > 0,
    ensures
        concat(parts).len() >= parts[0].len(),
        concat(parts).take(parts[0].len() as int) == parts[0],
    decreases parts.len(),
{
    if parts.len() == 1 {
        assert(concat(parts.drop_last()) == Seq::<char>::empty());
        assert(concat(parts) =~= parts[0]);
    } else {
        lemma_concat_starts(parts.drop_last());
        assert(parts.drop_last()[0] == parts[0]);
        assert(concat(parts).take(parts[0].len() as int) =~= concat(parts.drop_last()).take(parts[0].len() as int));
    }
}

/// Below a node that is not the root, the line after the node's own begins
/// with the node's prefix and then four blanks when the node is the last
/// child, a bar and three blanks otherwise; below the root, with the
/// prefix alone. The node's own line is its prefix, its branch (`└── `
/// for the last child, `├── ` otherwise) or nothing for the root, its
/// painted name and a line break.
pub proof fn lemma_child_indent(node: TreeNode, prefix: Seq<char>, is_last: bool, is_root: bool, out: Seq<char>)
    requires
        tree_rendering(node, prefix, is_last, is_root, out),
        node.children@.len() > 0,
    ensures
        exists|name: Seq<char>|
            {
                let line = if is_root {
                    name + seq!['\n']
                } else {
                    prefix + (if is_last {
                        seq!['└', '─', '─', ' ']
                    } else {
                        seq!['├', '─', '─', ' ']
                    }) + name + seq!['\n']
                };
                let indent = if is_root {
                    prefix
                } else if is_last {
                    prefix + seq![' ', ' ', ' ', ' ']
                } else {
                    prefix + seq!['│', ' ', ' ', ' ']
                };
                &&& #[trigger] is_painted_name(node.entry, name)
                &&& out.len() >= line.len() + indent.len()
                &&& out.take(line.len() as int) == line
                &&& out.subrange(line.len() as int, (line.len() + indent.len()) as int) == indent
            },
{
    let (name, parts) = choose|name: Seq<char>, parts: Seq<Seq<char>>|
        {
            &&& is_painted_name(node.entry, name)
            &&& parts.len() == node.children@.len()
            &&& forall|i: int|
                0 <= i < parts.len() ==> tree_rendering(
                    #[trigger] node.children@[i],
                    child_prefix(prefix, is_last, is_root),
                    i == parts.len() - 1,
                    false,
                    parts[i],
                )
            &&& out == tree_line(prefix, is_last, is_root, name) + concat(parts)
        };
    reveal_strlit("└── ");
    reveal_strlit("├── ");
    reveal_strlit("    ");
    reveal_strlit("│   ");
    let cp = child_prefix(prefix, is_last, is_root);
    let line = tree_line(prefix, is_last, is_root, name);
    let indent = if is_root {
        prefix
    } else if is_last {
        prefix + seq![' ', ' ', ' ', ' ']
    } else {
        prefix + seq!['│', ' ', ' ', ' ']
    };
    assert(cp =~= indent);
    let first = parts[0];
    assert(tree_rendering(node.children@[0], cp, 0 == parts.len() - 1, false, first));
    let (cname, cparts) = choose|name: Seq<char>, parts: Seq<Seq<char>>|
        {
            &&& is_painted_name(node.children@[0].entry, name)
            &&& parts.len() == node.children@[0].children@.len()
            &&& forall|i: int|
                0 <= i < parts.len() ==> tree_rendering(
                    #[trigger] node.children@[0].children@[i],
                    child_prefix(cp, 0 == node.children@.len() - 1, false),
                    i == parts.len() - 1,
                    false,
                    parts[i],
                )
            &&& first == tree_line(cp, 0 == node.children@.len() - 1, false, name) + concat(parts)
        };
    assert(first.take(cp.len() as int) =~= cp);
    lemma_concat_starts(parts);
    let rest = concat(parts);
    assert(out == line + rest);
    assert(out.take(line.len() as int) =~= line);
    assert(out.subrange(line.len() as int, (line.len() + cp.len()) as int) =~= rest.take(cp.len() as int));
    assert(rest.take(cp.len() as int) =~= rest.take(first.len() as int).take(cp.len() as int));
    let wline = if is_root {
        name + seq!['\n']
    } else {
        prefix + (if is_last {
            seq!['└', '─', '─', ' ']
        } else {
            seq!['├', '─', '─', ' ']
        }) + name + seq!['\n']
    };
    assert(wline =~= line);
}

/// `s` padded with spaces on the right to `w` characters (`{:<w}`).
pub open spec fn pad_right(s: Seq<char>, w: nat) -> Seq<char> {
    if s.len() < w {
        s + spaces((w - s.len()) as nat)
    } else {
        s
    }
}

/// `s` padded with spaces on the left to `w` characters (`{:>w}`).
pub open spec fn pad_left(s: Seq<char>, w: nat) -> Seq<char> {
    if s.len() < w {
        spaces((w - s.len()) as nat) + s
    } else {
        s
    }
}

/// The cells of one line of a long listing.
pub struct LongRow {
    pub kind: char,
    pub perms: String,
    pub owner: String,
    pub group: String,
    pub size: String,
    pub date: String,
    pub name: String,
    pub link: String,
}

/// One line of a long listing, the owner and group columns `owner_width`
/// and `group_width` wide (left-aligned), the size column `size_width`
/// wide (right-aligned).
pub open spec fn long_line(row: LongRow, owner_width: nat, group_width: nat, size_width: nat) -> Seq<char> {
    seq![row.kind] + row.perms@ + seq![' '] + pad_right(row.owner@, owner_width) + seq![' ']
        + pad_right(row.group@, group_width) + seq![' '] + pad_left(row.size@, size_width) + seq![' ']
        + row.date@ + seq![' '] + row.name@ + row.link@ + seq!['\n']
}

/// The byte widths of the owner, group and size cells.
pub open spec fn owner_widths(rows: Seq<LongRow>) -> Seq<nat> {
    rows.map_values(|r: LongRow| utf8_len(r.owner@))
}

pub open spec fn group_widths(rows: Seq<LongRow>) -> Seq<nat> {
    rows.map_values(|r: LongRow| utf8_len(r.group@))
}

pub open spec fn size_widths(rows: Seq<LongRow>) -> Seq<nat> {
    rows.map_values(|r: LongRow| utf8_len(r.size@))
}

/// The first `k` lines of a long listing, with column widths those of the
/// widest cells (in bytes) among all rows.
pub open spec fn long_lines(rows: Seq<LongRow>, k: nat) -> Seq<char>
    decreases k,
{
    if k == 0 {
        Seq::empty()
    } else {
        long_lines(rows, (k - 1) as nat) + long_line(
            rows[k - 1],
            max_len(owner_widths(rows)),
            max_len(group_widths(rows)),
            max_len(size_widths(rows)),
        )
    }
}

/// A long listing of rows.
pub open spec fn long_text(rows: Seq<LongRow>) -> Seq<char> {
    long_lines(rows, rows.len())
}

fn push_padded(out: &mut String, s: &str, width: usize, left: bool)
    ensures
        final(out)@ == old(out)@ + if left {
            pad_left(s@, width as nat)
        } else {
            pad_right(s@, width as nat)
        },
{
    let n = s.unicode_len();
    if left {
        if n < width {
            push_spaces(out, width - n);
        }
        push_str(out, s);
    } else {
        push_str(out, s);
        if n < width {
            push_spaces(out, width - n);
        }
    }
    assert(final(out)@ =~= old(out)@ + if left {
        pad_left(s@, width as nat)
    } else {
        pad_right(s@, width as nat)
    });
}

fn widest(rows: &Vec<LongRow>, which: u8) -> (r: usize)
    requires
        forall|i: int| 0 <= i < rows@.len() ==> utf8_len((#[trigger] rows@[i]).owner@) <= isize::MAX,
        forall|i: int| 0 <= i < rows@.len() ==> utf8_len((#[trigger] rows@[i]).group@) <= isize::MAX,
        forall|i: int| 0 <= i < rows@.len() ==> utf8_len((#[trigger] rows@[i]).size@) <= isize::MAX,
    ensures
        r == max_len(if which == 0 {
            owner_widths(rows@)
        } else if which == 1 {
            group_widths(rows@)
        } else {
            size_widths(rows@)
        }),
{
    let ghost ws = if which == 0 {
        owner_widths(rows@)
    } else if which == 1 {
        group_widths(rows@)
    } else {
        size_widths(rows@)
    };
    let mut m: usize = 0;
    let mut i: usize = 0;
    assert(ws.take(0) =~= Seq::<nat>::empty());
    while i < rows.len()
        invariant
            i <= rows@.len(),
            ws.len() == rows@.len(),
            ws == if which == 0 {
                owner_widths(rows@)
            } else if which == 1 {
                group_widths(rows@)
            } else {
                size_widths(rows@)
            },
            forall|k: int| 0 <= k < rows@.len() ==> utf8_len((#[trigger] rows@[k]).owner@) <= isize::MAX,
            forall|k: int| 0 <= k < rows@.len() ==> utf8_len((#[trigger] rows@[k]).group@) <= isize::MAX,
            forall|k: int| 0 <= k < rows@.len() ==> utf8_len((#[trigger] rows@[k]).size@) <= isize::MAX,
            m == max_len(ws.take(i as int)),
        decreases rows.len() - i,
    {
        let w = if which == 0 {
            byte_len(rows[i].owner.as_str())
        } else if which == 1 {
            byte_len(rows[i].group.as_str())
        } else {
            byte_len(rows[i].size.as_str())
        };
        assert(ws.take(i + 1).drop_last() =~= ws.take(i as int));
        assert(ws[i as int] == w);
        if w > m {
            m = w;
        }
        i = i + 1;
    }
    assert(ws.take(rows.len() as int) =~= ws);
    m
}

fn push_long_line(out: &mut String, row: &LongRow, ow: usize, gw: usize, sw: usize)
    ensures
        final(out)@ == old(out)@ + long_line(*row, ow as nat, gw as nat, sw as nat),
{
    let ghost start = out@;
    push_char(out, row.kind);
    push_str(out, row.perms.as_str());
    push_char(out, ' ');
    let ghost a = out@;
    assert(a =~= start + (seq![row.kind] + row.perms@ + seq![' ']));
    push_padded(out, row.owner.as_str(), ow, false);
    push_char(out, ' ');
    push_padded(out, row.group.as_str(), gw, false);
    push_char(out, ' ');
    let ghost b = out@;
    assert(b =~= a + (pad_right(row.owner@, ow as nat) + seq![' '] + pad_right(row.group@, gw as nat) + seq![' ']));
    push_padded(out, row.size.as_str(), sw, true);
    push_char(out, ' ');
    push_str(out, row.date.as_str());
    push_char(out, ' ');
    let ghost c = out@;
    assert(c =~= b + (pad_left(row.size@, sw as nat) + seq![' '] + row.date@ + seq![' ']));
    push_str(out, row.name.as_str());
    push_str(out, row.link.as_str());
    push_char(out, '\n');
    assert(out@ =~= c + (row.name@ + row.link@ + seq!['\n']));
    assert(out@ =~= start + long_line(*row, ow as nat, gw as nat, sw as nat));
}

/// Lays out the rows of a long listing (see `long_text`).
pub fn layout_long(rows: &Vec<LongRow>) -> (r: String)
    requires
        forall|i: int| 0 <= i < rows@.len() ==> utf8_len((#[trigger] rows@[i]).owner@) <= isize::MAX,
        forall|i: int| 0 <= i < rows@.len() ==> utf8_len((#[trigger] rows@[i]).group@) <= isize::MAX,
        forall|i: int| 0 <= i < rows@.len() ==> utf8_len((#[trigger] rows@[i]).size@) <= isize::MAX,
    ensures
        r@ == long_text(rows@),
{
    let ow = widest(rows, 0);
    let gw = widest(rows, 1);
    let sw = widest(rows, 2);
    let mut out = String::new();
    let mut i: usize = 0;
    while i < rows.len()
        invariant
            i <= rows@.len(),
            ow == max_len(owner_widths(rows@)),
            gw == max_len(group_widths(rows@)),
            sw == max_len(size_widths(rows@)),
            out@ == long_lines(rows@, i as nat),
        decreases rows.len() - i,
    {
        push_long_line(&mut out, &rows[i], ow, gw, sw);
        i = i + 1;
    }
    out
}

/// The character of an entry's kind: `d`, `l` or `-`.
pub open spec fn kind_char(e: FileEntry) -> char {
    if e.is_dir {
        'd'
    } else if e.is_symlink {
        'l'
    } else {
        '-'
    }
}

/// The link cell: for a symbolic link whose target was read, ` -> ` and
/// the target painted cyan; empty otherwise.
pub open spec fn is_link_text(e: FileEntry, target: Option<String>, link: Seq<char>) -> bool {
    if e.is_symlink && target is Some {
        link.len() >= 4 && link.take(4) == " -> "@ && is_painting("36"@, target->0@, link.skip(4))
    } else {
        link == Seq::<char>::empty()
    }
}

/// The date cell where an entry has no time.
pub open spec fn no_date_text() -> Seq<char> {
    "Jan  1  1970"@
}

/// `row` is a line of a long listing for `e`: kind, permissions, owner,
/// group, size, date (a fixed text without a time, else the local time as
/// `%b %e %H:%M`, see `is_local_date`), the painted name and the link.
pub open spec fn row_describes(e: FileEntry, human_readable: bool, cache: UserCache, target: Option<String>, row: LongRow) -> bool {
    &&& row.kind == kind_char(e)
    &&& row.perms@ == permissions_text(e.mode)
    &&& row.owner@ == owner_text(e, cache)
    &&& row.group@ == group_text(e, cache)
    &&& row.size@ == spec_format_size(e.size, human_readable)
    &&& (e.modified is None ==> row.date@ == no_date_text())
    &&& (e.modified matches Some(t) ==> is_local_date(t as int, row.date@))
    &&& is_painted_name(e, row.name@)
    &&& is_link_text(e, target, row.link@)
}

/// The latest instant that `chrono` represents (`NaiveDateTime::MAX`,
/// +262142-12-31T23:59:59.999999999 UTC), in nanoseconds since the Unix
/// epoch.
pub open spec fn latest_instant() -> int {
    8_210_266_876_799int * 1_000_000_000 + 999_999_999
}

/// A time that `chrono` represents, as every modification time that a
/// `DateTime` holds is.
pub open spec fn time_in_range(t: i128) -> bool {
    -8_334_601_228_800 * 1_000_000_000 <= t <= latest_instant()
}

/// What `chrono` prints with `%b %e %H:%M` for the instant `secs` seconds
/// and `nanos` nanoseconds after the Unix epoch, seen at `offset` seconds
/// east of UTC.
pub uninterp spec fn date_text(secs: int, nanos: int, offset: int) -> Seq<char>;

/// What `chrono`'s `to_rfc3339` gives for the instant `secs` seconds and
/// `nanos` nanoseconds after the Unix epoch, seen at `offset` seconds east
/// of UTC.
pub uninterp spec fn rfc3339_text(secs: int, nanos: int, offset: int) -> Seq<char>;

/// Whether a second count and a nanosecond count name an instant that
/// `chrono` represents.
pub open spec fn instant_in_range(secs: int, nanos: int) -> bool {
    -8_334_601_228_800 <= secs <= 8_210_266_876_799 && 0 <= nanos < 1_000_000_000
}

/// An offset of a time zone from UTC that `chrono::FixedOffset` holds.
pub open spec fn offset_in_range(offset: int) -> bool {
    -86_400 < offset < 86_400
}

/// `text` is the local time of the instant `t` (nanoseconds since the
/// epoch) written `%b %e %H:%M`, at the offset of the local time zone then,
/// which depends on the machine and is left unsaid.
pub open spec fn is_local_date(t: int, text: Seq<char>) -> bool {
    exists|offset: int| offset_in_range(offset) && text == #[trigger] date_text(
        t / 1_000_000_000,
        t % 1_000_000_000,
        offset,
    )
}

/// `text` is the instant `t` (nanoseconds since the epoch) in RFC 3339, at
/// the offset of the local time zone then (left unsaid).
pub open spec fn is_local_rfc3339(t: int, text: Seq<char>) -> bool {
    exists|offset: int| offset_in_range(offset) && text == #[trigger] rfc3339_text(
        t / 1_000_000_000,
        t % 1_000_000_000,
        offset,
    )
}

/// The offset of the local time zone from UTC, in seconds east, at an
/// instant (`DateTime::from_timestamp`, `with_timezone(&Local)`, `offset`,
/// `local_minus_utc`). It depends on the machine's time zone; only that
/// `FixedOffset` holds it is stated.
#[verifier::external_body]
fn local_offset(secs: i64, nanos: u32) -> (r: i32)
    ensures
        offset_in_range(r as int),
{
    match chrono::DateTime::from_timestamp(secs, nanos) {
        Some(t) => t.with_timezone(&chrono::Local).offset().local_minus_utc(),
        None => 0,
    }
}

/// `DateTime::from_timestamp` seen at the `FixedOffset` of `offset` seconds
/// east, formatted `%b %e %H:%M`, for nanoseconds below one second:
/// `Some` exactly for an instant and an offset that `chrono` represents,
/// holding the named text.
#[verifier::external_body]
fn date_text_at(secs: i64, nanos: u32, offset: i32) -> (r: Option<String>)
    requires
        nanos < 1_000_000_000,
    ensures
        r is Some == (instant_in_range(secs as int, nanos as int) && offset_in_range(offset as int)),
        r matches Some(t) ==> t@ == date_text(secs as int, nanos as int, offset as int),
{
    let zone = chrono::FixedOffset::east_opt(offset)?;
    let t = chrono::DateTime::from_timestamp(secs, nanos)?;
    Some(t.with_timezone(&zone).format("%b %e %H:%M").to_string())
}

/// `DateTime::from_timestamp` seen at the `FixedOffset` of `offset` seconds
/// east, as `to_rfc3339`, for nanoseconds below one second: `Some` exactly
/// for an instant and an offset that `chrono` represents, holding the named
/// text.
#[verifier::external_body]
fn rfc3339_at(secs: i64, nanos: u32, offset: i32) -> (r: Option<String>)
    requires
        nanos < 1_000_000_000,
    ensures
        r is Some == (instant_in_range(secs as int, nanos as int) && offset_in_range(offset as int)),
        r matches Some(t) ==> t@ == rfc3339_text(secs as int, nanos as int, offset as int),
{
    let zone = chrono::FixedOffset::east_opt(offset)?;
    let t = chrono::DateTime::from_timestamp(secs, nanos)?;
    Some(t.with_timezone(&zone).to_rfc3339())
}

/// The whole seconds and the nanoseconds past them of a time in range.
fn split_time(t: i128) -> (r: (i64, u32))
    requires
        time_in_range(t),
    ensures
        instant_in_range(r.0 as int, r.1 as int),
        r.0 * 1_000_000_000 + r.1 == t,
        r.0 == t / 1_000_000_000,
        r.1 == t % 1_000_000_000,
{
    let shifted: i128 = t + 8_334_601_228_800 * 1_000_000_000;
    let q: i128 = shifted / 1_000_000_000;
    let rem: i128 = shifted % 1_000_000_000;
    assert(shifted == q * 1_000_000_000 + rem) by (nonlinear_arith)
        requires
            q == shifted / 1_000_000_000,
            rem == shifted % 1_000_000_000,
            shifted >= 0,
    ;
    assert(q <= 8_210_266_876_799 + 8_334_601_228_800) by (nonlinear_arith)
        requires
            q == shifted / 1_000_000_000,
            shifted <= latest_instant() + 8_334_601_228_800 * 1_000_000_000,
            shifted >= 0,
    ;
    let r = ((q - 8_334_601_228_800) as i64, rem as u32);
    proof {
        vstd::arithmetic::div_mod::lemma_fundamental_div_mod_converse(
            t as int,
            1_000_000_000,
            r.0 as int,
            r.1 as int,
        );
    }
    r
}

/// The date cell of an entry: its local time, or the fixed text without
/// one.
fn date_cell(e: &FileEntry) -> (r: String)
    requires
        e.modified matches Some(t) ==> time_in_range(t),
    ensures
        e.modified is None ==> r@ == no_date_text(),
        e.modified matches Some(t) ==> is_local_date(t as int, r@),
{
    match e.modified {
        Some(t) => {
            let (secs, nanos) = split_time(t);
            let offset = local_offset(secs, nanos);
            match date_text_at(secs, nanos, offset) {
                Some(text) => {
                    assert(text@ == date_text((t as int) / 1_000_000_000, (t as int) % 1_000_000_000, offset as int));
                    text
                },
                None => owned_text("Jan  1  1970"),
            }
        },
        None => owned_text("Jan  1  1970"),
    }
}

fn link_cell(e: &FileEntry, target: &Option<String>) -> (r: String)
    ensures
        is_link_text(*e, *target, r@),
{
    if e.is_symlink {
        match target {
            Some(t) => {
                let mut out = owned_text(" -> ");
                proof {
                    reveal_strlit(" -> ");
                }
                let painted = paint_cyan(t.as_str());
                push_str(&mut out, painted.as_str());
                assert(out@.take(4) =~= " -> "@);
                assert(out@.skip(4) =~= painted@);
                out
            },
            None => String::new(),
        }
    } else {
        String::new()
    }
}

/// The row of the long listing for an entry.
pub fn long_row(e: &FileEntry, human_readable: bool, cache: &UserCache, target: &Option<String>) -> (r: LongRow)
    requires
        e.modified matches Some(t) ==> time_in_range(t),
    ensures
        row_describes(*e, human_readable, *cache, *target, r),
        r.size@.len() <= 64,
{
    LongRow {
        kind: e.file_type_char(),
        perms: e.permissions_str(),
        owner: e.owner_name(cache),
        group: e.group_name(cache),
        size: format_size(e.size, human_readable),
        date: date_cell(e),
        name: colorize_name(e),
        link: link_cell(e, target),
    }
}

/// Whether `rows` are rows of a long listing of `entries`, one each.
pub open spec fn rows_describe(
    entries: Seq<FileEntry>,
    human_readable: bool,
    cache: UserCache,
    targets: Seq<Option<String>>,
    rows: Seq<LongRow>,
) -> bool {
    rows.len() == entries.len() && forall|i: int| 0 <= i < entries.len() ==> row_describes(#[trigger] entries[i], human_readable, cache, targets[i], rows[i])
}

/// A long listing (`ls -l`) of the entries: one line each, with kind,
/// permissions, owner, group, size, date, painted name and, for links,
/// the target read from the file system (`link_targets`, one per entry).
pub fn format_long(entries: &[FileEntry], human_readable: bool, cache: &UserCache, link_targets: &Vec<Option<String>>) -> (r: String)
    requires
        link_targets@.len() == entries@.len(),
        forall|i: int| 0 <= i < entries@.len() ==> (#[trigger] entries@[i].modified matches Some(t) ==> time_in_range(t)),
        forall|i: int| 0 <= i < entries@.len() ==> utf8_len(owner_text(#[trigger] entries@[i], *cache)) <= isize::MAX
            && utf8_len(group_text(entries@[i], *cache)) <= isize::MAX,
    ensures
        exists|rows: Seq<LongRow>| rows_describe(entries@, human_readable, *cache, link_targets@, rows) && r@ == long_text(rows),
{
    let mut rows: Vec<LongRow> = Vec::new();
    let mut i: usize = 0;
    while i < entries.len()
        invariant
            i <= entries@.len(),
            link_targets@.len() == entries@.len(),
            rows@.len() == i,
            forall|k: int| 0 <= k < entries@.len() ==> (#[trigger] entries@[k].modified matches Some(t) ==> time_in_range(t)),
            forall|k: int| 0 <= k < i ==> row_describes(entries@[k], human_readable, *cache, link_targets@[k], #[trigger] rows@[k]),
            forall|k: int| 0 <= k < i ==> (#[trigger] rows@[k]).size@.len() <= 64,
        decreases entries@.len() - i,
    {
        rows.push(long_row(&entries[i], human_readable, cache, &link_targets[i]));
        i = i + 1;
    }
    proof {
        assert forall|k: int| 0 <= k < rows@.len() implies utf8_len((#[trigger] rows@[k]).owner@) <= isize::MAX
            && utf8_len(rows@[k].group@) <= isize::MAX && utf8_len(rows@[k].size@) <= isize::MAX by {
            assert(row_describes(entries@[k], human_readable, *cache, link_targets@[k], rows@[k]));
            lemma_utf8_len_bound(rows@[k].size@);
        }
    }
    let out = layout_long(&rows);
    assert(rows_describe(entries@, human_readable, *cache, link_targets@, rows@));
    out
}

/// A text's UTF-8 encoding takes at most four bytes a character.
pub proof fn lemma_utf8_len_bound(s: Seq<char>)
    ensures
        utf8_len(s) <= 4 * s.len(),
    decreases s.len(),
{
    if s.len() > 0 {
        lemma_utf8_len_bound(s.drop_first());
    }
}

/// The fields of one entry in the JSON listing.
pub struct JsonEntry {
    pub name: String,
    pub path: String,
    pub is_dir: bool,
    pub is_file: bool,
    pub is_symlink: bool,
    pub size: u64,
    pub modified: Option<String>,
    pub permissions: String,
    pub owner: String,
    pub group: String,
}

/// `j` holds the fields of `e` for the JSON listing; the time is the local
/// RFC 3339 text (see `is_local_rfc3339`).
pub open spec fn json_describes(e: FileEntry, cache: UserCache, j: JsonEntry) -> bool {
    &&& j.name@ == e.name@
    &&& j.path@ == e.path@
    &&& j.is_dir == e.is_dir
    &&& j.is_file == e.is_file
    &&& j.is_symlink == e.is_symlink
    &&& j.size == e.size
    &&& j.modified is Some == e.modified is Some
    &&& (e.modified matches Some(t) ==> is_local_rfc3339(t as int, j.modified->0@))
    &&& j.permissions@ == permissions_text(e.mode)
    &&& j.owner@ == owner_text(e, cache)
    &&& j.group@ == group_text(e, cache)
}

/// The records of the JSON listing (`format_json` serialises them).
pub fn json_entries(entries: &[FileEntry], cache: &UserCache) -> (r: Vec<JsonEntry>)
    requires
        forall|i: int| 0 <= i < entries@.len() ==> (#[trigger] entries@[i].modified matches Some(t) ==> time_in_range(t)),
    ensures
        r@.len() == entries@.len(),
        forall|i: int| 0 <= i < entries@.len() ==> json_describes(#[trigger] entries@[i], *cache, r@[i]),
{
    let mut out: Vec<JsonEntry> = Vec::new();
    let mut i: usize = 0;
    while i < entries.len()
        invariant
            i <= entries@.len(),
            out@.len() == i,
            forall|k: int| 0 <= k < entries@.len() ==> (#[trigger] entries@[k].modified matches Some(t) ==> time_in_range(t)),
            forall|k: int| 0 <= k < i ==> json_describes(#[trigger] entries@[k], *cache, out@[k]),
        decreases entries@.len() - i,
    {
        let e = &entries[i];
        let modified = match e.modified {
            Some(t) => {
                let (secs, nanos) = split_time(t);
                let offset = local_offset(secs, nanos);
                match rfc3339_at(secs, nanos, offset) {
                    Some(text) => {
                        assert(text@ == rfc3339_text((t as int) / 1_000_000_000, (t as int) % 1_000_000_000, offset as int));
                        Some(text)
                    },
                    None => Some(String::new()),
                }
            },
            None => None,
        };
        out.push(JsonEntry {
            name: e.name.clone(),
            path: e.path.clone(),
            is_dir: e.is_dir,
            is_file: e.is_file,
            is_symlink: e.is_symlink,
            size: e.size,
            modified,
            permissions: e.permissions_str(),
            owner: e.owner_name(cache),
            group: e.group_name(cache),
        });
        i = i + 1;
    }
    out
}

} // verus!
