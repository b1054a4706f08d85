//! A directory lister's core: file filters, sorting, size and duration
//! parsing, presets, and the text layouts of its listings.

pub mod text;
pub mod numbers;
pub mod preset;
pub mod format;
pub mod entry;
pub mod sort;
pub mod user_cache;
pub mod filter;
pub mod engine;
pub mod listing;

pub use text::{
    chars_of, compare_str, lowercase, owned_text, split_str, trim, trim_str, uppercase,
    white_space, Order,
};
pub use numbers::{decimal, decimal_string, f64_round, round_to_f64};
pub use entry::{extension_of, name_extension, permissions_text, FileEntry};
pub use user_cache::{get_groupname, get_username, parse_u32, UserCache};
pub use sort::{
    entry_order, is_stable_sort_of, sort_by_lowercase_name, stable_sort, ByLowercaseName, Duplicate,
    NamedPath, SortField, Sorter, TotalPreorder,
};
pub use filter::{
    parse_duration, read_duration, duration_in_range, glob_pattern_matches, starts_with_dot,
    CompositeFilter, DurationReading, ExtensionFilter, FileFilter, Filter, GlobFilter,
    HiddenFilter, InvalidPattern, ModifiedFilter, SizeFilter, TypeFilter,
};
pub use preset::{apply_overrides, create_default_config, parse_size, Config, Overrides, Preset};
pub use format::{
    colorize_name, format_grid, format_long, format_size, format_tree_node, json_entries,
    layout_grid, layout_long, long_row, style_of, JsonEntry, LongRow, NameStyle, OutputFormat,
    TreeNode,
};
pub use engine::{instant_nanos, keeps_subtree, now_nanos, unwrap_flag, Engine};
pub use listing::{DirectoryPlan, ItemAction, Listed};
