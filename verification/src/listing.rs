use vstd::prelude::*;
use crate::entry::FileEntry;
use crate::engine::{keeps_subtree, pre_filter_accepts, preset_sorter, Engine};
use crate::filter::{CompositeFilter, FileFilter};
use crate::preset::PresetView;
use crate::format::TreeNode;
use crate::sort::{is_stable_sort_of, sort_by_lowercase_name, ByLowercaseName, NamedPath};

verus! {

/// One item of a directory's listing: its name, path and kind as the
/// listing reports them, and its entry where its metadata was read (a walk
/// reads it only for items that pass the name test).
pub struct Listed {
    pub name: String,
    pub path: String,
    pub is_dir: bool,
    pub is_file: bool,
    pub is_symlink: bool,
    pub entry: Option<FileEntry>,
}

/// Whether a listed item passes the cheap test on its name and kind.
pub open spec fn passes_names(p: PresetView, item: Listed) -> bool {
    pre_filter_accepts(p, item.name@, item.is_dir, item.is_symlink)
}

/// Whether a walk shows a listed item: it passes the name test, its entry
/// was read, and the filter passes the entry.
pub open spec fn shows(p: PresetView, filter: CompositeFilter, item: Listed) -> bool {
    passes_names(p, item) && (item.entry matches Some(e) && filter.accepts(e))
}

/// Whether a walk goes down into a listed item: only where directories are
/// descended into (a depth limit is given), into an item that fails the
/// name test when the listing calls it a directory, and into one that
/// passes when its entry was read and is a directory.
pub open spec fn descends(p: PresetView, item: Listed) -> bool {
    p.max_depth is Some && if passes_names(p, item) {
        item.entry matches Some(e) && e.is_dir
    } else {
        item.is_dir
    }
}

/// The entries that a walk shows of the items, in listing order.
pub open spec fn shown_entries(p: PresetView, filter: CompositeFilter, items: Seq<Listed>) -> Seq<FileEntry>
    decreases items.len(),
{
    if items.len() == 0 {
        Seq::empty()
    } else {
        let rest = shown_entries(p, filter, items.drop_last());
        if shows(p, filter, items.last()) {
            rest.push(items.last().entry->0)
        } else {
            rest
        }
    }
}

/// The directories that a walk goes down into, by name and path, in
/// listing order.
pub open spec fn descended(p: PresetView, items: Seq<Listed>) -> Seq<NamedPath>
    decreases items.len(),
{
    if items.len() == 0 {
        Seq::empty()
    } else {
        let rest = descended(p, items.drop_last());
        if descends(p, items.last()) {
            rest.push(NamedPath { name: items.last().name, path: items.last().path })
        } else {
            rest
        }
    }
}

/// The entries of the items that pass the name test and were read, in
/// listing order: the candidates of a tree level.
pub open spec fn read_entries(p: PresetView, items: Seq<Listed>) -> Seq<FileEntry>
    decreases items.len(),
{
    if items.len() == 0 {
        Seq::empty()
    } else {
        let rest = read_entries(p, items.drop_last());
        if passes_names(p, items.last()) && items.last().entry is Some {
            rest.push(items.last().entry->0)
        } else {
            rest
        }
    }
}

/// What a walk does with one listed item.
pub struct ItemAction {
    /// The item's entry is shown.
    pub show: bool,
    /// The walk goes down into the item.
    pub descend: bool,
}

/// What a flat listing does in one directory: the entries it shows, in the
/// preset's order, and the directories it then goes down into, by name
/// case-insensitively.
pub struct DirectoryPlan {
    pub entries: Vec<FileEntry>,
    pub subdirs: Vec<NamedPath>,
}


impl Engine {
    /// Whether the item passes the name test, asked of the engine.
    pub fn item_passes_names(&self, item: &Listed) -> (r: bool)
        ensures
            r == passes_names(self.settings(), *item),
    {
        self.pre_filter_matches(item.name.as_str(), item.is_dir, item.is_file, item.is_symlink)
    }

    /// What a walk does with one listed item (see `shows` and `descends`).
    pub fn item_action(&self, filter: &CompositeFilter, item: &Listed) -> (r: ItemAction)
        ensures
            r.show == shows(self.settings(), *filter, *item),
            r.descend == descends(self.settings(), *item),
    {
        let recursive = self.is_recursive();
        if !self.item_passes_names(item) {
            return ItemAction { show: false, descend: item.is_dir && recursive };
        }
        match &item.entry {
            Some(e) => ItemAction { show: filter.matches(e), descend: self.descends_into(e) },
            None => ItemAction { show: false, descend: false },
        }
    }

    /// What a flat listing does in a directory with the listed items: the
    /// entries it shows, stably sorted in the preset's order, and the
    /// directories it goes down into, stably sorted by name
    /// case-insensitively.
    pub fn plan_directory(&self, filter: &CompositeFilter, items: &Vec<Listed>) -> (r: DirectoryPlan)
        ensures
            is_stable_sort_of(
                &preset_sorter(self.settings()),
                shown_entries(self.settings(), *filter, items@),
                r.entries@,
            ),
            is_stable_sort_of(&ByLowercaseName, descended(self.settings(), items@), r.subdirs@),
    {
        let ghost p = self.settings();
        let mut entries: Vec<FileEntry> = Vec::new();
        let mut subdirs: Vec<NamedPath> = Vec::new();
        let mut i: usize = 0;
        while i < items.len()
            invariant
                i <= items@.len(),
                p == self.settings(),
                entries@ == shown_entries(p, *filter, items@.take(i as int)),
                subdirs@ == descended(p, items@.take(i as int)),
            decreases items.len() - i,
        {
            let item = &items[i];
            assert(items@.take(i + 1).drop_last() =~= items@.take(i as int));
            assert(items@.take(i + 1).last() == items@[i as int]);
            let action = self.item_action(filter, item);
            if action.show {
                match &item.entry {
                    Some(e) => entries.push(e.clone()),
                    None => {},
                }
            }
            if action.descend {
                subdirs.push(NamedPath { name: item.name.clone(), path: item.path.clone() });
            }
            i = i + 1;
        }
        assert(items@.take(items.len() as int) =~= items@);
        let sorter = self.sorter();
        sorter.sort(entries.as_mut_slice());
        sort_by_lowercase_name(subdirs.as_mut_slice());
        DirectoryPlan { entries, subdirs }
    }

    /// The entries of a tree level: those of the items that pass the name
    /// test and were read, stably sorted in the preset's order.
    pub fn tree_entries(&self, items: &Vec<Listed>) -> (r: Vec<FileEntry>)
        ensures
            is_stable_sort_of(&preset_sorter(self.settings()), read_entries(self.settings(), items@), r@),
    {
        let ghost p = self.settings();
        let mut entries: Vec<FileEntry> = Vec::new();
        let mut i: usize = 0;
        while i < items.len()
            invariant
                i <= items@.len(),
                p == self.settings(),
                entries@ == read_entries(p, items@.take(i as int)),
            decreases items.len() - i,
        {
            let item = &items[i];
            assert(items@.take(i + 1).drop_last() =~= items@.take(i as int));
            assert(items@.take(i + 1).last() == items@[i as int]);
            if self.item_passes_names(item) {
                match &item.entry {
                    Some(e) => entries.push(e.clone()),
                    None => {},
                }
            }
            i = i + 1;
        }
        assert(items@.take(items.len() as int) =~= items@);
        let sorter = self.sorter();
        sorter.sort(entries.as_mut_slice());
        entries
    }
}

/// The node that a tree level keeps for `entry`, given what walking below
/// it gave (`below`, where the walk went down into it): for an entry walked
/// into, the subtree below it when the filter passes the entry or something
/// below it was kept; for any other entry, a leaf when the filter passes it.
pub open spec fn kept_child(
    p: PresetView,
    filter: CompositeFilter,
    entry: FileEntry,
    below: Option<TreeNode>,
    r: Option<TreeNode>,
) -> bool {
    if entry.is_dir && p.max_depth is Some {
        match below {
            Some(sub) => if filter.accepts(entry) || sub.children@.len() > 0 {
                r == Some(sub)
            } else {
                r is None
            },
            None => r is None,
        }
    } else if filter.accepts(entry) {
        r matches Some(n) && n.entry == entry && n.children@.len() == 0
    } else {
        r is None
    }
}

impl Engine {
    /// One step of a flat walk that gathers entries: appends the item's
    /// entry to `acc` where the walk shows it, and answers whether the walk
    /// then goes down into the item, before the next item.
    pub fn gather(&self, filter: &CompositeFilter, item: &Listed, acc: &mut Vec<FileEntry>) -> (descend: bool)
        ensures
            final(acc)@ == old(acc)@ + shown_entries(self.settings(), *filter, seq![*item]),
            descend == descends(self.settings(), *item),
    {
        let action = self.item_action(filter, item);
        let ghost one = seq![*item];
        assert(one.drop_last() =~= Seq::<Listed>::empty());
        assert(one.last() == *item);
        assert(shown_entries(self.settings(), *filter, one.drop_last()) =~= Seq::<FileEntry>::empty());
        if action.show {
            match &item.entry {
                Some(e) => {
                    acc.push(e.clone());
                    assert(shown_entries(self.settings(), *filter, one) =~= seq![*e]);
                },
                None => {},
            }
        } else {
            assert(shown_entries(self.settings(), *filter, one) =~= Seq::<FileEntry>::empty());
        }
        assert(acc@ =~= old(acc)@ + shown_entries(self.settings(), *filter, one));
        action.descend
    }

    /// The node that a tree level keeps for `entry` (see `kept_child`).
    pub fn tree_child(&self, filter: &CompositeFilter, entry: FileEntry, below: Option<TreeNode>) -> (r: Option<TreeNode>)
        ensures
            kept_child(self.settings(), *filter, entry, below, r),
    {
        if self.descends_into(&entry) {
            match below {
                Some(sub) => {
                    if keeps_subtree(filter, &entry, &sub) {
                        Some(sub)
                    } else {
                        None
                    }
                },
                None => None,
            }
        } else if filter.matches(&entry) {
            Some(TreeNode { entry, children: Vec::new() })
        } else {
            None
        }
    }
}

/// What a tree level keeps of an entry: a directory walked into keeps its
/// subtree whenever the filter passes the directory, with or without
/// anything below it, and also when something below it was kept; it is
/// dropped only when neither holds, and nothing is kept of a directory the
/// walk could not go into. Any other entry is kept as a leaf exactly when
/// the filter passes it.
pub proof fn lemma_tree_keeps(
    p: PresetView,
    filter: CompositeFilter,
    entry: FileEntry,
    below: Option<TreeNode>,
    r: Option<TreeNode>,
)
    requires
        kept_child(p, filter, entry, below, r),
    ensures
        (entry.is_dir && p.max_depth is Some) ==> match below {
            Some(sub) => ((filter.accepts(entry) || sub.children@.len() > 0) ==> r == Some(sub)) && (!filter.accepts(entry)
                && sub.children@.len() == 0 ==> r is None),
            None => r is None,
        },
        !(entry.is_dir && p.max_depth is Some) ==> (r is Some <==> filter.accepts(entry)),
        !(entry.is_dir && p.max_depth is Some) && r is Some ==> r->0.entry == entry && r->0.children@.len() == 0,
{
}

} // verus!
