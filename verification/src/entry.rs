use vstd::prelude::*;
use crate::text::{chars_of, owned_text, push_char, string_from_chars, sub_chars};
use crate::user_cache::{name_or_id, UserCache};

verus! {

/// One file system entry, as the listing sees it.
///
/// `name` is the last component of `path` (empty where the path has none);
/// `modified` is the modification time in nanoseconds since the Unix epoch;
/// `mode`, `uid` and `gid` are the Unix permission bits and owner ids where
/// the platform has them.
pub struct FileEntry {
    pub path: String,
    pub name: String,
    pub is_dir: bool,
    pub is_file: bool,
    pub is_symlink: bool,
    pub size: u64,
    pub modified: Option<i128>,
    pub mode: Option<u32>,
    pub uid: Option<u32>,
    pub gid: Option<u32>,
}

impl Clone for FileEntry {
    fn clone(&self) -> (r: Self)
        ensures
            r == *self,
    {
        FileEntry {
            path: self.path.clone(),
            name: self.name.clone(),
            is_dir: self.is_dir,
            is_file: self.is_file,
            is_symlink: self.is_symlink,
            size: self.size,
            modified: self.modified,
            mode: self.mode,
            uid: self.uid,
            gid: self.gid,
        }
    }
}

/// The position of the last `c` in `s`, or -1.
pub open spec fn last_index_of(s: Seq<char>, c: char) -> int
    decreases s.len(),
{
    if s.len() == 0 {
        -1
    } else if s.last() == c {
        s.len() - 1
    } else {
        last_index_of(s.drop_last(), c)
    }
}

/// The extension of a file name, by the rule of `Path::extension`: the text
/// after the last `.`, where there is a `.` that is not the first character;
/// `..` has none.
pub open spec fn name_extension(name: Seq<char>) -> Option<Seq<char>> {
    let i = last_index_of(name, '.');
    if name == seq!['.', '.'] || i <= 0 {
        None
    } else {
        Some(name.skip(i + 1))
    }
}

/// The extension of a file name (`Path::extension` on the name).
pub fn extension_of(name: &str) -> (r: Option<String>)
    ensures
        match r {
            Some(e) => name_extension(name@) == Some(e@),
            None => name_extension(name@) is None,
        },
{
    let v = chars_of(name);
    let n = v.len();
    if n == 2 && v[0] == '.' && v[1] == '.' {
        assert(v@ =~= seq!['.', '.']);
        return None;
    }
    let mut i: usize = n;
    assert(v@.take(n as int) =~= v@);
    while i > 0 && v[i - 1] != '.'
        invariant
            i <= n,
            n == v@.len(),
            last_index_of(v@, '.') == last_index_of(v@.take(i as int), '.'),
        decreases i,
    {
        assert(v@.take(i as int).drop_last() =~= v@.take(i - 1));
        i = i - 1;
    }
    assert(v@.take(n as int) =~= v@);
    if i <= 1 {
        proof {
            if i == 1 {
                assert(v@.take(1).last() == '.');
            }
        }
        return None;
    }
    assert(v@.take(i as int).last() == '.');
    let ext = sub_chars(&v, i, n);
    assert(ext@ =~= v@.skip(i as int));
    Some(string_from_chars(&ext))
}

impl FileEntry {
    /// The extension of the entry's name (`Path::extension`).
    pub fn extension(&self) -> (r: Option<String>)
        ensures
            match r {
                Some(e) => name_extension(self.name@) == Some(e@),
                None => name_extension(self.name@) is None,
            },
    {
        extension_of(self.name.as_str())
    }

    /// `d` for a directory, `l` for a symbolic link, `-` otherwise.
    pub fn file_type_char(&self) -> (c: char)
        ensures
            c == (if self.is_dir {
                'd'
            } else if self.is_symlink {
                'l'
            } else {
                '-'
            }),
    {
        if self.is_dir {
            'd'
        } else if self.is_symlink {
            'l'
        } else {
            '-'
        }
    }

    /// The nine `rwx` characters of the permission bits (owner, group,
    /// others), or nine dashes where the mode is unknown.
    pub fn permissions_str(&self) -> (s: String)
        ensures
            s@ == permissions_text(self.mode),
    {
        let mut s = String::new();
        match self.mode {
            None => {
                let mut k: usize = 0;
                while k < 9
                    invariant
                        k <= 9,
                        s@ == Seq::new(k as nat, |i: int| '-'),
                    decreases 9 - k,
                {
                    push_char(&mut s, '-');
                    assert(s@ =~= Seq::new((k + 1) as nat, |i: int| '-'));
                    k = k + 1;
                }
            },
            Some(mode) => {
                push_char(&mut s, if mode & 0o400 != 0 { 'r' } else { '-' });
                push_char(&mut s, if mode & 0o200 != 0 { 'w' } else { '-' });
                push_char(&mut s, if mode & 0o100 != 0 { 'x' } else { '-' });
                push_char(&mut s, if mode & 0o040 != 0 { 'r' } else { '-' });
                push_char(&mut s, if mode & 0o020 != 0 { 'w' } else { '-' });
                push_char(&mut s, if mode & 0o010 != 0 { 'x' } else { '-' });
                push_char(&mut s, if mode & 0o004 != 0 { 'r' } else { '-' });
                push_char(&mut s, if mode & 0o002 != 0 { 'w' } else { '-' });
                push_char(&mut s, if mode & 0o001 != 0 { 'x' } else { '-' });
            },
        }
        assert(s@ =~= permissions_text(self.mode));
        s
    }

    /// The name of the entry's owner as `cache` knows it (the user id where
    /// it does not), `-` without an owner id.
    pub fn owner_name(&self, cache: &UserCache) -> (r: String)
        ensures
            r@ == owner_text(*self, *cache),
    {
        match self.uid {
            Some(u) => cache.get_user(u),
            None => {
                proof {
                    reveal_strlit("-");
                }
                owned_text("-")
            },
        }
    }

    /// The name of the entry's group as `cache` knows it (the group id where
    /// it does not), `-` without a group id.
    pub fn group_name(&self, cache: &UserCache) -> (r: String)
        ensures
            r@ == group_text(*self, *cache),
    {
        match self.gid {
            Some(g) => cache.get_group(g),
            None => {
                proof {
                    reveal_strlit("-");
                }
                owned_text("-")
            },
        }
    }
}

/// The owner of an entry by name (or id), `-` without an owner id.
pub open spec fn owner_text(e: FileEntry, cache: UserCache) -> Seq<char> {
    match e.uid {
        Some(u) => name_or_id(cache.users(), u),
        None => seq!['-'],
    }
}

/// The group of an entry by name (or id), `-` without a group id.
pub open spec fn group_text(e: FileEntry, cache: UserCache) -> Seq<char> {
    match e.gid {
        Some(g) => name_or_id(cache.groups(), g),
        None => seq!['-'],
    }
}

/// The character for one permission bit: `c` when the bit is set.
pub open spec fn perm_char(mode: u32, bit: u32, c: char) -> char {
    if mode & bit != 0 {
        c
    } else {
        '-'
    }
}

/// The `rwxrwxrwx` text of a mode, or nine dashes without one.
pub open spec fn permissions_text(mode: Option<u32>) -> Seq<char> {
    match mode {
        None => Seq::new(9, |i: int| '-'),
        Some(m) => seq![
            perm_char(m, 0o400, 'r'),
            perm_char(m, 0o200, 'w'),
            perm_char(m, 0o100, 'x'),
            perm_char(m, 0o040, 'r'),
            perm_char(m, 0o020, 'w'),
            perm_char(m, 0o010, 'x'),
            perm_char(m, 0o004, 'r'),
            perm_char(m, 0o002, 'w'),
            perm_char(m, 0o001, 'x'),
        ],
    }
}

/// The letter of permission character `k`: `r`, `w`, `x` for owner, group
/// and others in turn.
pub open spec fn rwx_letter(k: int) -> char {
    if k % 3 == 0 {
        'r'
    } else if k % 3 == 1 {
        'w'
    } else {
        'x'
    }
}

/// The permission text has nine characters; character `k` shows bit
/// `8 - k` of the mode (`0o400 >> k`): its `rwx` letter when the bit is set,
/// a dash when it is clear or the mode is unknown.
pub proof fn lemma_permission_bits(mode: Option<u32>)
    ensures
        permissions_text(mode).len() == 9,
        forall|k: int|
            0 <= k < 9 ==> #[trigger] permissions_text(mode)[k] == match mode {
                Some(m) => if (m >> ((8 - k) as u32)) & 1u32 == 1u32 {
                    rwx_letter(k)
                } else {
                    '-'
                },
                None => '-',
            },
{
    if let Some(m) = mode {
        assert((m & 0o400u32 != 0u32) == ((m >> 8u32) & 1u32 == 1u32)) by (bit_vector);
        assert((m & 0o200u32 != 0u32) == ((m >> 7u32) & 1u32 == 1u32)) by (bit_vector);
        assert((m & 0o100u32 != 0u32) == ((m >> 6u32) & 1u32 == 1u32)) by (bit_vector);
        assert((m & 0o040u32 != 0u32) == ((m >> 5u32) & 1u32 == 1u32)) by (bit_vector);
        assert((m & 0o020u32 != 0u32) == ((m >> 4u32) & 1u32 == 1u32)) by (bit_vector);
        assert((m & 0o010u32 != 0u32) == ((m >> 3u32) & 1u32 == 1u32)) by (bit_vector);
        assert((m & 0o004u32 != 0u32) == ((m >> 2u32) & 1u32 == 1u32)) by (bit_vector);
        assert((m & 0o002u32 != 0u32) == ((m >> 1u32) & 1u32 == 1u32)) by (bit_vector);
        assert((m & 0o001u32 != 0u32) == ((m >> 0u32) & 1u32 == 1u32)) by (bit_vector);
    }
}

} // verus!
