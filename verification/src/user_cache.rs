use vstd::prelude::*;
use std::collections::HashMap;
use crate::text::{chars_of, split_on, split_str, string_views};
use crate::numbers::{decimal, decimal_string, digits_value, digits_value_up_to, is_digit};

verus! {

broadcast use vstd::std_specs::hash::group_hash_axioms;

/// What `str::parse::<u32>` gives: an optional `+` and then one or more
/// ASCII digits whose value fits in `u32`; nothing else parses.
pub open spec fn parse_u32_spec(s: Seq<char>) -> Option<u32> {
    let d = unsigned_digits(s);
    if d.len() == 0 || !all_digits(d) {
        None
    } else if digits_value(d) > u32::MAX {
        None
    } else {
        Some(digits_value(d) as u32)
    }
}

/// The text after an optional leading `+`.
pub open spec fn unsigned_digits(s: Seq<char>) -> Seq<char> {
    if s.len() > 0 && s[0] == '+' {
        s.drop_first()
    } else {
        s
    }
}

/// Whether every character is an ASCII digit.
pub open spec fn all_digits(d: Seq<char>) -> bool {
    forall|i: int| 0 <= i < d.len() ==> is_digit(#[trigger] d[i])
}

/// Parses a `u32` as `str::parse::<u32>` does.
pub fn parse_u32(s: &str) -> (r: Option<u32>)
    ensures
        r == parse_u32_spec(s@),
{
    let v = chars_of(s);
    let start: usize = if v.len() > 0 && v[0] == '+' {
        1
    } else {
        0
    };
    let ghost d = v@.skip(start as int);
    assert(d =~= unsigned_digits(v@));
    if start == v.len() {
        return None;
    }
    let mut i: usize = start;
    while i < v.len()
        invariant
            start <= i <= v.len(),
            d == v@.skip(start as int),
            v@ == s@,
            d == unsigned_digits(s@),
            forall|j: int| start <= j < i ==> is_digit(#[trigger] v@[j]),
        decreases v.len() - i,
    {
        if !('0' <= v[i] && v[i] <= '9') {
            assert(d[i - start] == v@[i as int]);
            assert(!is_digit(d[i - start]));
            assert(!all_digits(d));
            return None;
        }
        i = i + 1;
    }
    assert forall|j: int| 0 <= j < d.len() implies is_digit(#[trigger] d[j]) by {
        assert(d[j] == v@[j + start]);
    }
    assert(v@.subrange(start as int, v.len() as int) =~= d);
    match digits_value_up_to(&v, start, v.len(), 0xffff_ffff) {
        Some(x) => Some(x as u32),
        None => None,
    }
}

/// The name-by-id table that lines of `/etc/passwd` or `/etc/group` give:
/// each line whose third `:`-separated field parses as an id maps that id
/// to the line's first field; a later line wins over an earlier one.
pub open spec fn id_table(lines: Seq<Seq<char>>) -> Map<u32, Seq<char>>
    decreases lines.len(),
{
    if lines.len() == 0 {
        Map::empty()
    } else {
        let m = id_table(lines.drop_last());
        let parts = split_on(lines.last(), ':');
        if parts.len() >= 3 && parse_u32_spec(parts[2]) is Some {
            m.insert(parse_u32_spec(parts[2])->0, parts[0])
        } else {
            m
        }
    }
}

/// The names of a map's values.
pub open spec fn name_views(m: Map<u32, String>) -> Map<u32, Seq<char>> {
    Map::new(|k: u32| m.contains_key(k), |k: u32| m[k]@)
}

/// User and group names by numeric id.
pub struct UserCache {
    users: HashMap<u32, String>,
    groups: HashMap<u32, String>,
}

fn table_from_lines(lines: &Vec<String>) -> (m: HashMap<u32, String>)
    ensures
        name_views(m@) == id_table(string_views(lines@)),
{
    let mut m: HashMap<u32, String> = HashMap::new();
    let mut i: usize = 0;
    assert(string_views(lines@).take(0) =~= Seq::<Seq<char>>::empty());
    assert(name_views(m@) =~= Map::<u32, Seq<char>>::empty());
    while i < lines.len()
        invariant
            i <= lines.len(),
            name_views(m@) == id_table(string_views(lines@).take(i as int)),
        decreases lines.len() - i,
    {
        let ghost views = string_views(lines@);
        assert(views.take(i + 1).drop_last() =~= views.take(i as int));
        assert(views.take(i + 1).last() == lines@[i as int]@);
        let parts = split_str(lines[i].as_str(), ':');
        if parts.len() >= 3 {
            assert(string_views(parts@)[2] == parts@[2]@);
            match parse_u32(parts[2].as_str()) {
                Some(id) => {
                    let ghost before = m@;
                    m.insert(id, parts[0].clone());
                    assert(string_views(parts@)[0] == parts@[0]@);
                    assert(name_views(m@) =~= name_views(before).insert(id, parts@[0]@));
                },
                None => {},
            }
        }
        i = i + 1;
    }
    assert(string_views(lines@).take(lines.len() as int) =~= string_views(lines@));
    m
}

impl UserCache {
    /// A cache built from the lines of the user database (`/etc/passwd`)
    /// and the group database (`/etc/group`).
    pub fn new(passwd_lines: &Vec<String>, group_lines: &Vec<String>) -> (r: Self)
        ensures
            r.users() == id_table(string_views(passwd_lines@)),
            r.groups() == id_table(string_views(group_lines@)),
    {
        UserCache { users: table_from_lines(passwd_lines), groups: table_from_lines(group_lines) }
    }

    /// The user names by id.
    pub closed spec fn users(&self) -> Map<u32, Seq<char>> {
        name_views(self.users@)
    }

    /// The group names by id.
    pub closed spec fn groups(&self) -> Map<u32, Seq<char>> {
        name_views(self.groups@)
    }

    /// The name of user `uid`, or the id in decimal when it has none.
    pub fn get_user(&self, uid: u32) -> (r: String)
        ensures
            r@ == name_or_id(self.users(), uid),
    {
        match self.users.get(&uid) {
            Some(name) => name.clone(),
            None => decimal_string(uid as u64),
        }
    }

    /// The name of group `gid`, or the id in decimal when it has none.
    pub fn get_group(&self, gid: u32) -> (r: String)
        ensures
            r@ == name_or_id(self.groups(), gid),
    {
        match self.groups.get(&gid) {
            Some(name) => name.clone(),
            None => decimal_string(gid as u64),
        }
    }
}

/// The name that `table` holds for `id`, or `id` in decimal.
pub open spec fn name_or_id(table: Map<u32, Seq<char>>, id: u32) -> Seq<char> {
    if table.contains_key(id) {
        table[id]
    } else {
        decimal(id as nat)
    }
}

/// The name of user `uid` in `cache`, or the id in decimal.
pub fn get_username(cache: &UserCache, uid: u32) -> (r: String)
    ensures
        r@ == name_or_id(cache.users(), uid),
{
    cache.get_user(uid)
}

/// The name of group `gid` in `cache`, or the id in decimal.
pub fn get_groupname(cache: &UserCache, gid: u32) -> (r: String)
    ensures
        r@ == name_or_id(cache.groups(), gid),
{
    cache.get_group(gid)
}

} // verus!
