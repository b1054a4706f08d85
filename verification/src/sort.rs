use vstd::prelude::*;
use crate::text::{compare_str, lex_order, lemma_lex_order_flip, lemma_lex_order_trans, lowercase, to_lowercase, int_order, Order};
use crate::entry::{name_extension, FileEntry};

verus! {

/// Whether three outcomes of comparing a with b, b with c and a with c are
/// consistent with a transitive order.
pub open spec fn transitive_outcomes(ab: Order, bc: Order, ac: Order) -> bool {
    (ab != Order::Greater && bc != Order::Greater) ==> (ac != Order::Greater && ((ab
        == Order::Less || bc == Order::Less) ==> ac == Order::Less))
}

/// A comparison that is a total preorder on `T`: swapping the operands flips
/// the outcome, and it is transitive.
pub trait TotalPreorder<T> {
    spec fn order(&self, a: T, b: T) -> Order;

    proof fn lemma_flip(&self, a: T, b: T)
        ensures
            self.order(a, b) == self.order(b, a).flip(),
    ;

    proof fn lemma_trans(&self, a: T, b: T, c: T)
        ensures
            transitive_outcomes(self.order(a, b), self.order(b, c), self.order(a, c)),
    ;

    fn compare(&self, a: &T, b: &T) -> (r: Order)
        ensures
            r == self.order(*a, *b),
    ;
}

/// `p` rearranges the positions `0..n`: a bijection on them.
pub open spec fn is_permutation(p: Seq<int>, n: nat) -> bool {
    &&& p.len() == n
    &&& forall|i: int| 0 <= i < n ==> 0 <= #[trigger] p[i] < n
    &&& forall|i: int, j: int| 0 <= i < n && 0 <= j < n && i != j ==> #[trigger] p[i] != #[trigger] p[j]
}

/// `s` is in order: no element is greater than one after it.
pub open spec fn sorted_by<T, C: TotalPreorder<T>>(c: &C, s: Seq<T>) -> bool {
    forall|i: int, j: int| 0 <= i < j < s.len() ==> c.order(#[trigger] s[i], #[trigger] s[j]) != Order::Greater
}

/// `after` is `before` rearranged by the positions `p` into order, and
/// elements that compare equal keep the order they had in `before`.
pub open spec fn stably_sorted_by<T, C: TotalPreorder<T>>(c: &C, before: Seq<T>, after: Seq<T>, p: Seq<int>) -> bool {
    &&& after.len() == before.len()
    &&& is_permutation(p, before.len())
    &&& forall|i: int| 0 <= i < after.len() ==> #[trigger] after[i] == before[p[i]]
    &&& sorted_by(c, after)
    &&& forall|i: int, j: int| 0 <= i < j < after.len() && c.order(#[trigger] after[i], #[trigger] after[j]) == Order::Equal ==> p[i] < p[j]
}

/// `after` is the stable sort of `before`.
pub open spec fn is_stable_sort_of<T, C: TotalPreorder<T>>(c: &C, before: Seq<T>, after: Seq<T>) -> bool {
    exists|p: Seq<int>| stably_sorted_by(c, before, after, p)
}

/// A rearrangement of the positions `0..n` reaches every one of them.
pub proof fn lemma_permutation_onto(p: Seq<int>, n: nat, k: int)
    requires
        is_permutation(p, n),
        0 <= k < n,
    ensures
        exists|i: int| 0 <= i < n && p[i] == k,
{
    let range = vstd::set_lib::set_int_range(0, n as int);
    assert(p.no_duplicates());
    p.unique_seq_to_set();
    vstd::set_lib::lemma_int_range(0, n as int);
    assert(p.to_set().subset_of(range)) by {
        assert forall|x: int| p.to_set().contains(x) implies range.contains(x) by {
            assert(p.contains(x));
        }
    }
    vstd::seq_lib::seq_to_set_is_finite(p);
    vstd::set_lib::lemma_subset_equality(p.to_set(), range);
    assert(range.contains(k));
    assert(p.to_set().contains(k));
    assert(p.contains(k));
}

proof fn lemma_stable_sorts_agree<T, C: TotalPreorder<T>>(
    c: &C,
    before: Seq<T>,
    a1: Seq<T>,
    a2: Seq<T>,
    p: Seq<int>,
    q: Seq<int>,
    i: int,
)
    requires
        stably_sorted_by(c, before, a1, p),
        stably_sorted_by(c, before, a2, q),
        0 <= i <= before.len(),
    ensures
        forall|t: int| 0 <= t < i ==> #[trigger] p[t] == q[t],
    decreases i,
{
    if i > 0 {
        let k = i - 1;
        lemma_stable_sorts_agree(c, before, a1, a2, p, q, k);
        let n = before.len();
        let a = p[k];
        let b = q[k];
        if a != b {
            lemma_permutation_onto(p, n, b);
            lemma_permutation_onto(q, n, a);
            let j = choose|j: int| 0 <= j < n && p[j] == b;
            let jj = choose|j: int| 0 <= j < n && q[j] == a;
            if j < k {
                assert(q[j] == b);
            }
            if jj < k {
                assert(p[jj] == a);
            }
            assert(k < j && k < jj);
            assert(a1[k] == before[a] && a1[j] == before[b]);
            assert(a2[k] == before[b] && a2[jj] == before[a]);
            c.lemma_flip(before[a], before[b]);
            assert(c.order(a1[k], a1[j]) != Order::Greater);
            assert(c.order(a2[k], a2[jj]) != Order::Greater);
        }
    }
}

/// A stable sort's result is determined by its input: two listings that are
/// each a stable sort of the same sequence by the same comparison are equal.
/// Every stable sort, `slice::sort_by` among them, thus gives what
/// `stable_sort` gives.
pub proof fn lemma_stable_sort_unique<T, C: TotalPreorder<T>>(
    c: &C,
    before: Seq<T>,
    a1: Seq<T>,
    a2: Seq<T>,
)
    requires
        is_stable_sort_of(c, before, a1),
        is_stable_sort_of(c, before, a2),
    ensures
        a1 == a2,
{
    let p = choose|p: Seq<int>| stably_sorted_by(c, before, a1, p);
    let q = choose|q: Seq<int>| stably_sorted_by(c, before, a2, q);
    lemma_stable_sorts_agree(c, before, a1, a2, p, q, before.len() as int);
    assert forall|i: int| 0 <= i < a1.len() implies a1[i] == a2[i] by {
        assert(p[i] == q[i]);
    }
    assert(a1 =~= a2);
}

/// Sorting twice changes nothing: the stable sort of a sorted listing is
/// that listing.
pub proof fn lemma_sort_idempotent<T, C: TotalPreorder<T>>(
    c: &C,
    before: Seq<T>,
    once: Seq<T>,
    twice: Seq<T>,
)
    requires
        is_stable_sort_of(c, before, once),
        is_stable_sort_of(c, once, twice),
    ensures
        twice == once,
{
    let id = Seq::new(once.len(), |k: int| k);
    assert(stably_sorted_by(c, once, once, id));
    lemma_stable_sort_unique(c, once, once, twice);
}

/// A value that can be copied exactly.
pub trait Duplicate: Sized {
    fn duplicate(&self) -> (r: Self)
        ensures
            r == *self,
    ;
}

/// Position `x` of `b` goes before position `y` in a stable sort: its
/// element compares less, or equal with `x` the earlier position.
pub open spec fn goes_before<T, C: TotalPreorder<T>>(c: &C, b: Seq<T>, x: int, y: int) -> bool {
    c.order(b[x], b[y]) == Order::Less || (c.order(b[x], b[y]) == Order::Equal && x < y)
}

/// The positions `q` are in stable-sort order of `b`, each before the next.
pub open spec fn runs_before<T, C: TotalPreorder<T>>(c: &C, b: Seq<T>, q: Seq<usize>) -> bool {
    forall|i: int, j: int| 0 <= i < j < q.len() ==> goes_before(c, b, #[trigger] q[i] as int, #[trigger] q[j] as int)
}

/// Every position in `q` lies in `lo..hi`.
pub open spec fn within<T>(q: Seq<usize>, lo: int, hi: int) -> bool {
    forall|i: int| 0 <= i < q.len() ==> lo <= #[trigger] q[i] < hi
}

proof fn lemma_goes_before_trans<T, C: TotalPreorder<T>>(c: &C, b: Seq<T>, x: int, y: int, z: int)
    requires
        goes_before(c, b, x, y),
        goes_before(c, b, y, z),
    ensures
        goes_before(c, b, x, z),
{
    c.lemma_trans(b[x], b[y], b[z]);
}

proof fn lemma_goes_before_total<T, C: TotalPreorder<T>>(c: &C, b: Seq<T>, x: int, y: int)
    ensures
        x != y ==> (goes_before(c, b, x, y) || goes_before(c, b, y, x)),
        !goes_before(c, b, x, x),
{
    c.lemma_flip(b[x], b[y]);
    c.lemma_flip(b[x], b[x]);
}

/// Whether position `x` goes before position `y` (see `goes_before`).
fn before_at<T, C: TotalPreorder<T>>(c: &C, b: &[T], x: usize, y: usize) -> (r: bool)
    requires
        x < b@.len(),
        y < b@.len(),
    ensures
        r == goes_before(c, b@, x as int, y as int),
{
    match c.compare(&b[x], &b[y]) {
        Order::Less => true,
        Order::Equal => x < y,
        Order::Greater => false,
    }
}

/// Merges two runs of positions in stable-sort order, the first all below
/// `mid`, the second all at or above it.
fn merge_runs<T, C: TotalPreorder<T>>(
    c: &C,
    b: &[T],
    left: &Vec<usize>,
    right: &Vec<usize>,
    lo: usize,
    mid: usize,
    hi: usize,
) -> (r: Vec<usize>)
    requires
        lo <= mid <= hi <= b@.len(),
        runs_before(c, b@, left@),
        runs_before(c, b@, right@),
        within::<T>(left@, lo as int, mid as int),
        within::<T>(right@, mid as int, hi as int),
    ensures
        r@.len() == left@.len() + right@.len(),
        runs_before(c, b@, r@),
        within::<T>(r@, lo as int, hi as int),
{
    let mut out: Vec<usize> = Vec::new();
    let mut i: usize = 0;
    let mut j: usize = 0;
    while i < left.len() || j < right.len()
        invariant
            lo <= mid <= hi <= b@.len(),
            runs_before(c, b@, left@),
            runs_before(c, b@, right@),
            within::<T>(left@, lo as int, mid as int),
            within::<T>(right@, mid as int, hi as int),
            i <= left@.len(),
            j <= right@.len(),
            out@.len() == i + j,
            runs_before(c, b@, out@),
            within::<T>(out@, lo as int, hi as int),
            forall|k: int, m: int| 0 <= k < out@.len() && i <= m < left@.len() ==> goes_before(c, b@, #[trigger] out@[k] as int, #[trigger] left@[m] as int),
            forall|k: int, m: int| 0 <= k < out@.len() && j <= m < right@.len() ==> goes_before(c, b@, #[trigger] out@[k] as int, #[trigger] right@[m] as int),
        decreases left@.len() + right@.len() - i - j,
    {
        let take_left = if i < left.len() && j < right.len() {
            !before_at(c, b, right[j], left[i])
        } else {
            i < left.len()
        };
        let x = if take_left {
            left[i]
        } else {
            right[j]
        };
        proof {
            let xi = x as int;
            if take_left {
                if j < right@.len() {
                    lemma_goes_before_total(c, b@, xi, right@[j as int] as int);
                }
                assert forall|m: int| i < m < left@.len() implies goes_before(c, b@, xi, #[trigger] left@[m] as int) by {}
                assert forall|m: int| j <= m < right@.len() implies goes_before(c, b@, xi, #[trigger] right@[m] as int) by {
                    if m > j {
                        lemma_goes_before_trans(c, b@, xi, right@[j as int] as int, right@[m] as int);
                    }
                }
            } else {
                assert forall|m: int| i <= m < left@.len() implies goes_before(c, b@, xi, #[trigger] left@[m] as int) by {
                    if m > i {
                        lemma_goes_before_trans(c, b@, xi, left@[i as int] as int, left@[m] as int);
                    }
                }
                assert forall|m: int| j < m < right@.len() implies goes_before(c, b@, xi, #[trigger] right@[m] as int) by {}
            }
        }
        let ghost before_push = out@;
        out.push(x);
        if take_left {
            i = i + 1;
        } else {
            j = j + 1;
        }
        proof {
            assert forall|k: int, m: int| 0 <= k < m < out@.len() implies goes_before(c, b@, #[trigger] out@[k] as int, #[trigger] out@[m] as int) by {
                if m < out@.len() - 1 {
                    assert(out@[k] == before_push[k] && out@[m] == before_push[m]);
                } else {
                    assert(out@[k] == before_push[k]);
                    if take_left {
                        assert(goes_before(c, b@, before_push[k] as int, left@[i - 1] as int));
                    } else {
                        assert(goes_before(c, b@, before_push[k] as int, right@[j - 1] as int));
                    }
                }
            }
            assert forall|k: int, m: int| 0 <= k < out@.len() && i <= m < left@.len() implies goes_before(c, b@, #[trigger] out@[k] as int, #[trigger] left@[m] as int) by {
                if k < out@.len() - 1 {
                    assert(out@[k] == before_push[k]);
                }
            }
            assert forall|k: int, m: int| 0 <= k < out@.len() && j <= m < right@.len() implies goes_before(c, b@, #[trigger] out@[k] as int, #[trigger] right@[m] as int) by {
                if k < out@.len() - 1 {
                    assert(out@[k] == before_push[k]);
                }
            }
            assert forall|k: int| 0 <= k < out@.len() implies lo <= #[trigger] out@[k] < hi by {
                if k < out@.len() - 1 {
                    assert(out@[k] == before_push[k]);
                }
            }
        }
    }
    out
}

/// The positions `lo..hi` of `b` in stable-sort order, by merging halves.
fn sorted_positions<T, C: TotalPreorder<T>>(c: &C, b: &[T], lo: usize, hi: usize) -> (r: Vec<usize>)
    requires
        lo <= hi <= b@.len(),
    ensures
        r@.len() == hi - lo,
        runs_before(c, b@, r@),
        within::<T>(r@, lo as int, hi as int),
    decreases hi - lo,
{
    if hi - lo <= 1 {
        let mut r: Vec<usize> = Vec::new();
        if hi - lo == 1 {
            r.push(lo);
        }
        r
    } else {
        let mid = lo + (hi - lo) / 2;
        let left = sorted_positions(c, b, lo, mid);
        let right = sorted_positions(c, b, mid, hi);
        merge_runs(c, b, &left, &right, lo, mid, hi)
    }
}

/// Sorts `v` stably by `c`, by merging: the positions are put in order
/// first, then the elements are placed by them.
pub fn stable_sort<T: Duplicate, C: TotalPreorder<T>>(c: &C, v: &mut [T])
    ensures
        is_stable_sort_of(c, old(v)@, final(v)@),
{
    let n = v.len();
    let ghost orig = v@;
    let order = sorted_positions(c, v, 0, n);
    let mut placed: Vec<T> = Vec::new();
    let mut k: usize = 0;
    while k < n
        invariant
            k <= n,
            n == orig.len(),
            v@ == orig,
            order@.len() == n,
            within::<T>(order@, 0, n as int),
            placed@.len() == k,
            forall|m: int| 0 <= m < k ==> #[trigger] placed@[m] == orig[order@[m] as int],
        decreases n - k,
    {
        assert(order@[k as int] < n);
        placed.push(v[order[k]].duplicate());
        k = k + 1;
    }
    let mut k: usize = 0;
    while k < n
        invariant
            k <= n,
            n == orig.len(),
            v@.len() == n,
            placed@.len() == n,
            forall|m: int| 0 <= m < n ==> #[trigger] placed@[m] == orig[order@[m] as int],
            forall|m: int| 0 <= m < k ==> #[trigger] v@[m] == placed@[m],
        decreases n - k,
    {
        v[k] = placed[k].duplicate();
        k = k + 1;
    }
    proof {
        let p = Seq::new(n as nat, |m: int| order@[m] as int);
        assert forall|i: int, j: int| 0 <= i < n && 0 <= j < n && i != j implies #[trigger] p[i] != #[trigger] p[j] by {
            if i < j {
                assert(goes_before(c, orig, order@[i] as int, order@[j] as int));
                lemma_goes_before_total(c, orig, p[i], p[i]);
            } else {
                assert(goes_before(c, orig, order@[j] as int, order@[i] as int));
                lemma_goes_before_total(c, orig, p[j], p[j]);
            }
        }
        assert forall|i: int, j: int| 0 <= i < j < v@.len() implies c.order(#[trigger] v@[i], #[trigger] v@[j]) != Order::Greater by {
            assert(goes_before(c, orig, order@[i] as int, order@[j] as int));
        }
        assert forall|i: int, j: int| 0 <= i < j < v@.len() && c.order(#[trigger] v@[i], #[trigger] v@[j]) == Order::Equal implies p[i] < p[j] by {
            assert(goes_before(c, orig, order@[i] as int, order@[j] as int));
        }
        assert(stably_sorted_by(c, orig, v@, p));
    }
}

/// Composing two transitive comparisons lexicographically (`or_else`) stays
/// transitive.
pub proof fn lemma_or_else_transitive(
    ab1: Order,
    bc1: Order,
    ac1: Order,
    ab2: Order,
    bc2: Order,
    ac2: Order,
)
    requires
        transitive_outcomes(ab1, bc1, ac1),
        transitive_outcomes(bc1.flip(), ab1.flip(), ac1.flip()),
        transitive_outcomes(ab2, bc2, ac2),
    ensures
        transitive_outcomes(ab1.or_else(ab2), bc1.or_else(bc2), ac1.or_else(ac2)),
{
}

/// The key by which entries are ordered.
#[derive(PartialEq, Eq, Structural, Clone, Copy, Debug)]
pub enum SortField {
    Name,
    Size,
    Time,
    Extension,
}

/// How a listing is ordered: by a field, possibly reversed, with directories
/// possibly kept before everything else.
#[derive(Clone, Copy, Debug)]
pub struct Sorter {
    pub field: SortField,
    pub reverse: bool,
    pub dirs_first: bool,
}

impl Default for Sorter {
    /// By name, not reversed, directories first.
    fn default() -> (r: Self)
        ensures
            r.field == SortField::Name,
            !r.reverse,
            r.dirs_first,
    {
        Sorter { field: SortField::Name, reverse: false, dirs_first: true }
    }
}

/// The lowercased extension of an entry's name; empty without one.
pub open spec fn extension_key(e: FileEntry) -> Seq<char> {
    match name_extension(e.name@) {
        Some(x) => lowercase(x),
        None => Seq::empty(),
    }
}

/// Absent times come before present ones; present ones in time order.
pub open spec fn time_order(a: Option<i128>, b: Option<i128>) -> Order {
    match (a, b) {
        (Some(x), Some(y)) => int_order(x as int, y as int),
        (Some(_), None) => Order::Greater,
        (None, Some(_)) => Order::Less,
        (None, None) => Order::Equal,
    }
}

/// The comparison of two entries by one field: names case-insensitively,
/// then exactly; sizes; times; extensions case-insensitively, then names
/// case-insensitively.
pub open spec fn field_order(field: SortField, a: FileEntry, b: FileEntry) -> Order {
    match field {
        SortField::Name => lex_order(lowercase(a.name@), lowercase(b.name@)).or_else(
            lex_order(a.name@, b.name@),
        ),
        SortField::Size => int_order(a.size as int, b.size as int),
        SortField::Time => time_order(a.modified, b.modified),
        SortField::Extension => lex_order(extension_key(a), extension_key(b)).or_else(
            lex_order(lowercase(a.name@), lowercase(b.name@)),
        ),
    }
}

/// The order of a sorted listing: with `dirs_first`, a directory comes
/// before a non-directory; otherwise by the field, flipped when `reverse`.
pub open spec fn entry_order(s: Sorter, a: FileEntry, b: FileEntry) -> Order {
    if s.dirs_first && a.is_dir != b.is_dir {
        if a.is_dir {
            Order::Less
        } else {
            Order::Greater
        }
    } else if s.reverse {
        field_order(s.field, a, b).flip()
    } else {
        field_order(s.field, a, b)
    }
}

proof fn lemma_field_order_flip(field: SortField, a: FileEntry, b: FileEntry)
    ensures
        field_order(field, a, b) == field_order(field, b, a).flip(),
{
    lemma_lex_order_flip(lowercase(a.name@), lowercase(b.name@));
    lemma_lex_order_flip(a.name@, b.name@);
    lemma_lex_order_flip(extension_key(a), extension_key(b));
}

proof fn lemma_lex_both_ways(x: Seq<char>, y: Seq<char>, z: Seq<char>)
    ensures
        transitive_outcomes(lex_order(x, y), lex_order(y, z), lex_order(x, z)),
        transitive_outcomes(
            lex_order(y, z).flip(),
            lex_order(x, y).flip(),
            lex_order(x, z).flip(),
        ),
{
    if lex_order(x, y) != Order::Greater && lex_order(y, z) != Order::Greater {
        lemma_lex_order_trans(x, y, z);
    }
    lemma_lex_order_flip(x, y);
    lemma_lex_order_flip(y, z);
    lemma_lex_order_flip(x, z);
    if lex_order(z, y) != Order::Greater && lex_order(y, x) != Order::Greater {
        lemma_lex_order_trans(z, y, x);
    }
}

proof fn lemma_field_order_trans(field: SortField, a: FileEntry, b: FileEntry, c: FileEntry)
    ensures
        transitive_outcomes(
            field_order(field, a, b),
            field_order(field, b, c),
            field_order(field, a, c),
        ),
{
    match field {
        SortField::Name => {
            lemma_lex_both_ways(lowercase(a.name@), lowercase(b.name@), lowercase(c.name@));
            lemma_lex_both_ways(a.name@, b.name@, c.name@);
            lemma_or_else_transitive(
                lex_order(lowercase(a.name@), lowercase(b.name@)),
                lex_order(lowercase(b.name@), lowercase(c.name@)),
                lex_order(lowercase(a.name@), lowercase(c.name@)),
                lex_order(a.name@, b.name@),
                lex_order(b.name@, c.name@),
                lex_order(a.name@, c.name@),
            );
        },
        SortField::Extension => {
            lemma_lex_both_ways(extension_key(a), extension_key(b), extension_key(c));
            lemma_lex_both_ways(lowercase(a.name@), lowercase(b.name@), lowercase(c.name@));
            lemma_or_else_transitive(
                lex_order(extension_key(a), extension_key(b)),
                lex_order(extension_key(b), extension_key(c)),
                lex_order(extension_key(a), extension_key(c)),
                lex_order(lowercase(a.name@), lowercase(b.name@)),
                lex_order(lowercase(b.name@), lowercase(c.name@)),
                lex_order(lowercase(a.name@), lowercase(c.name@)),
            );
        },
        _ => {},
    }
}

fn compare_lowercase(a: &str, b: &str) -> (r: Order)
    ensures
        r == lex_order(lowercase(a@), lowercase(b@)),
{
    let la = to_lowercase(a);
    let lb = to_lowercase(b);
    compare_str(la.as_str(), lb.as_str())
}

fn extension_key_of(e: &FileEntry) -> (r: String)
    ensures
        r@ == extension_key(*e),
{
    match e.extension() {
        Some(x) => to_lowercase(x.as_str()),
        None => String::new(),
    }
}

fn compare_u64(a: u64, b: u64) -> (r: Order)
    ensures
        r == int_order(a as int, b as int),
{
    if a < b {
        Order::Less
    } else if a == b {
        Order::Equal
    } else {
        Order::Greater
    }
}

fn compare_times(a: Option<i128>, b: Option<i128>) -> (r: Order)
    ensures
        r == time_order(a, b),
{
    match (a, b) {
        (Some(x), Some(y)) => if x < y {
            Order::Less
        } else if x == y {
            Order::Equal
        } else {
            Order::Greater
        },
        (Some(_), None) => Order::Greater,
        (None, Some(_)) => Order::Less,
        (None, None) => Order::Equal,
    }
}

impl TotalPreorder<FileEntry> for Sorter {
    open spec fn order(&self, a: FileEntry, b: FileEntry) -> Order {
        entry_order(*self, a, b)
    }

    proof fn lemma_flip(&self, a: FileEntry, b: FileEntry) {
        lemma_field_order_flip(self.field, a, b);
    }

    proof fn lemma_trans(&self, a: FileEntry, b: FileEntry, c: FileEntry) {
        lemma_field_order_trans(self.field, a, b, c);
        lemma_field_order_trans(self.field, c, b, a);
        lemma_field_order_flip(self.field, a, b);
        lemma_field_order_flip(self.field, b, c);
        lemma_field_order_flip(self.field, a, c);
    }

    fn compare(&self, a: &FileEntry, b: &FileEntry) -> (r: Order) {
        if self.dirs_first && a.is_dir != b.is_dir {
            return if a.is_dir {
                Order::Less
            } else {
                Order::Greater
            };
        }
        let ord = match self.field {
            SortField::Name => {
                let first = compare_lowercase(a.name.as_str(), b.name.as_str());
                if first == Order::Equal {
                    compare_str(a.name.as_str(), b.name.as_str())
                } else {
                    first
                }
            },
            SortField::Size => compare_u64(a.size, b.size),
            SortField::Time => compare_times(a.modified, b.modified),
            SortField::Extension => {
                let ka = extension_key_of(a);
                let kb = extension_key_of(b);
                let first = compare_str(ka.as_str(), kb.as_str());
                if first == Order::Equal {
                    compare_lowercase(a.name.as_str(), b.name.as_str())
                } else {
                    first
                }
            },
        };
        if self.reverse {
            ord.reverse()
        } else {
            ord
        }
    }
}

/// A directory to visit: its name and its path.
pub struct NamedPath {
    pub name: String,
    pub path: String,
}

impl Duplicate for NamedPath {
    fn duplicate(&self) -> (r: Self) {
        NamedPath { name: self.name.clone(), path: self.path.clone() }
    }
}

impl Duplicate for FileEntry {
    fn duplicate(&self) -> (r: Self) {
        self.clone()
    }
}

/// Orders named paths by their names, case-insensitively.
pub struct ByLowercaseName;

impl TotalPreorder<NamedPath> for ByLowercaseName {
    open spec fn order(&self, a: NamedPath, b: NamedPath) -> Order {
        lex_order(lowercase(a.name@), lowercase(b.name@))
    }

    proof fn lemma_flip(&self, a: NamedPath, b: NamedPath) {
        lemma_lex_order_flip(lowercase(a.name@), lowercase(b.name@));
    }

    proof fn lemma_trans(&self, a: NamedPath, b: NamedPath, c: NamedPath) {
        lemma_lex_both_ways(lowercase(a.name@), lowercase(b.name@), lowercase(c.name@));
    }

    fn compare(&self, a: &NamedPath, b: &NamedPath) -> (r: Order) {
        compare_lowercase(a.name.as_str(), b.name.as_str())
    }
}

/// Sorts directories to visit stably by name, case-insensitively.
pub fn sort_by_lowercase_name(items: &mut [NamedPath])
    ensures
        is_stable_sort_of(&ByLowercaseName, old(items)@, final(items)@),
{
    stable_sort(&ByLowercaseName, items);
}

impl Sorter {
    /// Sorts the entries stably in this sorter's order (`entry_order`).
    pub fn sort(&self, entries: &mut [FileEntry])
        ensures
            is_stable_sort_of(self, old(entries)@, final(entries)@),
    {
        stable_sort(self, entries);
    }
}

/// With directories first, a sorted listing holds every directory before
/// every other entry.
pub proof fn lemma_dirs_before_others(s: Sorter, before: Seq<FileEntry>, after: Seq<FileEntry>)
    requires
        s.dirs_first,
        is_stable_sort_of(&s, before, after),
    ensures
        forall|i: int, j: int|
            0 <= i < j < after.len() && (#[trigger] after[j]).is_dir ==> (#[trigger] after[i]).is_dir,
{
    let p = choose|p: Seq<int>| stably_sorted_by(&s, before, after, p);
    assert forall|i: int, j: int| 0 <= i < j < after.len() && (#[trigger] after[j]).is_dir implies (#[trigger] after[i]).is_dir by {
        assert(s.order(after[i], after[j]) != Order::Greater);
    }
}

/// Reversing a sorter flips the order of every two entries that
/// directories-first does not already separate, and leaves the order of those
/// it separates alone.
pub proof fn lemma_reverse_flips(s: Sorter, a: FileEntry, b: FileEntry)
    ensures
        !(s.dirs_first && a.is_dir != b.is_dir) ==> entry_order(
            Sorter { reverse: !s.reverse, ..s },
            a,
            b,
        ) == entry_order(s, a, b).flip(),
        (s.dirs_first && a.is_dir != b.is_dir) ==> entry_order(
            Sorter { reverse: !s.reverse, ..s },
            a,
            b,
        ) == entry_order(s, a, b),
{
    let o = field_order(s.field, a, b);
    assert(o.flip().flip() == o);
}

/// In a sorted listing, of two entries that directories-first does not
/// already separate, the earlier one does not come after the later one by
/// the sorter's field: sizes rise (fall when reversed); entries without a
/// time come first and times rise (the other way round when reversed);
/// names rise case-insensitively (fall when reversed).
pub proof fn lemma_sorted_by_field(s: Sorter, before: Seq<FileEntry>, after: Seq<FileEntry>, i: int, j: int)
    requires
        is_stable_sort_of(&s, before, after),
        0 <= i < j < after.len(),
        !(s.dirs_first && after[i].is_dir != after[j].is_dir),
    ensures
        s.field == SortField::Size ==> (if s.reverse {
            after[i].size >= after[j].size
        } else {
            after[i].size <= after[j].size
        }),
        s.field == SortField::Time && !s.reverse ==> (after[j].modified is None ==> after[i].modified is None)
            && (after[i].modified is Some && after[j].modified is Some ==> after[i].modified->0
            <= after[j].modified->0),
        s.field == SortField::Time && s.reverse ==> (after[i].modified is None ==> after[j].modified is None)
            && (after[i].modified is Some && after[j].modified is Some ==> after[i].modified->0
            >= after[j].modified->0),
        s.field == SortField::Name ==> (if s.reverse {
            lex_order(lowercase(after[i].name@), lowercase(after[j].name@)) != Order::Less
        } else {
            lex_order(lowercase(after[i].name@), lowercase(after[j].name@)) != Order::Greater
        }),
{
    let p = choose|p: Seq<int>| stably_sorted_by(&s, before, after, p);
    assert(s.order(after[i], after[j]) != Order::Greater);
}

} // verus!
