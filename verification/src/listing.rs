//! Listings: labelled byte counts, their orders, and the selection of the
//! largest.

use crate::error::Error;
use vstd::prelude::*;
use vstd::string::*;

verus! {

/// One line of a listing: a label and the bytes accounted to it.
#[derive(Debug)]
pub struct Entry {
    pub name: Vec<u8>,
    pub size: u64,
}

/// The labels of a listing, in order.
pub open spec fn labels(listing: Seq<Entry>) -> Seq<Seq<u8>> {
    listing.map_values(|e: Entry| e.name@)
}

/// `listing` names every key of `sizes` exactly once, each with its size.
pub open spec fn lists(listing: Seq<Entry>, sizes: Map<Seq<u8>, nat>) -> bool {
    &&& labels(listing).no_duplicates()
    &&& forall|k: Seq<u8>| labels(listing).contains(k) <==> sizes.contains_key(k)
    &&& forall|i: int|
        0 <= i < listing.len() ==> (#[trigger] listing[i]).size == sizes[listing[i].name@]
}

/// The key a listing is ordered by.
#[derive(Copy, Clone, Debug, PartialEq, Eq, Structural)]
pub enum SortBy {
    Name,
    Size,
}

impl SortBy {
    /// The key that a word names: `name` or `size`, and nothing else.
    pub open spec fn named(word: Seq<char>) -> Option<SortBy> {
        if word == "name"@ {
            Some(SortBy::Name)
        } else if word == "size"@ {
            Some(SortBy::Size)
        } else {
            None
        }
    }

    /// Reads a sort key. Any word but `name` and `size` is refused, and the
    /// error carries the word.
    pub fn from_str(s: &str) -> (parsed: Result<SortBy, Error>)
        ensures
            SortBy::named(s@).is_some() ==> parsed == Ok::<SortBy, Error>(
                SortBy::named(s@).unwrap(),
            ),
            SortBy::named(s@).is_none() ==> parsed.is_err() && parsed.unwrap_err() is InvalidSort
                && parsed.unwrap_err()->InvalidSort_0@ == s@,
    {
        let word = String::from_str(s);
        if word == String::from_str("name") {
            Ok(SortBy::Name)
        } else if word == String::from_str("size") {
            Ok(SortBy::Size)
        } else {
            Err(Error::InvalidSort(word))
        }
    }
}

/// Byte strings in dictionary order: `a` comes strictly before `b`.
pub open spec fn bytes_before(a: Seq<u8>, b: Seq<u8>) -> bool
    decreases a.len(),
{
    if b.len() == 0 {
        false
    } else if a.len() == 0 {
        true
    } else if a[0] != b[0] {
        a[0] < b[0]
    } else {
        bytes_before(a.skip(1), b.skip(1))
    }
}

/// Whether `a` must come before `b` in a listing ordered by `by`, upwards, or
/// downwards if `reverse` is set. Entries with equal keys are ordered neither
/// way.
pub open spec fn ordered_before(a: Entry, b: Entry, by: SortBy, reverse: bool) -> bool {
    match by {
        SortBy::Name => if reverse {
            bytes_before(b.name@, a.name@)
        } else {
            bytes_before(a.name@, b.name@)
        },
        SortBy::Size => if reverse {
            b.size < a.size
        } else {
            a.size < b.size
        },
    }
}

/// Whether the entry at index `p` of `listing` stands before the one at `q`
/// once the listing is sorted: by key, and among equal keys by position.
pub open spec fn ranks_before(
    listing: Seq<Entry>,
    p: int,
    q: int,
    by: SortBy,
    reverse: bool,
) -> bool {
    ordered_before(listing[p], listing[q], by, reverse) || (!ordered_before(
        listing[q],
        listing[p],
        by,
        reverse,
    ) && p < q)
}

/// `perm` holds `n` distinct indices below `n`.
pub open spec fn is_permutation(perm: Seq<int>, n: nat) -> bool {
    &&& perm.len() == n
    &&& forall|i: int| 0 <= i < n ==> 0 <= #[trigger] perm[i] < n
    &&& forall|i: int, j: int| 0 <= i < j < n ==> perm[i] != perm[j]
}

/// `sorted` holds the entries of `listing` in the order `perm` names them.
pub open spec fn arranged(sorted: Seq<Entry>, listing: Seq<Entry>, perm: Seq<int>) -> bool {
    &&& sorted.len() == listing.len()
    &&& is_permutation(perm, listing.len())
    &&& forall|i: int| 0 <= i < sorted.len() ==> #[trigger] sorted[i] == listing[perm[i]]
}

/// `sorted` is `listing` in order of `by`, entries with equal keys keeping
/// the order they had in `listing`.
pub open spec fn is_stable_sort(
    sorted: Seq<Entry>,
    listing: Seq<Entry>,
    by: SortBy,
    reverse: bool,
) -> bool {
    exists|perm: Seq<int>|
        #![trigger arranged(sorted, listing, perm)]
        arranged(sorted, listing, perm) && forall|i: int, j: int|
            0 <= i < j < perm.len() ==> ranks_before(
                listing,
                #[trigger] perm[i],
                #[trigger] perm[j],
                by,
                reverse,
            )
}

/// A listing as it is shown: as it stands, or back to front.
pub open spec fn shown(listing: Seq<Entry>, reverse: bool) -> Seq<Entry> {
    if reverse {
        listing.reverse()
    } else {
        listing
    }
}

/// `top` holds the `limit` largest entries of `listing`, or all of them if
/// there are fewer: largest first, or smallest of them first if `reverse` is
/// set. The flag decides how they are shown, never which are chosen.
pub open spec fn is_top(top: Seq<Entry>, listing: Seq<Entry>, limit: nat, reverse: bool) -> bool {
    exists|sorted: Seq<Entry>|
        #![trigger is_stable_sort(sorted, listing, SortBy::Size, true)]
        is_stable_sort(sorted, listing, SortBy::Size, true) && top == shown(
            sorted.take(
                if limit <= listing.len() {
                    limit as int
                } else {
                    listing.len() as int
                },
            ),
            reverse,
        )
}

/// No byte string comes before itself, and of two only one comes first.
pub proof fn lemma_bytes_before_asymmetric(a: Seq<u8>, b: Seq<u8>)
    ensures
        !(bytes_before(a, b) && bytes_before(b, a)),
    decreases a.len(),
{
    if a.len() > 0 && b.len() > 0 && a[0] == b[0] {
        lemma_bytes_before_asymmetric(a.skip(1), b.skip(1));
    }
}

/// If `a` does not come after `b`, nor `b` after `c`, then `a` does not come
/// after `c`.
pub proof fn lemma_bytes_before_chain(a: Seq<u8>, b: Seq<u8>, c: Seq<u8>)
    requires
        !bytes_before(b, a),
        !bytes_before(c, b),
    ensures
        !bytes_before(c, a),
    decreases a.len(),
{
    if a.len() > 0 && b.len() > 0 && c.len() > 0 && a[0] == b[0] && b[0] == c[0] {
        lemma_bytes_before_chain(a.skip(1), b.skip(1), c.skip(1));
    }
}

/// Two different byte strings are ordered one way or the other.
pub proof fn lemma_bytes_before_total(a: Seq<u8>, b: Seq<u8>)
    ensures
        a == b || bytes_before(a, b) || bytes_before(b, a),
    decreases a.len(),
{
    if a.len() > 0 && b.len() > 0 && a[0] == b[0] {
        lemma_bytes_before_total(a.skip(1), b.skip(1));
        if a.skip(1) == b.skip(1) {
            assert(a =~= seq![a[0]] + a.skip(1));
            assert(b =~= seq![b[0]] + b.skip(1));
        }
    } else if a.len() == 0 && b.len() == 0 {
        assert(a =~= b);
    }
}

/// The order of entries is asymmetric.
pub proof fn lemma_order_asymmetric(a: Entry, b: Entry, by: SortBy, reverse: bool)
    ensures
        !(ordered_before(a, b, by, reverse) && ordered_before(b, a, by, reverse)),
{
    lemma_bytes_before_asymmetric(a.name@, b.name@);
}

/// If `a` need not come after `b`, nor `b` after `c`, then `a` need not come
/// after `c`.
pub proof fn lemma_order_chain(a: Entry, b: Entry, c: Entry, by: SortBy, reverse: bool)
    requires
        !ordered_before(b, a, by, reverse),
        !ordered_before(c, b, by, reverse),
    ensures
        !ordered_before(c, a, by, reverse),
{
    if by == SortBy::Name {
        if reverse {
            lemma_bytes_before_chain(c.name@, b.name@, a.name@);
        } else {
            lemma_bytes_before_chain(a.name@, b.name@, c.name@);
        }
    }
}

/// Whether `a` comes strictly before `b` in dictionary order.
pub fn bytes_less(a: &Vec<u8>, b: &Vec<u8>) -> (less: bool)
    ensures
        less == bytes_before(a@, b@),
{
    let mut i: usize = 0;
    proof {
        assert(a@.skip(0) =~= a@);
        assert(b@.skip(0) =~= b@);
    }
    while i < a.len() && i < b.len() && a[i] == b[i]
        invariant
            i <= a.len(),
            i <= b.len(),
            bytes_before(a@, b@) == bytes_before(a@.skip(i as int), b@.skip(i as int)),
        decreases a.len() - i,
    {
        proof {
            assert(a@.skip(i as int).skip(1) =~= a@.skip(i + 1));
            assert(b@.skip(i as int).skip(1) =~= b@.skip(i + 1));
        }
        i = i + 1;
    }
    if i >= b.len() {
        false
    } else if i >= a.len() {
        true
    } else {
        a[i] < b[i]
    }
}

/// Whether `a` must come before `b` in a listing ordered by `by`.
pub fn comes_before(a: &Entry, b: &Entry, by: SortBy, reverse: bool) -> (before: bool)
    ensures
        before == ordered_before(*a, *b, by, reverse),
{
    match by {
        SortBy::Name => if reverse {
            bytes_less(&b.name, &a.name)
        } else {
            bytes_less(&a.name, &b.name)
        },
        SortBy::Size => if reverse {
            b.size < a.size
        } else {
            a.size < b.size
        },
    }
}

/// Where the element at `k` comes from when the element at `i` is taken out
/// and put back at `pos`.
spec fn moved_from(k: int, pos: int, i: int) -> int {
    if k < pos {
        k
    } else if k == pos {
        i
    } else if k <= i {
        k - 1
    } else {
        k
    }
}

proof fn lemma_moved<A>(s: Seq<A>, pos: int, i: int)
    requires
        0 <= pos <= i < s.len(),
    ensures
        s.remove(i).insert(pos, s[i]).len() == s.len(),
        forall|k: int|
            0 <= k < s.len() ==> #[trigger] s.remove(i).insert(pos, s[i])[k] == s[moved_from(
                k,
                pos,
                i,
            )],
{
}

/// Every index below `n` occurs in a permutation of `n` indices.
pub proof fn lemma_permutation_covers(perm: Seq<int>, n: nat, v: int)
    requires
        is_permutation(perm, n),
        0 <= v < n,
    ensures
        exists|i: int| 0 <= i < n && perm[i] == v,
{
    assert(perm.no_duplicates()) by {
        assert forall|i: int, j: int|
            0 <= i < perm.len() && 0 <= j < perm.len() && i != j implies perm[i] != perm[j] by {
            if i < j {
                assert(perm[i] != perm[j]);
            } else {
                assert(perm[j] != perm[i]);
            }
        }
    }
    perm.unique_seq_to_set();
    vstd::set_lib::lemma_int_range(0, n as int);
    let range = vstd::set_lib::set_int_range(0, n as int);
    assert(perm.to_set().subset_of(range)) by {
        assert forall|x: int| perm.to_set().contains(x) implies range.contains(x) by {
            let i = choose|i: int| 0 <= i < perm.len() && perm[i] == x;
            assert(0 <= perm[i] < n);
        }
    }
    vstd::set_lib::lemma_len_subset(perm.to_set(), range);
    vstd::set_lib::lemma_subset_equality(perm.to_set(), range);
    assert(range.contains(v));
    assert(perm.to_set().contains(v));
    assert(perm.contains(v));
}

proof fn lemma_orders_agree(
    first: Seq<int>,
    second: Seq<int>,
    listing: Seq<Entry>,
    by: SortBy,
    reverse: bool,
    upto: int,
)
    requires
        is_permutation(first, listing.len()),
        is_permutation(second, listing.len()),
        forall|i: int, j: int|
            0 <= i < j < first.len() ==> ranks_before(
                listing,
                #[trigger] first[i],
                #[trigger] first[j],
                by,
                reverse,
            ),
        forall|i: int, j: int|
            0 <= i < j < second.len() ==> ranks_before(
                listing,
                #[trigger] second[i],
                #[trigger] second[j],
                by,
                reverse,
            ),
        0 <= upto <= listing.len(),
    ensures
        forall|k: int| 0 <= k < upto ==> first[k] == second[k],
    decreases upto,
{
    if upto > 0 {
        let i = upto - 1;
        lemma_orders_agree(first, second, listing, by, reverse, i);
        if first[i] != second[i] {
            let n = listing.len();
            lemma_permutation_covers(second, n, first[i]);
            let j = choose|j: int| 0 <= j < n && second[j] == first[i];
            lemma_permutation_covers(first, n, second[i]);
            let k = choose|k: int| 0 <= k < n && first[k] == second[i];
            if j < i {
                assert(first[j] == second[j]);
                assert(first[j] != first[i]);
            }
            if k < i {
                assert(second[k] == first[k]);
                assert(second[k] != second[i]);
            }
            assert(i < j && i < k);
            assert(ranks_before(listing, first[i], first[k], by, reverse));
            assert(ranks_before(listing, second[i], second[j], by, reverse));
            lemma_order_asymmetric(listing[first[i]], listing[second[i]], by, reverse);
        }
    }
}

/// A listing has exactly one stable sort in each order.
pub proof fn lemma_stable_sort_unique(
    first: Seq<Entry>,
    second: Seq<Entry>,
    listing: Seq<Entry>,
    by: SortBy,
    reverse: bool,
)
    requires
        is_stable_sort(first, listing, by, reverse),
        is_stable_sort(second, listing, by, reverse),
    ensures
        first == second,
{
    let p = choose|perm: Seq<int>|
        #![trigger arranged(first, listing, perm)]
        arranged(first, listing, perm) && forall|i: int, j: int|
            0 <= i < j < perm.len() ==> ranks_before(
                listing,
                #[trigger] perm[i],
                #[trigger] perm[j],
                by,
                reverse,
            );
    let q = choose|perm: Seq<int>|
        #![trigger arranged(second, listing, perm)]
        arranged(second, listing, perm) && forall|i: int, j: int|
            0 <= i < j < perm.len() ==> ranks_before(
                listing,
                #[trigger] perm[i],
                #[trigger] perm[j],
                by,
                reverse,
            );
    lemma_orders_agree(p, q, listing, by, reverse, listing.len() as int);
    assert(first =~= second);
}

/// Sorting upwards and sorting downwards give each other's mirror image,
/// provided no two entries have equal keys.
pub proof fn lemma_orders_mirror(
    listing: Seq<Entry>,
    up: Seq<Entry>,
    down: Seq<Entry>,
    by: SortBy,
)
    requires
        is_stable_sort(up, listing, by, false),
        is_stable_sort(down, listing, by, true),
        forall|i: int, j: int|
            0 <= i < j < listing.len() ==> ordered_before(listing[i], listing[j], by, false)
                || ordered_before(listing[j], listing[i], by, false),
    ensures
        down == up.reverse(),
{
    let n = listing.len() as int;
    let p = choose|perm: Seq<int>|
        #![trigger arranged(up, listing, perm)]
        arranged(up, listing, perm) && forall|i: int, j: int|
            0 <= i < j < perm.len() ==> ranks_before(
                listing,
                #[trigger] perm[i],
                #[trigger] perm[j],
                by,
                false,
            );
    let q = p.reverse();
    let mirror = up.reverse();
    assert(arranged(mirror, listing, q));
    assert forall|i: int, j: int| 0 <= i < j < q.len() implies ranks_before(
        listing,
        #[trigger] q[i],
        #[trigger] q[j],
        by,
        true,
    ) by {
        let a = q[j];
        let b = q[i];
        assert(a == p[n - 1 - j] && b == p[n - 1 - i]);
        assert(ranks_before(listing, p[n - 1 - j], p[n - 1 - i], by, false));
        assert(a != b);
        if a < b {
            assert(ordered_before(listing[a], listing[b], by, false) || ordered_before(
                listing[b],
                listing[a],
                by,
                false,
            ));
        } else {
            assert(ordered_before(listing[b], listing[a], by, false) || ordered_before(
                listing[a],
                listing[b],
                by,
                false,
            ));
        }
        lemma_order_asymmetric(listing[a], listing[b], by, false);
    }
    assert(is_stable_sort(mirror, listing, by, true));
    lemma_stable_sort_unique(down, mirror, listing, by, true);
}

/// Sorting by size upwards and sorting by size downwards give each other's
/// mirror image, provided no two entries have the same size.
pub proof fn lemma_size_orders_mirror(listing: Seq<Entry>, up: Seq<Entry>, down: Seq<Entry>)
    requires
        is_stable_sort(up, listing, SortBy::Size, false),
        is_stable_sort(down, listing, SortBy::Size, true),
        forall|i: int, j: int|
            0 <= i < j < listing.len() ==> (#[trigger] listing[i]).size != (
            #[trigger] listing[j]).size,
    ensures
        down == up.reverse(),
{
    lemma_orders_mirror(listing, up, down, SortBy::Size);
}

/// Sorting by name upwards and sorting by name downwards give each other's
/// mirror image, provided no label occurs twice.
pub proof fn lemma_name_orders_mirror(listing: Seq<Entry>, up: Seq<Entry>, down: Seq<Entry>)
    requires
        is_stable_sort(up, listing, SortBy::Name, false),
        is_stable_sort(down, listing, SortBy::Name, true),
        labels(listing).no_duplicates(),
    ensures
        down == up.reverse(),
{
    assert forall|i: int, j: int| 0 <= i < j < listing.len() implies ordered_before(
        listing[i],
        listing[j],
        SortBy::Name,
        false,
    ) || ordered_before(listing[j], listing[i], SortBy::Name, false) by {
        lemma_bytes_before_total(listing[i].name@, listing[j].name@);
        assert(labels(listing)[i] == listing[i].name@);
        assert(labels(listing)[j] == listing[j].name@);
    }
    lemma_orders_mirror(listing, up, down, SortBy::Name);
}

/// The entries chosen are as many as were asked for, or all there are; no
/// entry left out is larger than one chosen; and showing them smallest first
/// shows the same entries back to front.
pub proof fn lemma_top_is_largest(
    listing: Seq<Entry>,
    limit: nat,
    largest_first: Seq<Entry>,
    smallest_first: Seq<Entry>,
)
    requires
        is_top(largest_first, listing, limit, false),
        is_top(smallest_first, listing, limit, true),
    ensures
        largest_first.len() == (if limit <= listing.len() {
            limit
        } else {
            listing.len()
        }),
        smallest_first == largest_first.reverse(),
        exists|sorted: Seq<Entry>|
            #![trigger is_stable_sort(sorted, listing, SortBy::Size, true)]
            is_stable_sort(sorted, listing, SortBy::Size, true) && largest_first == sorted.take(
                largest_first.len() as int,
            ) && forall|i: int, j: int|
                0 <= i < largest_first.len() <= j < sorted.len() ==> (#[trigger] sorted[i]).size
                    >= (#[trigger] sorted[j]).size,
{
    let k: int = if limit <= listing.len() {
        limit as int
    } else {
        listing.len() as int
    };
    let down = choose|sorted: Seq<Entry>|
        #![trigger is_stable_sort(sorted, listing, SortBy::Size, true)]
        is_stable_sort(sorted, listing, SortBy::Size, true) && largest_first == shown(
            sorted.take(k),
            false,
        );
    let up = choose|sorted: Seq<Entry>|
        #![trigger is_stable_sort(sorted, listing, SortBy::Size, true)]
        is_stable_sort(sorted, listing, SortBy::Size, true) && smallest_first == shown(
            sorted.take(k),
            true,
        );
    lemma_stable_sort_unique(down, up, listing, SortBy::Size, true);
    let p = choose|perm: Seq<int>|
        #![trigger arranged(down, listing, perm)]
        arranged(down, listing, perm) && forall|i: int, j: int|
            0 <= i < j < perm.len() ==> ranks_before(
                listing,
                #[trigger] perm[i],
                #[trigger] perm[j],
                SortBy::Size,
                true,
            );
    assert forall|i: int, j: int| 0 <= i < largest_first.len() <= j < down.len() implies (
    #[trigger] down[i]).size >= (#[trigger] down[j]).size by {
        assert(ranks_before(listing, p[i], p[j], SortBy::Size, true));
    }
}

/// Sorts a listing by `by`, upwards, or downwards if `reverse` is set.
/// Entries with equal keys keep the order they came in.
pub fn sort_entries(entries: Vec<Entry>, by: SortBy, reverse: bool) -> (sorted: Vec<Entry>)
    ensures
        is_stable_sort(sorted@, entries@, by, reverse),
{
    let mut v = entries;
    let ghost listing = v@;
    let ghost mut perm: Seq<int> = Seq::new(v@.len(), |k: int| k);
    let n = v.len();
    let mut i: usize = 0;
    while i < n
        invariant
            n == listing.len(),
            i <= n,
            arranged(v@, listing, perm),
            forall|k: int| i <= k < n ==> perm[k] == k,
            forall|k: int| 0 <= k < i ==> perm[k] < i,
            forall|a: int, b: int|
                0 <= a < b < i ==> ranks_before(
                    listing,
                    #[trigger] perm[a],
                    #[trigger] perm[b],
                    by,
                    reverse,
                ),
        decreases n - i,
    {
        let mut pos: usize = i;
        while pos > 0 && comes_before(&v[i], &v[pos - 1], by, reverse)
            invariant
                pos <= i < n,
                v@.len() == n,
                forall|k: int|
                    pos <= k < i ==> ordered_before(v@[i as int], #[trigger] v@[k], by, reverse),
            decreases pos,
        {
            pos = pos - 1;
        }
        let ghost before = v@;
        let ghost before_perm = perm;
        let e = v.remove(i);
        v.insert(pos, e);
        proof {
            perm = before_perm.remove(i as int).insert(pos as int, i as int);
            lemma_moved(before, pos as int, i as int);
            lemma_moved(before_perm, pos as int, i as int);
            assert(before_perm[i as int] == i);
            assert forall|k: int| 0 <= k < pos implies !ordered_before(
                before[i as int],
                #[trigger] before[k],
                by,
                reverse,
            ) by {
                if k < pos - 1 {
                    assert(ranks_before(
                        listing,
                        before_perm[k],
                        before_perm[pos - 1],
                        by,
                        reverse,
                    ));
                    lemma_order_asymmetric(before[k], before[pos - 1], by, reverse);
                    lemma_order_chain(before[k], before[pos - 1], before[i as int], by, reverse);
                }
            }
            assert forall|a: int, b: int| 0 <= a < b < i + 1 implies ranks_before(
                listing,
                #[trigger] perm[a],
                #[trigger] perm[b],
                by,
                reverse,
            ) by {
                let from_a = moved_from(a, pos as int, i as int);
                let from_b = moved_from(b, pos as int, i as int);
                assert(perm[a] == before_perm[from_a]);
                assert(perm[b] == before_perm[from_b]);
                assert(listing[perm[a]] == before[from_a]);
                assert(listing[perm[b]] == before[from_b]);
                if a == pos {
                    assert(ordered_before(before[i as int], before[from_b], by, reverse));
                } else if b == pos {
                    assert(!ordered_before(before[i as int], before[from_a], by, reverse));
                    assert(before_perm[from_a] < i);
                } else {
                    assert(from_a < from_b < i);
                    assert(ranks_before(
                        listing,
                        before_perm[from_a],
                        before_perm[from_b],
                        by,
                        reverse,
                    ));
                }
            }
            assert forall|a: int, b: int| 0 <= a < b < n implies perm[a] != perm[b] by {
                let from_a = moved_from(a, pos as int, i as int);
                let from_b = moved_from(b, pos as int, i as int);
                assert(perm[a] == before_perm[from_a]);
                assert(perm[b] == before_perm[from_b]);
                if from_a < from_b {
                    assert(before_perm[from_a] != before_perm[from_b]);
                } else {
                    assert(before_perm[from_b] != before_perm[from_a]);
                }
            }
            assert forall|k: int| 0 <= k < n implies #[trigger] v@[k] == listing[perm[k]] by {
                let from = moved_from(k, pos as int, i as int);
                assert(v@[k] == before[from]);
                assert(perm[k] == before_perm[from]);
            }
            assert forall|k: int| 0 <= k < n implies 0 <= #[trigger] perm[k] < n by {
                let from = moved_from(k, pos as int, i as int);
                assert(perm[k] == before_perm[from]);
            }
            assert forall|k: int| 0 <= k < i + 1 implies perm[k] < i + 1 by {
                let from = moved_from(k, pos as int, i as int);
                assert(perm[k] == before_perm[from]);
            }
            assert forall|k: int| i + 1 <= k < n implies perm[k] == k by {
                assert(perm[k] == before_perm[moved_from(k, pos as int, i as int)]);
            }
        }
        i = i + 1;
    }
    v
}

/// A listing back to front.
pub fn reversed(entries: Vec<Entry>) -> (mirror: Vec<Entry>)
    ensures
        mirror@ == entries@.reverse(),
{
    let mut rest = entries;
    let ghost listing = rest@;
    let mut mirror: Vec<Entry> = Vec::new();
    while rest.len() > 0
        invariant
            rest@.len() + mirror@.len() == listing.len(),
            rest@ == listing.subrange(0, rest@.len() as int),
            forall|j: int|
                0 <= j < mirror@.len() ==> #[trigger] mirror@[j] == listing[listing.len() - 1 - j],
        decreases rest.len(),
    {
        let last = rest.pop();
        match last {
            Some(e) => {
                mirror.push(e);
            },
            None => {},
        }
    }
    proof {
        assert(mirror@ =~= listing.reverse());
    }
    mirror
}

/// Chooses the `limit` largest entries of a listing, or all if there are
/// fewer, and hands them back largest first, or smallest of them first if
/// `reverse` is set. Of entries with equal sizes, those that came first in the
/// listing are preferred.
pub fn top_entries(entries: Vec<Entry>, limit: usize, reverse: bool) -> (top: Vec<Entry>)
    ensures
        is_top(top@, entries@, limit as nat, reverse),
{
    let mut sorted = sort_entries(entries, SortBy::Size, true);
    let ghost full = sorted@;
    sorted.truncate(limit);
    proof {
        let k: int = if limit <= full.len() {
            limit as int
        } else {
            full.len() as int
        };
        assert(sorted@ =~= full.take(k));
        assert(is_stable_sort(full, entries@, SortBy::Size, true));
    }
    if reverse {
        reversed(sorted)
    } else {
        sorted
    }
}

} // verus!
