//! Space used per file extension.
//!
//! An extension is the part of a file's name after its last dot. A name
//! without a dot has none, and neither has a name whose only dot comes first
//! (a hidden file such as `.profile`) nor the name `..`. A name that ends in a
//! dot has the empty extension, which is counted like any other.

use crate::listing::labels;
use crate::listing::lists;
use crate::listing::Entry;
use crate::tree::segments;
use ahash::AHashMap;
use ahash::RandomState;
use vstd::prelude::*;

verus! {

/// The hasher of an `AHashMap`; nothing is said of it.
#[verifier::external_type_specification]
#[verifier::external_body]
pub struct ExRandomState(RandomState);

/// The hash map of `ahash`. It is carried as it is; what a map of extension
/// totals holds is named by [`stored_totals`].
#[verifier::external_type_specification]
#[verifier::external_body]
#[verifier::reject_recursive_types(K)]
#[verifier::reject_recursive_types(V)]
#[verifier::reject_recursive_types(S)]
pub struct ExAHashMap<K, V, S>(AHashMap<K, V, S>);

/// What a map of extension totals holds: the byte count stored under each
/// extension. Two extensions are the same key when they are the same bytes.
pub uninterp spec fn stored_totals(totals: AHashMap<Vec<u8>, u64>) -> Map<Seq<u8>, u64>;

/// Calls `AHashMap::new`: a map that holds nothing.
#[verifier::external_body]
fn no_totals() -> (fresh: AHashMap<Vec<u8>, u64>)
    ensures
        stored_totals(fresh) == (Map::<Seq<u8>, u64>::empty()),
{
    AHashMap::new()
}

/// Calls `HashMap::entry` on the `AHashMap` (which derefs to the map of std,
/// with its own hasher) and `Entry::or_default`: hands out the total stored
/// under `extension`, after storing zero there if there was none. No other key
/// is touched, and whatever the caller then writes through the reference is
/// what the map holds under `extension`.
#[verifier::external_body]
fn total_entry<'a>(totals: &'a mut AHashMap<Vec<u8>, u64>, extension: &Vec<u8>) -> (total:
    &'a mut u64)
    ensures
        stored_totals(*old(totals)).contains_key(extension@) ==> *total == stored_totals(
            *old(totals),
        )[extension@],
        !stored_totals(*old(totals)).contains_key(extension@) ==> *total == 0,
        stored_totals(*final(totals)) == stored_totals(*old(totals)).insert(
            extension@,
            *final(total),
        ),
{
    totals.entry(extension.clone()).or_default()
}

/// Calls `HashMap::iter` on the `AHashMap`: every extension once, in an order
/// that is not specified, each with its total.
#[verifier::external_body]
fn total_pairs(totals: &AHashMap<Vec<u8>, u64>) -> (listing: Vec<Entry>)
    ensures
        labels(listing@).no_duplicates(),
        labels(listing@).to_set() == stored_totals(*totals).dom(),
        forall|i: int|
            0 <= i < listing@.len() ==> (#[trigger] listing@[i]).size == stored_totals(
                *totals,
            )[listing@[i].name@],
{
    totals.iter().map(|(name, size)| Entry { name: name.clone(), size: *size }).collect()
}

/// Index of the last dot in `name`, or -1 if it holds none.
pub open spec fn last_dot(name: Seq<u8>) -> int
    decreases name.len(),
{
    if name.len() == 0 {
        -1
    } else if name.last() == 46u8 {
        name.len() - 1
    } else {
        last_dot(name.drop_last())
    }
}

/// The extension of a file name.
pub open spec fn name_extension(name: Seq<u8>) -> Option<Seq<u8>> {
    if name == seq![46u8, 46u8] || last_dot(name) <= 0 {
        None
    } else {
        Some(name.skip(last_dot(name) + 1))
    }
}

/// The extension of the file at `path`: that of its last segment.
pub open spec fn extension_of(path: Seq<Seq<u8>>) -> Option<Seq<u8>> {
    if path.len() == 0 {
        None
    } else {
        name_extension(path.last())
    }
}

/// The totals after a file of `size` bytes with the given extension has been
/// counted. A file without extension changes nothing.
pub open spec fn with_extension(
    totals: Map<Seq<u8>, nat>,
    extension: Option<Seq<u8>>,
    size: nat,
) -> Map<Seq<u8>, nat> {
    match extension {
        Some(e) => totals.insert(
            e,
            (if totals.contains_key(e) {
                totals[e]
            } else {
                0nat
            }) + size,
        ),
        None => totals,
    }
}

/// The sum of all byte counts in a map.
pub open spec fn grand_total(totals: Map<Seq<u8>, nat>) -> nat {
    totals.dom().fold(0nat, |sum: nat, e: Seq<u8>| sum + totals[e])
}

/// `last_dot` finds a dot exactly where one is followed by no other.
pub proof fn lemma_last_dot(name: Seq<u8>, at: int)
    requires
        -1 <= at < name.len(),
        at >= 0 ==> name[at] == 46u8,
        forall|j: int| at < j < name.len() ==> name[j] != 46u8,
    ensures
        last_dot(name) == at,
    decreases name.len(),
{
    if name.len() > 0 && at != name.len() - 1 {
        lemma_last_dot(name.drop_last(), at);
    }
}

/// Two sums over one finite set agree when their terms agree on that set.
proof fn lemma_sum_agrees(keys: Set<Seq<u8>>, a: Map<Seq<u8>, nat>, b: Map<Seq<u8>, nat>)
    requires
        keys.finite(),
        forall|e: Seq<u8>| keys.contains(e) ==> a[e] == b[e],
    ensures
        keys.fold(0nat, |sum: nat, e: Seq<u8>| sum + a[e]) == keys.fold(
            0nat,
            |sum: nat, e: Seq<u8>| sum + b[e],
        ),
    decreases keys.len(),
{
    let fa = |sum: nat, e: Seq<u8>| sum + a[e];
    let fb = |sum: nat, e: Seq<u8>| sum + b[e];
    if keys.len() == 0 {
        assert(keys =~= Set::empty());
        vstd::set::fold::lemma_fold_empty(0nat, fa);
        vstd::set::fold::lemma_fold_empty(0nat, fb);
    } else {
        let e = keys.choose();
        let rest = keys.remove(e);
        lemma_sum_agrees(rest, a, b);
        assert(rest.insert(e) =~= keys);
        assert(vstd::set::fold::is_fun_commutative(fa));
        assert(vstd::set::fold::is_fun_commutative(fb));
        vstd::set::fold::lemma_fold_insert(rest, 0nat, fa, e);
        vstd::set::fold::lemma_fold_insert(rest, 0nat, fb, e);
    }
}

/// The sum splits into one total and the sum of the others.
proof fn lemma_sum_split(totals: Map<Seq<u8>, nat>, e: Seq<u8>)
    requires
        totals.dom().finite(),
        totals.contains_key(e),
    ensures
        grand_total(totals) == grand_total(totals.remove(e)) + totals[e],
{
    let f = |sum: nat, k: Seq<u8>| sum + totals[k];
    let rest = totals.dom().remove(e);
    assert(rest.insert(e) =~= totals.dom());
    assert(vstd::set::fold::is_fun_commutative(f));
    vstd::set::fold::lemma_fold_insert(rest, 0nat, f, e);
    assert(totals.remove(e).dom() =~= rest);
    lemma_sum_agrees(rest, totals, totals.remove(e));
}

/// No single total exceeds the sum of all.
pub proof fn lemma_total_bounded(totals: Map<Seq<u8>, nat>, e: Seq<u8>)
    requires
        totals.dom().finite(),
        totals.contains_key(e),
    ensures
        totals[e] <= grand_total(totals),
{
    lemma_sum_split(totals, e);
}

/// Counting a file with an extension raises the sum by the file's size;
/// counting one without leaves it as it was.
pub proof fn lemma_grand_total_grows(
    totals: Map<Seq<u8>, nat>,
    extension: Option<Seq<u8>>,
    size: nat,
)
    requires
        totals.dom().finite(),
    ensures
        with_extension(totals, extension, size).dom().finite(),
        grand_total(with_extension(totals, extension, size)) == grand_total(totals) + (
        if extension.is_some() {
            size
        } else {
            0nat
        }),
{
    if let Some(e) = extension {
        let after = with_extension(totals, extension, size);
        lemma_sum_split(after, e);
        assert(after.remove(e) =~= totals.remove(e));
        if totals.contains_key(e) {
            lemma_sum_split(totals, e);
        } else {
            assert(totals.remove(e) =~= totals);
        }
    }
}

/// The space used per extension, over all files counted so far.
pub struct ExtSizes {
    totals: AHashMap<Vec<u8>, u64>,
}

impl View for ExtSizes {
    type V = Map<Seq<u8>, nat>;

    /// The total of every extension seen so far.
    closed spec fn view(&self) -> Map<Seq<u8>, nat> {
        Map::new(
            |e: Seq<u8>| stored_totals(self.totals).contains_key(e),
            |e: Seq<u8>| stored_totals(self.totals)[e] as nat,
        )
    }
}

impl ExtSizes {
    /// Finitely many extensions have been seen.
    pub closed spec fn wf(&self) -> bool {
        stored_totals(self.totals).dom().finite()
    }

    /// Every total fits in 64 bits, and the view's extensions are finitely
    /// many.
    pub proof fn lemma_view(&self)
        requires
            self.wf(),
        ensures
            self@.dom().finite(),
            forall|e: Seq<u8>| self@.contains_key(e) ==> #[trigger] self@[e] <= u64::MAX,
    {
        assert(self@.dom() =~= stored_totals(self.totals).dom());
    }

    /// Nothing counted yet.
    pub fn new() -> (sizes: ExtSizes)
        ensures
            sizes.wf(),
            sizes@ == Map::<Seq<u8>, nat>::empty(),
    {
        let sizes = ExtSizes { totals: no_totals() };
        proof {
            assert(sizes@ =~= Map::<Seq<u8>, nat>::empty());
        }
        sizes
    }

    /// Counts a file of `size` bytes at `path` under its extension, if it has
    /// one.
    pub fn add_file(&mut self, path: &Vec<Vec<u8>>, size: u64)
        requires
            old(self).wf(),
            extension_of(segments(path@)).is_some() && old(self)@.contains_key(
                extension_of(segments(path@)).unwrap(),
            ) ==> old(self)@[extension_of(segments(path@)).unwrap()] + size <= u64::MAX,
        ensures
            final(self).wf(),
            final(self)@ == with_extension(
                old(self)@,
                extension_of(segments(path@)),
                size as nat,
            ),
    {
        match extension(path) {
            Some(found) => {
                let total = total_entry(&mut self.totals, &found);
                *total = *total + size;
                proof {
                    assert(self@ =~= with_extension(
                        old(self)@,
                        extension_of(segments(path@)),
                        size as nat,
                    ));
                }
            },
            None => {},
        }
    }

    /// Every extension seen so far, each once and in no particular order,
    /// with its total.
    pub fn entries(&self) -> (listing: Vec<Entry>)
        ensures
            lists(listing@, self@),
    {
        let listing = total_pairs(&self.totals);
        proof {
            assert forall|e: Seq<u8>| labels(listing@).contains(e) <==> self@.contains_key(e) by {
                assert(labels(listing@).to_set().contains(e) == labels(listing@).contains(e));
            }
            assert forall|i: int| 0 <= i < listing@.len() implies (#[trigger] listing@[i]).size
                == self@[listing@[i].name@] by {
                assert(labels(listing@)[i] == listing@[i].name@);
                assert(labels(listing@).to_set().contains(listing@[i].name@));
            }
        }
        listing
    }
}

/// The extension of the file at `path`, if it has one.
#[verifier::loop_isolation(false)]
pub fn extension(path: &Vec<Vec<u8>>) -> (found: Option<Vec<u8>>)
    ensures
        found.is_some() == extension_of(segments(path@)).is_some(),
        found.is_some() ==> found.unwrap()@ == extension_of(segments(path@)).unwrap(),
{
    if path.len() == 0 {
        return None;
    }
    let name = &path[path.len() - 1];
    assert(segments(path@).last() == name@);
    if name.len() == 2 && name[0] == 46 && name[1] == 46 {
        assert(name@ =~= seq![46u8, 46u8]);
        return None;
    }
    let mut i: usize = name.len();
    while i > 0
        invariant
            i <= name.len(),
            forall|j: int| i <= j < name.len() ==> name@[j] != 46u8,
        decreases i,
    {
        i = i - 1;
        if name[i] == 46 {
            proof {
                lemma_last_dot(name@, i as int);
            }
            if i == 0 {
                return None;
            }
            let mut found: Vec<u8> = Vec::new();
            let mut k: usize = i + 1;
            while k < name.len()
                invariant
                    i < k <= name.len(),
                    found@ == name@.subrange(i + 1, k as int),
                decreases name.len() - k,
            {
                found.push(name[k]);
                k = k + 1;
                proof {
                    assert(found@ =~= name@.subrange(i + 1, k as int));
                }
            }
            proof {
                assert(found@ =~= name@.skip(i + 1));
            }
            return Some(found);
        }
    }
    proof {
        lemma_last_dot(name@, -1);
    }
    None
}

} // verus!
