//! What a whole walk adds up to.
//!
//! The sizes and totals that a scan holds after a sequence of entries are
//! compared here with sums taken directly over that sequence.

use crate::extensions::extension_of;
use crate::extensions::grand_total;
use crate::extensions::lemma_grand_total_grows;
use crate::extensions::with_extension;
use crate::scan::sizes_with;
use crate::scan::totals_with;
use crate::scan::WalkEntry;
use crate::tree::charged;
use crate::tree::parent_dir;
use crate::tree::segments;
use crate::tree::with_dir;
use crate::tree::with_file;
use vstd::prelude::*;

verus! {

/// The sizes of a tree in which nothing has been counted.
pub open spec fn fresh_sizes() -> Map<Seq<Seq<u8>>, nat> {
    Map::<Seq<Seq<u8>>, nat>::empty().insert(Seq::empty(), 0nat)
}

/// The directory sizes after a new scan has recorded `entries` in order.
pub open spec fn sizes_after(entries: Seq<WalkEntry>) -> Map<Seq<Seq<u8>>, nat>
    decreases entries.len(),
{
    if entries.len() == 0 {
        fresh_sizes()
    } else {
        sizes_with(sizes_after(entries.drop_last()), entries.last())
    }
}

/// The extension totals after a new scan has recorded `entries` in order.
pub open spec fn totals_after(entries: Seq<WalkEntry>) -> Map<Seq<u8>, nat>
    decreases entries.len(),
{
    if entries.len() == 0 {
        Map::<Seq<u8>, nat>::empty()
    } else {
        totals_with(totals_after(entries.drop_last()), entries.last())
    }
}

/// The bytes an entry brings: a file's size, and nothing otherwise.
pub open spec fn file_bytes(entry: WalkEntry) -> nat {
    match entry {
        WalkEntry::File { size, .. } => size as nat,
        _ => 0nat,
    }
}

/// Whether `entry` is a file somewhere below the directory `dir`.
pub open spec fn is_file_below(entry: WalkEntry, dir: Seq<Seq<u8>>) -> bool {
    match entry {
        WalkEntry::File { path, .. } => dir.is_prefix_of(parent_dir(segments(path@))),
        _ => false,
    }
}

/// Whether `entry` is a file whose name has an extension.
pub open spec fn is_labelled_file(entry: WalkEntry) -> bool {
    match entry {
        WalkEntry::File { path, .. } => extension_of(segments(path@)).is_some(),
        _ => false,
    }
}

/// The sizes of all files among `entries`, added up.
pub open spec fn bytes_found(entries: Seq<WalkEntry>) -> nat
    decreases entries.len(),
{
    if entries.len() == 0 {
        0
    } else {
        bytes_found(entries.drop_last()) + file_bytes(entries.last())
    }
}

/// The sizes of the files among `entries` that lie below `dir`, added up.
pub open spec fn bytes_below(entries: Seq<WalkEntry>, dir: Seq<Seq<u8>>) -> nat
    decreases entries.len(),
{
    if entries.len() == 0 {
        0
    } else {
        bytes_below(entries.drop_last(), dir) + (if is_file_below(entries.last(), dir) {
            file_bytes(entries.last())
        } else {
            0nat
        })
    }
}

/// The sizes of the files among `entries` that have an extension, added up.
pub open spec fn bytes_labelled(entries: Seq<WalkEntry>) -> nat
    decreases entries.len(),
{
    if entries.len() == 0 {
        0
    } else {
        bytes_labelled(entries.drop_last()) + (if is_labelled_file(entries.last()) {
            file_bytes(entries.last())
        } else {
            0nat
        })
    }
}

/// Whether `entry` is a file that lies in the directory `dir` itself.
pub open spec fn is_file_in(entry: WalkEntry, dir: Seq<Seq<u8>>) -> bool {
    match entry {
        WalkEntry::File { path, .. } => parent_dir(segments(path@)) == dir,
        _ => false,
    }
}

/// The sizes of the files among `entries` that lie in `dir` itself, added up.
pub open spec fn bytes_in(entries: Seq<WalkEntry>, dir: Seq<Seq<u8>>) -> nat
    decreases entries.len(),
{
    if entries.len() == 0 {
        0
    } else {
        bytes_in(entries.drop_last(), dir) + (if is_file_in(entries.last(), dir) {
            file_bytes(entries.last())
        } else {
            0nat
        })
    }
}

/// The sizes of the directories directly below `dir`, by name.
pub open spec fn children_of(sizes: Map<Seq<Seq<u8>>, nat>, dir: Seq<Seq<u8>>) -> Map<
    Seq<u8>,
    nat,
> {
    Map::new(|k: Seq<u8>| sizes.contains_key(dir.push(k)), |k: Seq<u8>| sizes[dir.push(k)])
}

/// The sizes after the directory at `path` has been added `times` times.
pub open spec fn with_dir_repeated(
    sizes: Map<Seq<Seq<u8>>, nat>,
    path: Seq<Seq<u8>>,
    times: nat,
) -> Map<Seq<Seq<u8>>, nat>
    decreases times,
{
    if times == 0 {
        sizes
    } else {
        with_dir(with_dir_repeated(sizes, path, (times - 1) as nat), path)
    }
}

/// Every directory of the tree holds exactly the bytes of the files recorded
/// below it, and no file lies below a directory that the tree does not hold.
pub proof fn lemma_directory_sizes(entries: Seq<WalkEntry>, dir: Seq<Seq<u8>>)
    ensures
        sizes_after(entries).contains_key(dir) ==> sizes_after(entries)[dir] == bytes_below(
            entries,
            dir,
        ),
        !sizes_after(entries).contains_key(dir) ==> bytes_below(entries, dir) == 0,
    decreases entries.len(),
{
    if entries.len() > 0 {
        lemma_directory_sizes(entries.drop_last(), dir);
    }
}

/// The child of `dir` that lies on the way to `target`, if `target` lies
/// below `dir`.
spec fn child_towards(dir: Seq<Seq<u8>>, target: Seq<Seq<u8>>) -> Option<Seq<u8>> {
    if dir.len() < target.len() && dir.is_prefix_of(target) {
        Some(target[dir.len() as int])
    } else {
        None
    }
}

/// Charging the way to `target` changes the children of `dir` in one place at
/// most: the child that lies on that way.
proof fn lemma_children_charged(
    sizes: Map<Seq<Seq<u8>>, nat>,
    target: Seq<Seq<u8>>,
    amount: nat,
    dir: Seq<Seq<u8>>,
)
    ensures
        children_of(charged(sizes, target, amount), dir) == with_extension(
            children_of(sizes, dir),
            child_towards(dir, target),
            amount,
        ),
{
    let before = children_of(sizes, dir);
    let after = children_of(charged(sizes, target, amount), dir);
    let hit = child_towards(dir, target);
    assert forall|k: Seq<u8>| dir.push(k).is_prefix_of(target) <==> hit == Some(k) by {
        let below = dir.push(k);
        if below.is_prefix_of(target) {
            let shared = target.subrange(0, below.len() as int);
            assert(below[dir.len() as int] == shared[dir.len() as int]);
            assert(dir =~= target.subrange(0, dir.len() as int)) by {
                assert forall|i: int| 0 <= i < dir.len() implies dir[i] == target[i] by {
                    assert(below[i] == target.subrange(0, below.len() as int)[i]);
                }
            }
        }
        if hit == Some(k) {
            assert(below =~= target.subrange(0, below.len() as int)) by {
                assert forall|i: int| 0 <= i < below.len() implies below[i] == target[i] by {
                    if i < dir.len() {
                        assert(dir[i] == target.subrange(0, dir.len() as int)[i]);
                    }
                }
            }
        }
    }
    assert(after =~= with_extension(before, hit, amount)) by {
        assert forall|k: Seq<u8>|
            #![trigger after.contains_key(k)]
            #![trigger with_extension(before, hit, amount).contains_key(k)]
            after.contains_key(k) == with_extension(before, hit, amount).contains_key(k) && (
            after.contains_key(k) ==> after[k] == with_extension(before, hit, amount)[k]) by {
            assert(dir.push(k).is_prefix_of(target) <==> hit == Some(k));
        }
    }
}

/// Every directory of the tree is as large as its subdirectories together
/// and the files that lie in it.
pub proof fn lemma_directory_accounts(entries: Seq<WalkEntry>, dir: Seq<Seq<u8>>)
    ensures
        children_of(sizes_after(entries), dir).dom().finite(),
        bytes_below(entries, dir) == grand_total(children_of(sizes_after(entries), dir))
            + bytes_in(entries, dir),
        sizes_after(entries).contains_key(dir) ==> sizes_after(entries)[dir] == grand_total(
            children_of(sizes_after(entries), dir),
        ) + bytes_in(entries, dir),
    decreases entries.len(),
{
    lemma_directory_sizes(entries, dir);
    if entries.len() == 0 {
        let none = children_of(fresh_sizes(), dir);
        assert(none.dom() =~= Set::<Seq<u8>>::empty()) by {
            assert forall|k: Seq<u8>| !none.contains_key(k) by {
                assert(dir.push(k).len() > 0);
            }
        }
        vstd::set::fold::lemma_fold_empty(0nat, |sum: nat, e: Seq<u8>| sum + none[e]);
    } else {
        let rest = entries.drop_last();
        lemma_directory_accounts(rest, dir);
        let before = sizes_after(rest);
        match entries.last() {
            WalkEntry::Directory { path } => {
                let target = segments(path@);
                lemma_children_charged(before, target, 0, dir);
                lemma_grand_total_grows(children_of(before, dir), child_towards(dir, target), 0);
            },
            WalkEntry::File { path, size } => {
                let target = parent_dir(segments(path@));
                lemma_children_charged(before, target, size as nat, dir);
                lemma_grand_total_grows(
                    children_of(before, dir),
                    child_towards(dir, target),
                    size as nat,
                );
                if dir.is_prefix_of(target) && dir.len() == target.len() {
                    assert(target =~= dir);
                }
                if target == dir {
                    assert(dir.is_prefix_of(target));
                }
            },
            _ => {},
        }
    }
}

/// The root holds the bytes of all files recorded.
pub proof fn lemma_root_size(entries: Seq<WalkEntry>)
    ensures
        sizes_after(entries).contains_key(Seq::empty()),
        sizes_after(entries)[Seq::empty()] == bytes_found(entries),
    decreases entries.len(),
{
    if entries.len() > 0 {
        lemma_root_size(entries.drop_last());
        let root = Seq::<Seq<u8>>::empty();
        match entries.last() {
            WalkEntry::Directory { path } => {
                assert(root.is_prefix_of(segments(path@)));
            },
            WalkEntry::File { path, size } => {
                assert(root.is_prefix_of(parent_dir(segments(path@))));
            },
            _ => {},
        }
    }
}

/// Adding a directory again changes nothing, however often it is done.
pub proof fn lemma_add_dir_idempotent(sizes: Map<Seq<Seq<u8>>, nat>, path: Seq<Seq<u8>>, times: nat)
    requires
        times >= 1,
    ensures
        with_dir_repeated(sizes, path, times) == with_dir(sizes, path),
    decreases times,
{
    if times == 1 {
        assert(with_dir_repeated(sizes, path, 0) == sizes);
    } else {
        lemma_add_dir_idempotent(sizes, path, (times - 1) as nat);
        assert(with_dir(with_dir(sizes, path), path) =~= with_dir(sizes, path));
    }
}

/// A file directly in the root adds its size to the root and does nothing
/// else: no directory is created.
pub proof fn lemma_file_in_root(sizes: Map<Seq<Seq<u8>>, nat>, name: Seq<u8>, size: nat)
    requires
        sizes.contains_key(Seq::empty()),
    ensures
        with_file(sizes, seq![name], size) == sizes.insert(
            Seq::empty(),
            sizes[Seq::empty()] + size,
        ),
        with_file(sizes, seq![name], size).dom() == sizes.dom(),
{
    let root = Seq::<Seq<u8>>::empty();
    let after = with_file(sizes, seq![name], size);
    assert(parent_dir(seq![name]) =~= root);
    assert forall|d: Seq<Seq<u8>>| d.is_prefix_of(root) implies d == root by {
        assert(d =~= root);
    }
    assert(root.is_prefix_of(root));
    assert(after =~= sizes.insert(root, sizes[root] + size));
    assert(after.dom() =~= sizes.dom());
}

/// The extension totals together are the bytes of the files that have an
/// extension.
pub proof fn lemma_labelled_bytes(entries: Seq<WalkEntry>)
    ensures
        totals_after(entries).dom().finite(),
        grand_total(totals_after(entries)) == bytes_labelled(entries),
        bytes_labelled(entries) <= bytes_found(entries),
    decreases entries.len(),
{
    if entries.len() == 0 {
        let none = Map::<Seq<u8>, nat>::empty();
        assert(none.dom() =~= Set::<Seq<u8>>::empty());
        vstd::set::fold::lemma_fold_empty(0nat, |sum: nat, e: Seq<u8>| sum + none[e]);
    } else {
        lemma_labelled_bytes(entries.drop_last());
        let before = totals_after(entries.drop_last());
        match entries.last() {
            WalkEntry::File { path, size } => {
                lemma_grand_total_grows(before, extension_of(segments(path@)), size as nat);
            },
            _ => {},
        }
    }
}

/// A file without extension keeps its bytes out of the extension totals.
pub proof fn lemma_unlabelled_bytes(entries: Seq<WalkEntry>, at: int)
    requires
        0 <= at < entries.len(),
        entries[at] is File,
        !is_labelled_file(entries[at]),
    ensures
        bytes_labelled(entries) + file_bytes(entries[at]) <= bytes_found(entries),
    decreases entries.len(),
{
    lemma_labelled_bytes(entries.drop_last());
    if at < entries.len() - 1 {
        lemma_unlabelled_bytes(entries.drop_last(), at);
    }
}

/// If every file has an extension, none of its bytes is missing from the
/// extension totals.
pub proof fn lemma_all_labelled(entries: Seq<WalkEntry>)
    requires
        forall|i: int|
            0 <= i < entries.len() && (#[trigger] entries[i]) is File ==> is_labelled_file(
                entries[i],
            ),
    ensures
        bytes_labelled(entries) == bytes_found(entries),
    decreases entries.len(),
{
    if entries.len() > 0 {
        let rest = entries.drop_last();
        assert forall|i: int|
            0 <= i < rest.len() && (#[trigger] rest[i]) is File implies is_labelled_file(
            rest[i],
        ) by {
            assert(rest[i] == entries[i]);
        }
        lemma_all_labelled(rest);
        let last = entries[entries.len() - 1];
        if last is File {
            assert(is_labelled_file(last));
        }
    }
}

/// The extensions together never account for more bytes than the root
/// holds; for fewer, as soon as one file without extension is not empty; and
/// for exactly as many, if every file has an extension.
pub proof fn lemma_extensions_within_total(entries: Seq<WalkEntry>)
    ensures
        grand_total(totals_after(entries)) <= sizes_after(entries)[Seq::empty()],
        (exists|i: int|
            0 <= i < entries.len() && (#[trigger] entries[i]) is File && !is_labelled_file(
                entries[i],
            ) && file_bytes(entries[i]) > 0) ==> grand_total(totals_after(entries)) < sizes_after(
            entries,
        )[Seq::empty()],
        (forall|i: int|
            0 <= i < entries.len() && (#[trigger] entries[i]) is File ==> is_labelled_file(
                entries[i],
            )) ==> grand_total(totals_after(entries)) == sizes_after(entries)[Seq::empty()],
{
    lemma_labelled_bytes(entries);
    lemma_root_size(entries);
    if exists|i: int|
        0 <= i < entries.len() && (#[trigger] entries[i]) is File && !is_labelled_file(entries[i])
            && file_bytes(entries[i]) > 0 {
        let i = choose|i: int|
            0 <= i < entries.len() && (#[trigger] entries[i]) is File && !is_labelled_file(
                entries[i],
            ) && file_bytes(entries[i]) > 0;
        lemma_unlabelled_bytes(entries, i);
    }
    if forall|i: int|
        0 <= i < entries.len() && (#[trigger] entries[i]) is File ==> is_labelled_file(
            entries[i],
        ) {
        lemma_all_labelled(entries);
    }
}

} // verus!
