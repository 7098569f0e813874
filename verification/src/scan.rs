//! One pass over a directory: what each entry of the walk does to the tree
//! and to the extension totals, and the report at the end.
//!
//! The walk itself happens elsewhere. It hands over one entry at a time; an
//! entry that could not be read changes nothing, and one that lies outside the
//! root ends the run.

use crate::error::Error;
use crate::extensions::extension_of;
use crate::extensions::grand_total;
use crate::extensions::lemma_grand_total_grows;
use crate::extensions::lemma_total_bounded;
use crate::extensions::with_extension;
use crate::extensions::ExtSizes;
use crate::listing::lists;
use crate::listing::Entry;
use crate::listing::SortBy;
use crate::report::append_bytes;
use crate::report::is_ranking_block;
use crate::report::is_usage_block;
use crate::report::ranking_block;
use crate::report::usage_block;
use crate::tree::segments;
use crate::tree::top_level;
use crate::tree::with_dir;
use crate::tree::with_file;
use crate::tree::DirTree;
use vstd::prelude::*;

verus! {

/// What the walk found at one step.
#[derive(Debug)]
pub enum WalkEntry {
    /// A directory at `path` below the root.
    Directory { path: Vec<Vec<u8>> },
    /// A file of `size` bytes at `path` below the root.
    File { path: Vec<Vec<u8>>, size: u64 },
    /// Something that could not be read.
    Unreadable,
    /// Something whose path does not lie below the root.
    OutsideRoot,
}

/// The directory sizes after `entry` has been recorded.
pub open spec fn sizes_with(sizes: Map<Seq<Seq<u8>>, nat>, entry: WalkEntry) -> Map<
    Seq<Seq<u8>>,
    nat,
> {
    match entry {
        WalkEntry::Directory { path } => with_dir(sizes, segments(path@)),
        WalkEntry::File { path, size } => with_file(sizes, segments(path@), size as nat),
        WalkEntry::Unreadable => sizes,
        WalkEntry::OutsideRoot => sizes,
    }
}

/// The extension totals after `entry` has been recorded.
pub open spec fn totals_with(totals: Map<Seq<u8>, nat>, entry: WalkEntry) -> Map<Seq<u8>, nat> {
    match entry {
        WalkEntry::File { path, size } => with_extension(
            totals,
            extension_of(segments(path@)),
            size as nat,
        ),
        _ => totals,
    }
}

/// What recording `entry` answers: only an entry outside the root fails.
pub open spec fn outcome_of(entry: WalkEntry) -> Result<(), Error> {
    match entry {
        WalkEntry::OutsideRoot => Err(Error::OutsideRoot),
        _ => Ok(()),
    }
}

/// `usage` is the directory part of the report on these sizes: every
/// directory directly below the root, in the order of `by`, and the total.
/// Which of two directories with equal keys comes first is not fixed.
pub open spec fn is_directory_part(
    usage: Seq<u8>,
    root: Seq<u8>,
    sizes: Map<Seq<Seq<u8>>, nat>,
    by: SortBy,
    reverse: bool,
) -> bool {
    exists|directories: Seq<Entry>|
        #![trigger lists(directories, top_level(sizes))]
        lists(directories, top_level(sizes)) && is_usage_block(
            usage,
            root,
            sizes[Seq::empty()] as u64,
            directories,
            by,
            reverse,
        )
}

/// `ranking` is the extension part of the report on these totals: nothing if
/// no limit was given, else the ranking of the largest. Which of two
/// extensions with equal totals is preferred is not fixed.
pub open spec fn is_extension_part(
    ranking: Seq<u8>,
    totals: Map<Seq<u8>, nat>,
    top_exts: Option<usize>,
    reverse: bool,
) -> bool {
    match top_exts {
        Some(limit) => exists|extensions: Seq<Entry>|
            #![trigger lists(extensions, totals)]
            lists(extensions, totals) && is_ranking_block(
                ranking,
                extensions,
                limit as nat,
                reverse,
            ),
        None => ranking == Seq::<u8>::empty(),
    }
}

/// `text` is the report on these sizes and totals: the extension part, then
/// the directory part.
pub open spec fn is_report(
    text: Seq<u8>,
    root: Seq<u8>,
    sizes: Map<Seq<Seq<u8>>, nat>,
    totals: Map<Seq<u8>, nat>,
    top_exts: Option<usize>,
    by: SortBy,
    reverse: bool,
) -> bool {
    exists|ranking: Seq<u8>, usage: Seq<u8>|
        #![trigger ranking + usage]
        text == ranking + usage && is_extension_part(ranking, totals, top_exts, reverse)
            && is_directory_part(usage, root, sizes, by, reverse)
}

/// The state of a scan: the tree and the extension totals built so far.
pub struct Scan {
    tree: DirTree,
    extensions: ExtSizes,
}

impl Scan {
    /// The name of the root.
    pub closed spec fn root_name(&self) -> Seq<u8> {
        self.tree.root_name()
    }

    /// The cumulative size of every directory found so far, by path.
    pub closed spec fn sizes(&self) -> Map<Seq<Seq<u8>>, nat> {
        self.tree@
    }

    /// The bytes found so far under each extension.
    pub closed spec fn totals(&self) -> Map<Seq<u8>, nat> {
        self.extensions@
    }

    /// Tree and totals are sound, and the extensions together account for no
    /// more bytes than the root.
    pub closed spec fn wf(&self) -> bool {
        &&& self.tree.wf()
        &&& self.extensions.wf()
        &&& grand_total(self.extensions@) <= self.tree@[Seq::empty()]
    }

    /// The extensions together never account for more bytes than the root,
    /// and the root's size fits in 64 bits.
    pub proof fn lemma_totals_bounded(&self)
        requires
            self.wf(),
        ensures
            self.totals().dom().finite(),
            self.sizes().contains_key(Seq::empty()),
            grand_total(self.totals()) <= self.sizes()[Seq::empty()] <= u64::MAX,
    {
        self.tree.lemma_root();
        self.extensions.lemma_view();
    }

    /// A scan of the directory `root` that has found nothing yet.
    pub fn new(root: Vec<u8>) -> (scan: Scan)
        ensures
            scan.wf(),
            scan.root_name() == root@,
            scan.sizes() == Map::<Seq<Seq<u8>>, nat>::empty().insert(Seq::empty(), 0nat),
            scan.totals() == Map::<Seq<u8>, nat>::empty(),
    {
        let scan = Scan { tree: DirTree::new(root), extensions: ExtSizes::new() };
        proof {
            assert(scan.extensions@.dom() =~= Set::<Seq<u8>>::empty());
            vstd::set::fold::lemma_fold_empty(
                0nat,
                |sum: nat, e: Seq<u8>| sum + scan.extensions@[e],
            );
        }
        scan
    }

    /// Records one entry of the walk. A directory gets its node, a file is
    /// counted in the tree and under its extension, an unreadable entry is
    /// passed over, and an entry outside the root is refused: the scan is left
    /// as it was and the run is to end.
    pub fn record(&mut self, entry: &WalkEntry) -> (outcome: Result<(), Error>)
        requires
            old(self).wf(),
            entry is File ==> old(self).sizes()[Seq::empty()] + entry->size <= u64::MAX,
        ensures
            final(self).wf(),
            final(self).root_name() == old(self).root_name(),
            final(self).sizes() == sizes_with(old(self).sizes(), *entry),
            final(self).totals() == totals_with(old(self).totals(), *entry),
            outcome == outcome_of(*entry),
    {
        match entry {
            WalkEntry::Directory { path } => {
                proof {
                    self.tree.lemma_root();
                }
                self.tree.add_dir(path);
                proof {
                    assert(Seq::<Seq<u8>>::empty().is_prefix_of(segments(path@)));
                }
                Ok(())
            },
            WalkEntry::File { path, size } => {
                let ghost found = extension_of(segments(path@));
                proof {
                    self.tree.lemma_root();
                    self.extensions.lemma_view();
                    if found.is_some() && self.extensions@.contains_key(found.unwrap()) {
                        lemma_total_bounded(self.extensions@, found.unwrap());
                    }
                    lemma_grand_total_grows(self.extensions@, found, *size as nat);
                }
                self.tree.add_file(path, *size);
                self.extensions.add_file(path, *size);
                proof {
                    assert(Seq::<Seq<u8>>::empty().is_prefix_of(
                        crate::tree::parent_dir(segments(path@)),
                    ));
                }
                Ok(())
            },
            WalkEntry::Unreadable => Ok(()),
            WalkEntry::OutsideRoot => Err(Error::OutsideRoot),
        }
    }

    /// The tree built so far.
    pub fn tree(&self) -> (tree: &DirTree)
        ensures
            tree@ == self.sizes(),
            tree.root_name() == self.root_name(),
            self.wf() ==> tree.wf(),
    {
        &self.tree
    }

    /// The extension totals built so far.
    pub fn extensions(&self) -> (extensions: &ExtSizes)
        ensures
            extensions@ == self.totals(),
            self.wf() ==> extensions.wf(),
    {
        &self.extensions
    }

    /// The report on what was found: the `top_exts` extensions that take the
    /// most space, if a number was given, then every directory directly below
    /// the root in the order of `by`, and the total. Whatever was found, the
    /// report is made.
    pub fn report(&self, top_exts: Option<usize>, by: SortBy, reverse: bool) -> (report: Result<
        Vec<u8>,
        Error,
    >)
        ensures
            report.is_ok(),
            is_report(
                report.unwrap()@,
                self.root_name(),
                self.sizes(),
                self.totals(),
                top_exts,
                by,
                reverse,
            ),
    {
        let mut text: Vec<u8> = Vec::new();
        match top_exts {
            Some(limit) => {
                let listing = self.extensions.entries();
                match ranking_block(listing, limit, reverse) {
                    Ok(block) => {
                        text = block;
                    },
                    Err(e) => {
                        return Err(e);
                    },
                }
            },
            None => {},
        }
        let ghost ranking = text@;
        let directories = self.tree.children();
        let total = self.tree.size();
        proof {
            self.tree.lemma_root();
            assert(is_extension_part(ranking, self.totals(), top_exts, reverse));
        }
        match usage_block(self.tree.name(), total, directories, by, reverse) {
            Ok(block) => {
                append_bytes(&mut text, &block);
                proof {
                    assert(is_directory_part(block@, self.root_name(), self.sizes(), by, reverse));
                    assert(text@ == ranking + block@);
                }
                Ok(text)
            },
            Err(e) => Err(e),
        }
    }
}

} // verus!
