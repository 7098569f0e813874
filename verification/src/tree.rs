//! The directory tree: one node per directory, each holding the cumulative
//! size of every file below it.
//!
//! A path is a sequence of segments and a segment is a byte string, exactly as
//! the file system presents it. The tree is seen in contracts as a map from
//! directory path to cumulative size, the empty path standing for the root.

use crate::listing::labels;
use crate::listing::lists;
use crate::listing::Entry;
use ahash::AHashMap;
use vstd::prelude::*;

verus! {

/// The child nodes of one directory, keyed by path segment.
///
/// A tree holds maps of trees, which the verifier accepts only if the map is
/// opaque to it. What the map holds is named by [`child_nodes`], and the three
/// functions that touch the map say what they do in terms of that name.
#[verifier::external_body]
pub struct Children {
    map: AHashMap<Vec<u8>, DirTree>,
}

/// What a [`Children`] map holds: the node stored under each segment. Two
/// segments are the same key when they are the same bytes.
pub uninterp spec fn child_nodes(children: Children) -> Map<Seq<u8>, DirTree>;

/// A directory node with its cumulative size and its children.
pub struct DirTree {
    name: Vec<u8>,
    size: u64,
    children: Children,
}

/// The segments of a path as byte sequences.
pub open spec fn segments(path: Seq<Vec<u8>>) -> Seq<Seq<u8>> {
    path.map_values(|s: Vec<u8>| s@)
}

/// The directory that holds the entry at `path`; the root holds itself.
pub open spec fn parent_dir(path: Seq<Seq<u8>>) -> Seq<Seq<u8>> {
    if path.len() == 0 {
        path
    } else {
        path.drop_last()
    }
}

/// The sizes after every directory from the root down to `dir` exists and has
/// been charged `amount` bytes. Directories that did not exist start at zero.
pub open spec fn charged(sizes: Map<Seq<Seq<u8>>, nat>, dir: Seq<Seq<u8>>, amount: nat) -> Map<
    Seq<Seq<u8>>,
    nat,
> {
    Map::new(
        |d: Seq<Seq<u8>>| sizes.contains_key(d) || d.is_prefix_of(dir),
        |d: Seq<Seq<u8>>|
            (if sizes.contains_key(d) {
                sizes[d]
            } else {
                0nat
            }) + (if d.is_prefix_of(dir) {
                amount
            } else {
                0nat
            }),
    )
}

/// The sizes after the directory at `path` is known to exist.
pub open spec fn with_dir(sizes: Map<Seq<Seq<u8>>, nat>, path: Seq<Seq<u8>>) -> Map<
    Seq<Seq<u8>>,
    nat,
> {
    charged(sizes, path, 0)
}

/// The sizes after a file of `size` bytes at `path` has been counted: every
/// directory above the file, the root included, grows by `size`.
pub open spec fn with_file(sizes: Map<Seq<Seq<u8>>, nat>, path: Seq<Seq<u8>>, size: nat) -> Map<
    Seq<Seq<u8>>,
    nat,
> {
    charged(sizes, parent_dir(path), size)
}

/// The sizes of the directories directly below the root, by name.
pub open spec fn top_level(sizes: Map<Seq<Seq<u8>>, nat>) -> Map<Seq<u8>, nat> {
    Map::new(|k: Seq<u8>| sizes.contains_key(seq![k]), |k: Seq<u8>| sizes[seq![k]])
}

/// Calls `AHashMap::new`: a map that holds nothing.
#[verifier::external_body]
fn no_children() -> (fresh: Children)
    ensures
        child_nodes(fresh) == (Map::<Seq<u8>, DirTree>::empty()),
{
    Children { map: AHashMap::new() }
}

/// Calls `HashMap::entry` on the `AHashMap` (which derefs to the map of std,
/// with its own hasher) and `Entry::or_insert_with`: hands out the node stored
/// under `name`, after storing a new empty node there if there was none. No
/// other key is touched, and whatever the caller then writes through the
/// reference is what the map holds under `name`.
#[verifier::external_body]
fn child_entry<'a>(children: &'a mut Children, name: &Vec<u8>) -> (child: &'a mut DirTree)
    ensures
        child_nodes(*old(children)).contains_key(name@) ==> *child == child_nodes(
            *old(children),
        )[name@],
        !child_nodes(*old(children)).contains_key(name@) ==> child.is_fresh(name@),
        child_nodes(*final(children)) == child_nodes(*old(children)).insert(name@, *final(child)),
{
    children.map.entry(name.clone()).or_insert_with(|| DirTree::new(name.clone()))
}

/// Calls `HashMap::iter` on the `AHashMap`: every key once, in an order that
/// is not specified, each with the size of its node.
#[verifier::external_body]
fn child_sizes(children: &Children) -> (listing: Vec<Entry>)
    ensures
        labels(listing@).no_duplicates(),
        labels(listing@).to_set() == child_nodes(*children).dom(),
        forall|i: int|
            0 <= i < listing@.len() ==> (#[trigger] listing@[i]).size == child_nodes(
                *children,
            )[listing@[i].name@].size,
{
    children.map.iter().map(|(name, node)| Entry { name: name.clone(), size: node.size }).collect()
}

impl View for DirTree {
    type V = Map<Seq<Seq<u8>>, nat>;

    /// The cumulative size of every directory in the tree, by path.
    closed spec fn view(&self) -> Map<Seq<Seq<u8>>, nat> {
        Map::new(
            |d: Seq<Seq<u8>>| self.node_at(d).is_some(),
            |d: Seq<Seq<u8>>| self.node_at(d).unwrap().size as nat,
        )
    }
}

impl DirTree {
    /// The name the root was given.
    pub closed spec fn root_name(&self) -> Seq<u8> {
        self.name@
    }

    /// The node reached from here along `path`, if every segment exists.
    spec fn node_at(&self, path: Seq<Seq<u8>>) -> Option<DirTree>
        decreases path.len(),
    {
        if path.len() == 0 {
            Some(*self)
        } else if child_nodes(self.children).contains_key(path[0]) {
            child_nodes(self.children)[path[0]].node_at(path.skip(1))
        } else {
            None
        }
    }

    spec fn is_fresh(&self, name: Seq<u8>) -> bool {
        &&& self.name@ == name
        &&& self.size == 0
        &&& child_nodes(self.children) == Map::<Seq<u8>, DirTree>::empty()
    }

    spec fn node_ok(&self) -> bool {
        let kids = child_nodes(self.children);
        &&& kids.dom().finite()
        &&& forall|k: Seq<u8>| #[trigger]
            kids.contains_key(k) ==> kids[k].name@ == k && kids[k].size <= self.size
    }

    /// Every node is stored under its own name, has finitely many children,
    /// and is at least as large as each of them.
    pub closed spec fn wf(&self) -> bool {
        forall|p: Seq<Seq<u8>>|
            (#[trigger] self.node_at(p)).is_some() ==> self.node_at(p).unwrap().node_ok()
    }

    /// The root is always part of the tree, and its size fits in 64 bits.
    pub proof fn lemma_root(&self)
        ensures
            self@.contains_key(Seq::empty()),
            self@[Seq::empty()] <= u64::MAX,
    {
        assert(self.node_at(Seq::empty()) == Some(*self));
    }

    proof fn lemma_fresh(&self, name: Seq<u8>)
        requires
            self.is_fresh(name),
        ensures
            self.wf(),
            self@ == Map::<Seq<Seq<u8>>, nat>::empty().insert(Seq::empty(), 0nat),
    {
        assert forall|p: Seq<Seq<u8>>| (#[trigger] self.node_at(p)).is_some() implies p.len()
            == 0 by {}
        assert(self.node_at(Seq::empty()) == Some(*self));
        assert(self@ =~= Map::<Seq<Seq<u8>>, nat>::empty().insert(Seq::empty(), 0nat)) by {
            assert forall|p: Seq<Seq<u8>>| self.node_at(p).is_some() implies p
                == Seq::<Seq<u8>>::empty() by {
                assert(p.len() == 0);
                assert(p =~= Seq::<Seq<u8>>::empty());
            }
        }
    }

    proof fn lemma_child_wf(&self, key: Seq<u8>)
        requires
            self.wf(),
            child_nodes(self.children).contains_key(key),
        ensures
            child_nodes(self.children)[key].wf(),
            child_nodes(self.children)[key].size <= self.size,
            child_nodes(self.children)[key].name@ == key,
    {
        let child = child_nodes(self.children)[key];
        assert(self.node_at(Seq::empty()) == Some(*self));
        assert forall|p: Seq<Seq<u8>>|
            (#[trigger] child.node_at(p)).is_some() implies child.node_at(p).unwrap().node_ok() by {
            let q = seq![key] + p;
            assert(q.skip(1) =~= p);
            assert(self.node_at(q) == child.node_at(p));
        }
    }

    /// What charging one child does to the whole tree.
    proof fn lemma_charged_below(
        before: DirTree,
        after: DirTree,
        key: Seq<u8>,
        child_before: DirTree,
        rest: Seq<Seq<u8>>,
        amount: nat,
    )
        requires
            before.wf(),
            after.name@ == before.name@,
            after.size == before.size + amount,
            child_nodes(after.children).contains_key(key),
            child_nodes(after.children) == child_nodes(before.children).insert(
                key,
                child_nodes(after.children)[key],
            ),
            child_nodes(before.children).contains_key(key) ==> child_before == child_nodes(
                before.children,
            )[key],
            !child_nodes(before.children).contains_key(key) ==> child_before.is_fresh(key),
            child_nodes(after.children)[key].wf(),
            child_nodes(after.children)[key].name@ == key,
            child_nodes(after.children)[key].size == child_before.size + amount,
            child_nodes(after.children)[key]@ == charged(child_before@, rest, amount),
        ensures
            after.wf(),
            after@ == charged(before@, seq![key] + rest, amount),
    {
        let dir = seq![key] + rest;
        let child_after = child_nodes(after.children)[key];
        let kids = child_nodes(before.children);
        assert(before.node_at(Seq::empty()) == Some(before));
        assert(after.node_at(Seq::empty()) == Some(after));
        if kids.contains_key(key) {
            before.lemma_child_wf(key);
        } else {
            child_before.lemma_fresh(key);
        }
        assert forall|p: Seq<Seq<u8>>|
            (#[trigger] after.node_at(p)).is_some() implies after.node_at(p).unwrap().node_ok() by {
            if p.len() == 0 {
                assert forall|k: Seq<u8>| #[trigger]
                    child_nodes(after.children).contains_key(k) implies child_nodes(
                    after.children,
                )[k].name@ == k && child_nodes(after.children)[k].size <= after.size by {
                    if k != key {
                        before.lemma_child_wf(k);
                    }
                }
            } else if p[0] == key {
                assert(after.node_at(p) == child_after.node_at(p.skip(1)));
            } else {
                assert(after.node_at(p) == before.node_at(p));
            }
        }
        assert(after@ =~= charged(before@, dir, amount)) by {
            assert forall|d: Seq<Seq<u8>>|
                #![trigger after@.contains_key(d)]
                #![trigger charged(before@, dir, amount).contains_key(d)]
                after@.contains_key(d) == charged(before@, dir, amount).contains_key(d) && (
                after@.contains_key(d) ==> after@[d] == charged(before@, dir, amount)[d]) by {
                if d.len() == 0 {
                    assert(d.is_prefix_of(dir));
                } else {
                    let tail = d.skip(1);
                    if d[0] == key {
                        assert(after.node_at(d) == child_after.node_at(tail));
                        assert(dir.skip(1) =~= rest);
                        assert(d.is_prefix_of(dir) == tail.is_prefix_of(rest)) by {
                            if d.is_prefix_of(dir) {
                                assert(tail =~= rest.subrange(0, tail.len() as int)) by {
                                    assert forall|i: int| 0 <= i < tail.len() implies tail[i]
                                        == rest[i] by {
                                        assert(d[i + 1] == dir.subrange(0, d.len() as int)[i + 1]);
                                    }
                                }
                            }
                            if tail.is_prefix_of(rest) {
                                assert(d =~= dir.subrange(0, d.len() as int)) by {
                                    assert forall|i: int| 0 <= i < d.len() implies d[i]
                                        == dir[i] by {
                                        if i > 0 {
                                            assert(tail[i - 1] == rest.subrange(
                                                0,
                                                tail.len() as int,
                                            )[i - 1]);
                                        }
                                    }
                                }
                            }
                        }
                        let grown = charged(child_before@, rest, amount);
                        assert(child_after@.contains_key(tail) == grown.contains_key(tail));
                        assert(after@.contains_key(d) == child_after@.contains_key(tail));
                        if after@.contains_key(d) {
                            assert(after@[d] == child_after@[tail]);
                            assert(child_after@[tail] == grown[tail]);
                        }
                        if kids.contains_key(key) {
                            assert(before.node_at(d) == child_before.node_at(tail));
                            assert(before@.contains_key(d) == child_before@.contains_key(tail));
                            if before@.contains_key(d) {
                                assert(before@[d] == child_before@[tail]);
                            }
                        } else {
                            assert(before.node_at(d).is_none());
                            assert(!before@.contains_key(d));
                            if child_before@.contains_key(tail) {
                                assert(tail =~= Seq::<Seq<u8>>::empty());
                                assert(tail.is_prefix_of(rest));
                                assert(child_before@[tail] == 0);
                            }
                        }
                    } else {
                        assert(after.node_at(d) == before.node_at(d));
                        if d.is_prefix_of(dir) {
                            assert(d[0] == dir.subrange(0, d.len() as int)[0]);
                        }
                    }
                }
            }
        }
    }

    /// A tree that holds only its root, with nothing counted yet.
    pub fn new(root: Vec<u8>) -> (tree: DirTree)
        ensures
            tree.wf(),
            tree.root_name() == root@,
            tree@ == Map::<Seq<Seq<u8>>, nat>::empty().insert(Seq::empty(), 0nat),
    {
        let tree = DirTree { name: root, size: 0, children: no_children() };
        proof {
            tree.lemma_fresh(root@);
        }
        tree
    }

    /// Charges `amount` to this node and to every node along the segments
    /// `path[from..to]` below it, creating the nodes that are missing.
    fn charge(&mut self, path: &Vec<Vec<u8>>, from: usize, to: usize, amount: u64)
        requires
            old(self).wf(),
            from <= to <= path.len(),
            old(self).size + amount <= u64::MAX,
        ensures
            final(self).wf(),
            final(self).name@ == old(self).name@,
            final(self).size == old(self).size + amount,
            final(self)@ == charged(
                old(self)@,
                segments(path@).subrange(from as int, to as int),
                amount as nat,
            ),
        decreases to - from,
    {
        let ghost before = *self;
        let ghost dir = segments(path@).subrange(from as int, to as int);
        self.size = self.size + amount;
        if from < to {
            let ghost key = path[from as int]@;
            let ghost rest = segments(path@).subrange(from + 1, to as int);
            proof {
                assert(before.node_at(Seq::empty()) == Some(before));
                if child_nodes(before.children).contains_key(key) {
                    before.lemma_child_wf(key);
                }
            }
            let child = child_entry(&mut self.children, &path[from]);
            let ghost child_before = *child;
            proof {
                if !child_nodes(before.children).contains_key(key) {
                    child_before.lemma_fresh(key);
                }
            }
            child.charge(path, from + 1, to, amount);
            proof {
                assert(dir =~= seq![key] + rest);
                Self::lemma_charged_below(before, *self, key, child_before, rest, amount as nat);
            }
        } else {
            proof {
                assert(dir =~= Seq::<Seq<u8>>::empty());
                assert(before.node_at(Seq::empty()) == Some(before));
                assert(self.node_at(Seq::empty()) == Some(*self));
                assert forall|p: Seq<Seq<u8>>| p.len() > 0 implies self.node_at(p)
                    == before.node_at(p) by {}
                assert forall|p: Seq<Seq<u8>>|
                    (#[trigger] self.node_at(p)).is_some() implies self.node_at(
                    p,
                ).unwrap().node_ok() by {
                    if p.len() == 0 {
                        assert forall|k: Seq<u8>| #[trigger]
                            child_nodes(self.children).contains_key(k) implies child_nodes(
                            self.children,
                        )[k].name@ == k && child_nodes(self.children)[k].size <= self.size by {
                            before.lemma_child_wf(k);
                        }
                    } else {
                        assert(self.node_at(p) == before.node_at(p));
                    }
                }
                assert(self@ =~= charged(before@, dir, amount as nat)) by {
                    assert forall|d: Seq<Seq<u8>>|
                        #![trigger self@.contains_key(d)]
                        #![trigger charged(before@, dir, amount as nat).contains_key(d)]
                        self@.contains_key(d) == charged(before@, dir, amount as nat).contains_key(
                            d,
                        ) && (self@.contains_key(d) ==> self@[d] == charged(
                            before@,
                            dir,
                            amount as nat,
                        )[d]) by {
                        if d.len() == 0 {
                            assert(d.is_prefix_of(dir));
                        } else {
                            assert(self.node_at(d) == before.node_at(d));
                            assert(!d.is_prefix_of(dir));
                        }
                    }
                }
            }
        }
    }

    /// Makes sure that the directory at `path`, and every directory above it,
    /// has a node. New nodes start at zero; no size changes.
    pub fn add_dir(&mut self, path: &Vec<Vec<u8>>)
        requires
            old(self).wf(),
        ensures
            final(self).wf(),
            final(self).root_name() == old(self).root_name(),
            final(self)@ == with_dir(old(self)@, segments(path@)),
    {
        proof {
            assert(segments(path@).subrange(0, path.len() as int) =~= segments(path@));
        }
        self.charge(path, 0, path.len(), 0);
    }

    /// Counts a file of `size` bytes at `path`: the root and every directory
    /// above the file grow by `size`. The last segment is the file's own name
    /// and gets no node.
    pub fn add_file(&mut self, path: &Vec<Vec<u8>>, size: u64)
        requires
            old(self).wf(),
            old(self)@[Seq::empty()] + size <= u64::MAX,
        ensures
            final(self).wf(),
            final(self).root_name() == old(self).root_name(),
            final(self)@ == with_file(old(self)@, segments(path@), size as nat),
    {
        let to = if path.len() == 0 {
            0
        } else {
            path.len() - 1
        };
        proof {
            self.lemma_root();
            assert(self.node_at(Seq::empty()) == Some(*self));
            assert(segments(path@).subrange(0, to as int) =~= parent_dir(segments(path@)));
        }
        self.charge(path, 0, to, size);
    }

    /// The name the root was given.
    pub fn name(&self) -> (name: &Vec<u8>)
        ensures
            name@ == self.root_name(),
    {
        &self.name
    }

    /// The bytes of every file counted so far.
    pub fn size(&self) -> (size: u64)
        ensures
            size == self@[Seq::empty()],
    {
        proof {
            assert(self.node_at(Seq::empty()) == Some(*self));
        }
        self.size
    }

    /// The directories directly below the root, each once and in no particular
    /// order, with their cumulative sizes.
    pub fn children(&self) -> (listing: Vec<Entry>)
        ensures
            lists(listing@, top_level(self@)),
    {
        let listing = child_sizes(&self.children);
        proof {
            let kids = child_nodes(self.children);
            let shown = top_level(self@);
            assert forall|k: Seq<u8>| labels(listing@).contains(k) <==> shown.contains_key(
                k,
            ) by {
                assert(labels(listing@).to_set().contains(k) == labels(listing@).contains(k));
                assert(seq![k].skip(1) =~= Seq::<Seq<u8>>::empty());
                assert(seq![k][0] == k);
                if kids.contains_key(k) {
                    assert(self.node_at(seq![k]) == kids[k].node_at(Seq::empty()));
                } else {
                    assert(self.node_at(seq![k]).is_none());
                }
            }
            assert forall|i: int| 0 <= i < listing@.len() implies (#[trigger] listing@[i]).size
                == shown[listing@[i].name@] by {
                let k = listing@[i].name@;
                assert(labels(listing@)[i] == k);
                assert(labels(listing@).to_set().contains(k));
                assert(seq![k].skip(1) =~= Seq::<Seq<u8>>::empty());
                assert(seq![k][0] == k);
                assert(self.node_at(seq![k]) == kids[k].node_at(Seq::empty()));
            }
        }
        listing
    }
}

} // verus!
