//! The input tree: directories under construction and finalized leaves,
//! together with their mathematical views and well-formedness conditions.

use vstd::prelude::*;
use crate::links::{lex_lt, no_slash};

verus! {

/// A finalized entry, file or already-rendered directory, reduced to the
/// binary encoding of its content identifier and the cumulative byte size
/// of the subtree it stands for.
#[derive(Clone, Debug)]
pub struct Leaf {
    /// The content identifier's self-describing binary encoding, embedded
    /// verbatim in the parent's wire format.
    pub link: Vec<u8>,
    /// Own encoded length plus the cumulative sizes of all descendants.
    pub total_size: u64,
}

/// Mathematical view of a `Leaf`.
#[verifier::ext_equal]
pub ghost struct LeafV {
    pub link: Seq<u8>,
    pub total_size: u64,
}

impl View for Leaf {
    type V = LeafV;

    open spec fn view(&self) -> LeafV {
        LeafV { link: self.link@, total_size: self.total_size }
    }
}

/// A child of a directory under construction.
pub enum Entry {
    Leaf(Leaf),
    Directory(DirBuilder),
}

/// A directory under construction: a numeric identifier, the identifier of
/// its parent (absent only for the root), and its children keyed by name.
/// The children are held sorted in strictly ascending name order.
pub struct DirBuilder {
    pub id: u64,
    pub parent_id: Option<u64>,
    pub nodes: Vec<(Vec<u8>, Entry)>,
}

/// Mathematical view of an `Entry`.
#[verifier::ext_equal]
pub ghost enum EntryV {
    Leaf(LeafV),
    Dir(DirV),
}

/// Mathematical view of a `DirBuilder`.
#[verifier::ext_equal]
pub ghost struct DirV {
    pub id: u64,
    pub parent_id: Option<u64>,
    pub nodes: Seq<(Seq<u8>, EntryV)>,
}

pub open spec fn entry_v(e: Entry) -> EntryV
    decreases e,
{
    match e {
        Entry::Leaf(l) => EntryV::Leaf(l@),
        Entry::Directory(d) => EntryV::Dir(dir_v(d)),
    }
}

pub open spec fn dir_v(d: DirBuilder) -> DirV
    decreases d,
{
    DirV { id: d.id, parent_id: d.parent_id, nodes: nodes_v(d.nodes@) }
}

pub open spec fn nodes_v(ns: Seq<(Vec<u8>, Entry)>) -> Seq<(Seq<u8>, EntryV)>
    decreases ns,
{
    if ns.len() == 0 {
        seq![]
    } else {
        nodes_v(ns.drop_last()) + seq![(ns.last().0@, entry_v(ns.last().1))]
    }
}

/// Children in strictly ascending name order: the invariant the assembly
/// API establishes and the renderer relies on for byte-stable output.
pub open spec fn sorted_by_name<T>(ns: Seq<(Seq<u8>, T)>) -> bool {
    forall|i: int, j: int| 0 <= i < j < ns.len() ==> lex_lt(ns[i].0, ns[j].0)
}

/// Names are path components: nonempty and free of the separator byte.
pub open spec fn name_ok(n: Seq<u8>) -> bool {
    n.len() >= 1 && no_slash(n)
}

pub open spec fn entry_wf(e: EntryV) -> bool
    decreases e,
{
    match e {
        EntryV::Leaf(_) => true,
        EntryV::Dir(d) => dir_wf(d),
    }
}

pub open spec fn dir_wf(d: DirV) -> bool
    decreases d,
{
    sorted_by_name(d.nodes) && children_wf(d.nodes)
}

pub open spec fn children_wf(ns: Seq<(Seq<u8>, EntryV)>) -> bool
    decreases ns,
{
    if ns.len() == 0 {
        true
    } else {
        name_ok(ns.last().0) && entry_wf(ns.last().1) && children_wf(ns.drop_last())
    }
}

/// Height of the subtree rooted in an entry, counting directory levels.
pub open spec fn entry_height(e: EntryV) -> nat
    decreases e,
{
    match e {
        EntryV::Leaf(_) => 0,
        EntryV::Dir(d) => 1 + children_height(d.nodes),
    }
}

pub open spec fn children_height(ns: Seq<(Seq<u8>, EntryV)>) -> nat
    decreases ns,
{
    if ns.len() == 0 {
        0
    } else {
        let h = entry_height(ns.last().1);
        let r = children_height(ns.drop_last());
        if h >= r {
            h
        } else {
            r
        }
    }
}

/// Number of directories in the subtree rooted in an entry: the amount of
/// finalization work it still requires.
pub open spec fn entry_dirs(e: EntryV) -> nat
    decreases e,
{
    match e {
        EntryV::Leaf(_) => 0,
        EntryV::Dir(d) => 1 + children_dirs(d.nodes),
    }
}

pub open spec fn children_dirs(ns: Seq<(Seq<u8>, EntryV)>) -> nat
    decreases ns,
{
    if ns.len() == 0 {
        0
    } else {
        entry_dirs(ns.last().1) + children_dirs(ns.drop_last())
    }
}

pub proof fn lemma_nodes_v_index(ns: Seq<(Vec<u8>, Entry)>)
    ensures
        nodes_v(ns).len() == ns.len(),
        forall|i: int|
            0 <= i < ns.len() ==> nodes_v(ns)[i] == (ns[i].0@, entry_v(ns[i].1)),
    decreases ns.len(),
{
    if ns.len() > 0 {
        lemma_nodes_v_index(ns.drop_last());
        assert forall|i: int| 0 <= i < ns.len() implies nodes_v(ns)[i] == (
            ns[i].0@,
            entry_v(ns[i].1),
        ) by {
            if i < ns.len() - 1 {
                assert(ns.drop_last()[i] == ns[i]);
            }
        }
    }
}



pub proof fn lemma_children_wf_at(ns: Seq<(Seq<u8>, EntryV)>, i: int)
    requires
        children_wf(ns),
        0 <= i < ns.len(),
    ensures
        name_ok(ns[i].0),
        entry_wf(ns[i].1),
    decreases ns.len(),
{
    if i == ns.len() - 1 {
    } else {
        lemma_children_wf_at(ns.drop_last(), i);
        assert(ns.drop_last()[i] == ns[i]);
    }
}

pub proof fn lemma_children_height_at(ns: Seq<(Seq<u8>, EntryV)>, i: int)
    requires
        0 <= i < ns.len(),
    ensures
        entry_height(ns[i].1) <= children_height(ns),
    decreases ns.len(),
{
    if i == ns.len() - 1 {
    } else {
        lemma_children_height_at(ns.drop_last(), i);
        assert(ns.drop_last()[i] == ns[i]);
    }
}

/// The configuration bundle of a traversal.
#[derive(Clone, Copy)]
pub struct TreeOptions {
    /// When false and the root logically has exactly one entry, that entry
    /// is the overall result and no wrapping directory node is emitted.
    pub wrap_with_directory: bool,
    /// Maximum allowed encoded directory size in bytes; absent means
    /// unlimited.
    pub block_size_limit: Option<u64>,
}

/// The recoverable failure of a traversal: a rendered directory's encoding
/// surpassed the configured limit.  The offending size is reported.
#[derive(Clone, Copy, Debug, PartialEq, Eq, Structural)]
pub enum TreeConstructionFailed {
    TooLargeBlock(u64),
}

} // verus!
