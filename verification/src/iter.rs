//! The traversal engine: an explicit work stack of descend and finalize
//! frames, a propagation table that carries finalized child results up to
//! their parents, and the renderer that turns one directory into bytes, a
//! content identifier and a cumulative size.

use vstd::prelude::*;
use crate::digest::{cid_of_block, cid_v0_of};
use crate::links::{
    insert_link, lemma_insert_link_sorted, lemma_merge_links_sorted, merge_links, pairs_v,
    vec_insert_link, vec_merge_links,
};
use crate::path::{name_v, path_after, seg_count, update_full_path};
use crate::pb::{dir_block, encode_dir_block};
use crate::tree::{
    children_dirs, children_height, dir_v, dir_wf, entry_dirs, entry_height, entry_v, entry_wf,
    lemma_children_height_at, lemma_children_wf_at, lemma_nodes_v_index, name_ok, nodes_v,
    sorted_by_name, DirBuilder, DirV, Entry, EntryV, Leaf, LeafV, TreeConstructionFailed,
    TreeOptions,
};

verus! {

/// A frame of pending work: a directory awaiting expansion, or one whose
/// children have all been visited and which is ready to be rendered.
pub enum Visited {
    Descent { node: DirBuilder, name: Option<Vec<u8>>, depth: usize },
    Post {
        parent_id: Option<u64>,
        id: u64,
        name: Option<Vec<u8>>,
        depth: usize,
        leaves: Vec<(Vec<u8>, Leaf)>,
    },
}

/// Mathematical view of a frame.
#[verifier::ext_equal]
pub ghost enum FrameV {
    Descent { node: DirV, name: Option<Seq<u8>>, depth: nat },
    Post {
        parent_id: Option<u64>,
        id: u64,
        name: Option<Seq<u8>>,
        depth: nat,
        leaves: Seq<(Seq<u8>, LeafV)>,
    },
}

pub open spec fn opt_bytes_v(n: Option<Vec<u8>>) -> Option<Seq<u8>> {
    match n {
        Option::Some(v) => Option::Some(v@),
        Option::None => Option::None,
    }
}

pub open spec fn visited_v(v: Visited) -> FrameV {
    match v {
        Visited::Descent { node, name, depth } => FrameV::Descent {
            node: dir_v(node),
            name: opt_bytes_v(name),
            depth: depth as nat,
        },
        Visited::Post { parent_id, id, name, depth, leaves } => FrameV::Post {
            parent_id,
            id,
            name: opt_bytes_v(name),
            depth: depth as nat,
            leaves: pairs_v(leaves@),
        },
    }
}

pub open spec fn frames_v(s: Seq<Visited>) -> Seq<FrameV> {
    Seq::new(s.len(), |i: int| visited_v(s[i]))
}

pub open spec fn frame_name(f: FrameV) -> Option<Seq<u8>> {
    match f {
        FrameV::Descent { name, .. } => name,
        FrameV::Post { name, .. } => name,
    }
}

pub open spec fn frame_depth(f: FrameV) -> nat {
    match f {
        FrameV::Descent { depth, .. } => depth,
        FrameV::Post { depth, .. } => depth,
    }
}

/// The propagation table as a sequence of keyed, name-ordered link lists.
pub open spec fn table_v(t: Seq<(Option<u64>, Vec<(Vec<u8>, Leaf)>)>) -> Seq<
    (Option<u64>, Seq<(Seq<u8>, LeafV)>),
> {
    Seq::new(t.len(), |i: int| (t[i].0, pairs_v(t[i].1@)))
}

/// Index of the first entry under a key, or -1 when none exists.
pub open spec fn table_key_at(
    t: Seq<(Option<u64>, Seq<(Seq<u8>, LeafV)>)>,
    k: Option<u64>,
) -> int
    decreases t.len(),
{
    if t.len() == 0 {
        -1
    } else if t[0].0 == k {
        0
    } else {
        let r = table_key_at(t.drop_first(), k);
        if r < 0 {
            -1
        } else {
            r + 1
        }
    }
}

/// Removes and returns the entry under a key: the table without it, and
/// its link list (empty when the key is absent).
pub open spec fn table_take(t: Seq<(Option<u64>, Seq<(Seq<u8>, LeafV)>)>, k: Option<u64>) -> (
    Seq<(Option<u64>, Seq<(Seq<u8>, LeafV)>)>,
    Seq<(Seq<u8>, LeafV)>,
) {
    let i = table_key_at(t, k);
    if i < 0 {
        (t, seq![])
    } else {
        (t.remove(i), t[i].1)
    }
}

/// Inserts a named leaf under a key, creating the entry when absent; the
/// touched entry moves to the end of the table.
pub open spec fn table_deposit(
    t: Seq<(Option<u64>, Seq<(Seq<u8>, LeafV)>)>,
    k: Option<u64>,
    name: Seq<u8>,
    leaf: LeafV,
) -> Seq<(Option<u64>, Seq<(Seq<u8>, LeafV)>)> {
    let i = table_key_at(t, k);
    if i < 0 {
        t + seq![(k, seq![(name, leaf)])]
    } else {
        t.remove(i) + seq![(k, insert_link(t[i].1, (name, leaf)))]
    }
}

pub proof fn lemma_table_key_found(t: Seq<(Option<u64>, Seq<(Seq<u8>, LeafV)>)>, k: Option<u64>, i: int)
    requires
        0 <= i < t.len(),
        forall|j: int| 0 <= j < i ==> (#[trigger] t[j]).0 != k,
        t[i].0 == k,
    ensures
        table_key_at(t, k) == i,
    decreases i,
{
    if i > 0 {
        lemma_table_key_found(t.drop_first(), k, i - 1);
        assert forall|j: int| 0 <= j < i - 1 implies (#[trigger] t.drop_first()[j]).0 != k by {
            assert(t.drop_first()[j] == t[j + 1]);
        }
        assert(t.drop_first()[i - 1] == t[i]);
    }
}

pub proof fn lemma_table_key_none(t: Seq<(Option<u64>, Seq<(Seq<u8>, LeafV)>)>, k: Option<u64>)
    requires
        forall|j: int| 0 <= j < t.len() ==> (#[trigger] t[j]).0 != k,
    ensures
        table_key_at(t, k) == -1,
    decreases t.len(),
{
    if t.len() > 0 {
        assert forall|j: int| 0 <= j < t.drop_first().len() implies (#[trigger] t.drop_first()[j]).0
            != k by {
            assert(t.drop_first()[j] == t[j + 1]);
        }
        lemma_table_key_none(t.drop_first(), k);
    }
}

pub proof fn lemma_table_key_at_range(t: Seq<(Option<u64>, Seq<(Seq<u8>, LeafV)>)>, k: Option<u64>)
    ensures
        -1 <= table_key_at(t, k) < t.len(),
        table_key_at(t, k) >= 0 ==> t[table_key_at(t, k)].0 == k,
    decreases t.len(),
{
    if t.len() > 0 && t[0].0 != k {
        lemma_table_key_at_range(t.drop_first(), k);
    }
}

pub proof fn lemma_table_take_sorted(t: Seq<(Option<u64>, Seq<(Seq<u8>, LeafV)>)>, k: Option<u64>)
    requires
        forall|i: int| 0 <= i < t.len() ==> sorted_by_name((#[trigger] t[i]).1),
    ensures
        forall|i: int|
            0 <= i < table_take(t, k).0.len() ==> sorted_by_name(
                (#[trigger] table_take(t, k).0[i]).1,
            ),
        sorted_by_name(table_take(t, k).1),
{
    lemma_table_key_at_range(t, k);
    let at = table_key_at(t, k);
    if at >= 0 {
        t.remove_ensures(at);
    }
}

pub proof fn lemma_table_deposit_sorted(
    t: Seq<(Option<u64>, Seq<(Seq<u8>, LeafV)>)>,
    k: Option<u64>,
    name: Seq<u8>,
    leaf: LeafV,
)
    requires
        forall|i: int| 0 <= i < t.len() ==> sorted_by_name((#[trigger] t[i]).1),
    ensures
        forall|i: int|
            0 <= i < table_deposit(t, k, name, leaf).len() ==> sorted_by_name(
                (#[trigger] table_deposit(t, k, name, leaf)[i]).1,
            ),
{
    lemma_table_key_at_range(t, k);
    let at = table_key_at(t, k);
    let r = table_deposit(t, k, name, leaf);
    if at >= 0 {
        t.remove_ensures(at);
        lemma_insert_link_sorted(t[at].1, (name, leaf));
        assert forall|i: int| 0 <= i < r.len() implies sorted_by_name((#[trigger] r[i]).1) by {
            if i < r.len() - 1 {
                assert(r[i] == t.remove(at)[i]);
            } else {
                assert(r[i] == (k, insert_link(t[at].1, (name, leaf))));
            }
        }
    } else {
        assert forall|i: int| 0 <= i < r.len() implies sorted_by_name((#[trigger] r[i]).1) by {
            if i < r.len() - 1 {
                assert(r[i] == t[i]);
            } else {
                assert(r[i] == (k, seq![(name, leaf)]));
            }
        }
    }
}

/// The file leaves among a directory's children, in child order.
pub open spec fn leaf_children(ns: Seq<(Seq<u8>, EntryV)>) -> Seq<(Seq<u8>, LeafV)>
    decreases ns.len(),
{
    if ns.len() == 0 {
        seq![]
    } else {
        leaf_children(ns.drop_last()) + (match ns.last().1 {
            EntryV::Leaf(l) => seq![(ns.last().0, l)],
            EntryV::Dir(_) => seq![],
        })
    }
}

/// One descend frame per nested directory among the children, in child
/// order, at the given depth.
pub open spec fn dir_frames(ns: Seq<(Seq<u8>, EntryV)>, depth: nat) -> Seq<FrameV>
    decreases ns.len(),
{
    if ns.len() == 0 {
        seq![]
    } else {
        dir_frames(ns.drop_last(), depth) + (match ns.last().1 {
            EntryV::Dir(d) => seq![
                FrameV::Descent { node: d, name: Option::Some(ns.last().0), depth },
            ],
            EntryV::Leaf(_) => seq![],
        })
    }
}

/// The finalization work a frame still requires: the number of directories
/// it will put on the stack, itself included.
pub open spec fn frame_weight(f: FrameV) -> nat {
    match f {
        FrameV::Descent { node, .. } => 1 + children_dirs(node.nodes),
        FrameV::Post { .. } => 0,
    }
}

pub open spec fn stack_weight(s: Seq<FrameV>) -> nat
    decreases s.len(),
{
    if s.len() == 0 {
        0
    } else {
        stack_weight(s.drop_last()) + frame_weight(s.last())
    }
}

pub proof fn lemma_stack_weight_concat(a: Seq<FrameV>, b: Seq<FrameV>)
    ensures
        stack_weight(a + b) == stack_weight(a) + stack_weight(b),
    decreases b.len(),
{
    if b.len() == 0 {
        assert(a + b =~= a);
    } else {
        assert((a + b).drop_last() =~= a + b.drop_last());
        assert((a + b).last() == b.last());
        lemma_stack_weight_concat(a, b.drop_last());
    }
}

pub proof fn lemma_dir_frames_weight(ns: Seq<(Seq<u8>, EntryV)>, depth: nat)
    ensures
        stack_weight(dir_frames(ns, depth)) == children_dirs(ns),
    decreases ns.len(),
{
    if ns.len() > 0 {
        lemma_dir_frames_weight(ns.drop_last(), depth);
        let tailfr = match ns.last().1 {
            EntryV::Dir(d) => seq![
                FrameV::Descent { node: d, name: Option::Some(ns.last().0), depth },
            ],
            EntryV::Leaf(_) => seq![],
        };
        lemma_stack_weight_concat(dir_frames(ns.drop_last(), depth), tailfr);
        assert(stack_weight(Seq::<FrameV>::empty()) == 0);
        assert(dir_frames(ns, depth) == dir_frames(ns.drop_last(), depth) + tailfr);
        assert(children_dirs(ns) == entry_dirs(ns.last().1) + children_dirs(ns.drop_last()));
        match ns.last().1 {
            EntryV::Dir(d) => {
                assert(tailfr.drop_last() =~= Seq::<FrameV>::empty());
                assert(stack_weight(tailfr.drop_last()) == 0);
                assert(tailfr.last() == FrameV::Descent {
                    node: d,
                    name: Option::Some(ns.last().0),
                    depth,
                });
                assert(stack_weight(tailfr) == frame_weight(tailfr.last()));
                assert(frame_weight(tailfr.last()) == 1 + children_dirs(d.nodes));
                assert(entry_dirs(ns.last().1) == 1 + children_dirs(d.nodes));
            },
            EntryV::Leaf(_) => {
                assert(tailfr =~= Seq::<FrameV>::empty());
                assert(stack_weight(tailfr) == 0);
                assert(entry_dirs(ns.last().1) == 0);
            },
        }
    }
}

/// Saturating addition: the exact sum where it fits, the largest value
/// otherwise.
pub open spec fn spec_sat_add(a: u64, b: u64) -> u64 {
    if a + b <= u64::MAX {
        (a + b) as u64
    } else {
        u64::MAX
    }
}

/// The cumulative size of a rendered directory: its own byte length plus
/// the cumulative sizes of all links, folded left with saturation.
pub open spec fn sum_from(acc: u64, links: Seq<(Seq<u8>, LeafV)>) -> u64
    decreases links.len(),
{
    if links.len() == 0 {
        acc
    } else {
        sum_from(spec_sat_add(acc, links[0].1.total_size), links.drop_first())
    }
}

fn sat_add(a: u64, b: u64) -> (r: u64)
    ensures
        r == spec_sat_add(a, b),
{
    if a > u64::MAX - b {
        u64::MAX
    } else {
        a + b
    }
}

/// The exact sum of the cumulative sizes of a list of links.
pub open spec fn sum_sizes(links: Seq<(Seq<u8>, LeafV)>) -> nat
    decreases links.len(),
{
    if links.len() == 0 {
        0
    } else {
        (links[0].1.total_size + sum_sizes(links.drop_first())) as nat
    }
}

/// Cumulative size law: a rendered directory's cumulative size is exactly
/// its own encoded byte length plus the sum of its immediate children's
/// cumulative sizes, whenever that sum stays within machine range.
pub proof fn lemma_sum_from_exact(acc: u64, links: Seq<(Seq<u8>, LeafV)>)
    requires
        acc + sum_sizes(links) <= u64::MAX,
    ensures
        sum_from(acc, links) == acc + sum_sizes(links),
    decreases links.len(),
{
    if links.len() > 0 {
        assert(sum_sizes(links) == links[0].1.total_size + sum_sizes(links.drop_first()));
        lemma_sum_from_exact(spec_sat_add(acc, links[0].1.total_size), links.drop_first());
    }
}

/// One emitted node: path, content identifier, cumulative size and raw
/// bytes.
#[verifier::ext_equal]
pub ghost struct NodeV {
    pub path: Seq<u8>,
    pub cid: Seq<u8>,
    pub total_size: u64,
    pub block: Seq<u8>,
}

/// One item of the output sequence: a finished node, or the terminal
/// size-limit error carrying the offending size.
#[verifier::ext_equal]
pub ghost enum ItemV {
    Node(NodeV),
    TooLarge(u64),
}

/// Mathematical view of the whole engine state.
#[verifier::ext_equal]
pub ghost struct StateV {
    pub path: Seq<u8>,
    pub old_depth: nat,
    pub stack: Seq<FrameV>,
    pub table: Seq<(Option<u64>, Seq<(Seq<u8>, LeafV)>)>,
    pub result: Option<LeafV>,
    pub wrap: bool,
    pub limit: Option<u64>,
}

/// Everything a machine state still produces: the remaining output items
/// in order, and the overall result once the machine halts.
#[verifier::ext_equal]
pub ghost struct RunOut {
    pub items: Seq<ItemV>,
    pub result: Option<LeafV>,
}

/// The denotation of the engine: what running the machine to completion
/// from a state emits.  A descend frame expands into its finalize frame
/// beneath one descend frame per child directory; a finalize frame merges
/// its table entry with the leaves collected at descend time, renders,
/// deposits its result under its parent, and emits one node; the traversal
/// halts early on a size-limit error, and, when directory wrapping is off,
/// at the synthetic root, whose sole entry becomes the overall result.
pub open spec fn run(s: StateV) -> RunOut
    decreases stack_weight(s.stack), s.stack.len(),
{
    if s.stack.len() == 0 {
        RunOut { items: seq![], result: s.result }
    } else {
        let fr = s.stack.last();
        let rest = s.stack.drop_last();
        let pd = path_after(s.path, s.old_depth, frame_name(fr), frame_depth(fr));
        match fr {
            FrameV::Descent { node, name, depth } => {
                let post = FrameV::Post {
                    parent_id: node.parent_id,
                    id: node.id,
                    name,
                    depth,
                    leaves: leaf_children(node.nodes),
                };
                let stack2 = rest + seq![post] + dir_frames(node.nodes, depth + 1);
                proof {
                    lemma_stack_weight_concat(rest, seq![post]);
                    lemma_stack_weight_concat(rest + seq![post], dir_frames(node.nodes, depth + 1));
                    lemma_dir_frames_weight(node.nodes, depth + 1);
                    assert(seq![post].drop_last() =~= Seq::<FrameV>::empty());
                    assert(stack_weight(Seq::<FrameV>::empty()) == 0);
                    assert(stack_weight(seq![post]) == frame_weight(post));
                    assert(stack_weight(s.stack) == stack_weight(rest) + frame_weight(fr));
                }
                run(
                    StateV {
                        path: pd.0,
                        old_depth: pd.1,
                        stack: stack2,
                        table: s.table,
                        result: s.result,
                        wrap: s.wrap,
                        limit: s.limit,
                    },
                )
            },
            FrameV::Post { parent_id, id, name, depth, leaves } => {
                let tk = table_take(s.table, Option::Some(id));
                let links = merge_links(tk.1, leaves);
                let unwrap_root = !s.wrap && (match parent_id {
                    Option::None => true,
                    Option::Some(_) => false,
                });
                if unwrap_root {
                    RunOut {
                        items: seq![],
                        result: if links.len() == 1 {
                            Option::Some(links[0].1)
                        } else {
                            s.result
                        },
                    }
                } else {
                    let block = dir_block(links);
                    let over = match s.limit {
                        Option::Some(lim) => block.len() > lim,
                        Option::None => false,
                    };
                    if over {
                        RunOut {
                            items: seq![ItemV::TooLarge(#[verifier::truncate] (block.len() as u64))],
                            result: s.result,
                        }
                    } else {
                        let leaf = LeafV {
                            link: cid_v0_of(block),
                            total_size: sum_from(#[verifier::truncate] (block.len() as u64), links),
                        };
                        let table2 = match name {
                            Option::Some(n) => table_deposit(tk.0, parent_id, n, leaf),
                            Option::None => tk.0,
                        };
                        let node = NodeV {
                            path: pd.0,
                            cid: leaf.link,
                            total_size: leaf.total_size,
                            block,
                        };
                        proof {
                            assert(stack_weight(s.stack) == stack_weight(rest) + frame_weight(fr));
                        }
                        let tail = run(
                            StateV {
                                path: pd.0,
                                old_depth: pd.1,
                                stack: rest,
                                table: table2,
                                result: Option::Some(leaf),
                                wrap: s.wrap,
                                limit: s.limit,
                            },
                        );
                        RunOut { items: seq![ItemV::Node(node)] + tail.items, result: tail.result }
                    }
                }
            },
        }
    }
}

/// Size-limit failures are terminal: once the machine's output holds the
/// error item, nothing follows it, so neither the offending directory nor
/// any of its ancestors gets a node.
pub proof fn lemma_failure_is_terminal(s: StateV, i: int)
    requires
        0 <= i < run(s).items.len(),
        run(s).items[i] matches ItemV::TooLarge(_),
    ensures
        i == run(s).items.len() - 1,
    decreases stack_weight(s.stack), s.stack.len(),
{
    if s.stack.len() == 0 {
    } else {
        let fr = s.stack.last();
        let rest = s.stack.drop_last();
        let pd = path_after(s.path, s.old_depth, frame_name(fr), frame_depth(fr));
        match fr {
            FrameV::Descent { node, name, depth } => {
                let post = FrameV::Post {
                    parent_id: node.parent_id,
                    id: node.id,
                    name,
                    depth,
                    leaves: leaf_children(node.nodes),
                };
                let stack2 = rest + seq![post] + dir_frames(node.nodes, depth + 1);
                lemma_stack_weight_concat(rest, seq![post]);
                lemma_stack_weight_concat(rest + seq![post], dir_frames(node.nodes, depth + 1));
                lemma_dir_frames_weight(node.nodes, depth + 1);
                assert(seq![post].drop_last() =~= Seq::<FrameV>::empty());
                assert(stack_weight(Seq::<FrameV>::empty()) == 0);
                assert(stack_weight(seq![post]) == frame_weight(post));
                assert(stack_weight(s.stack) == stack_weight(rest) + frame_weight(fr));
                let s2 = StateV {
                    path: pd.0,
                    old_depth: pd.1,
                    stack: stack2,
                    table: s.table,
                    result: s.result,
                    wrap: s.wrap,
                    limit: s.limit,
                };
                assert(run(s) == run(s2));
                lemma_failure_is_terminal(s2, i);
            },
            FrameV::Post { parent_id, id, name, depth, leaves } => {
                let tk = table_take(s.table, Option::Some(id));
                let links = merge_links(tk.1, leaves);
                let unwrap_root = !s.wrap && (match parent_id {
                    Option::None => true,
                    Option::Some(_) => false,
                });
                if !unwrap_root {
                    let block = dir_block(links);
                    let over = match s.limit {
                        Option::Some(lim) => block.len() > lim,
                        Option::None => false,
                    };
                    if !over {
                        let leaf = LeafV {
                            link: cid_v0_of(block),
                            total_size: sum_from(
                                #[verifier::truncate] (block.len() as u64),
                                links,
                            ),
                        };
                        let table2 = match name {
                            Option::Some(n) => table_deposit(tk.0, parent_id, n, leaf),
                            Option::None => tk.0,
                        };
                        assert(stack_weight(s.stack) == stack_weight(rest) + frame_weight(fr));
                        let s2 = StateV {
                            path: pd.0,
                            old_depth: pd.1,
                            stack: rest,
                            table: table2,
                            result: Option::Some(leaf),
                            wrap: s.wrap,
                            limit: s.limit,
                        };
                        assert(run(s).items == seq![
                            ItemV::Node(
                                NodeV {
                                    path: pd.0,
                                    cid: leaf.link,
                                    total_size: leaf.total_size,
                                    block,
                                },
                            ),
                        ] + run(s2).items);
                        if i > 0 {
                            lemma_failure_is_terminal(s2, i - 1);
                        }
                    }
                }
            },
        }
    }
}

/// A frame the machine can process: name and depth agree, the name is a
/// path component, and a descend frame carries a well-formed directory
/// shallow enough for its depths to stay within machine range.
pub open spec fn frame_wf(f: FrameV) -> bool {
    &&& (match frame_name(f) {
        Option::Some(n) => frame_depth(f) >= 1 && name_ok(n),
        Option::None => frame_depth(f) == 0,
    })
    &&& (match f {
        FrameV::Descent { node, depth, .. } => dir_wf(node) && depth + 1 + children_height(
            node.nodes,
        ) <= usize::MAX,
        FrameV::Post { .. } => true,
    })
}

/// The engine invariant: every frame is processable, depths grow by at
/// most one from a frame to the one above it, the tracked path matches the
/// tracked depth, and every table entry is name-ordered.
pub open spec fn state_wf(s: StateV) -> bool {
    &&& forall|i: int| 0 <= i < s.stack.len() ==> frame_wf(#[trigger] s.stack[i])
    &&& forall|i: int|
        0 <= i < s.stack.len() - 1 ==> frame_depth(#[trigger] s.stack[i]) <= frame_depth(
            s.stack[i + 1],
        ) + 1
    &&& (s.stack.len() > 0 ==> frame_depth(s.stack.last()) <= s.old_depth + 1)
    &&& seg_count(s.path) == s.old_depth
    &&& forall|i: int| 0 <= i < s.table.len() ==> sorted_by_name((#[trigger] s.table[i]).1)
}

/// The state a fresh engine starts in: one descend frame for the root.
pub open spec fn init_state(root: DirV, opts: TreeOptions) -> StateV {
    StateV {
        path: Seq::<u8>::empty(),
        old_depth: 0,
        stack: seq![FrameV::Descent { node: root, name: Option::None, depth: 0 }],
        table: seq![],
        result: Option::None,
        wrap: opts.wrap_with_directory,
        limit: opts.block_size_limit,
    }
}

/// Determinism: the machine's whole output is a function of the state it
/// starts from, so a traversal of an unmodified tree under the same options
/// always yields the same nodes, bytes and identifiers.  `new` pins the
/// start state to `init_state`, and `next_borrowed` ties every emitted item
/// to `run` of that state.
pub proof fn lemma_traversal_deterministic(a: DirV, b: DirV, opts: TreeOptions)
    requires
        a == b,
    ensures
        run(init_state(a, opts)) == run(init_state(b, opts)),
{
}

fn opt_eq(a: &Option<u64>, b: &Option<u64>) -> (r: bool)
    ensures
        r == (*a == *b),
{
    match (a, b) {
        (Option::Some(x), Option::Some(y)) => *x == *y,
        (Option::None, Option::None) => true,
        _ => false,
    }
}

fn opt_as_ref(x: &Option<Vec<u8>>) -> (r: Option<&Vec<u8>>)
    ensures
        name_v(r) == opt_bytes_v(*x),
{
    match x {
        Option::Some(n) => Option::Some(n),
        Option::None => Option::None,
    }
}

fn copy_bytes(v: &Vec<u8>) -> (r: Vec<u8>)
    ensures
        r@ == v@,
{
    let mut r: Vec<u8> = Vec::new();
    r.extend_from_slice(v.as_slice());
    proof {
        assert(r@ =~= v@);
    }
    r
}

/// Removes and returns the link list stored under a key, or an empty one.
#[verifier::loop_isolation(false)]
fn table_take_exec(t: &mut Vec<(Option<u64>, Vec<(Vec<u8>, Leaf)>)>, key: Option<u64>) -> (r: Vec<
    (Vec<u8>, Leaf),
>)
    ensures
        table_v(final(t)@) == table_take(table_v(old(t)@), key).0,
        pairs_v(r@) == table_take(table_v(old(t)@), key).1,
{
    let ghost tv = table_v(t@);
    let mut i: usize = 0;
    while i < t.len()
        invariant
            i <= t@.len(),
            t@ == old(t)@,
            forall|j: int| 0 <= j < i ==> (#[trigger] tv[j]).0 != key,
        decreases t@.len() - i,
    {
        let hit = opt_eq(&t[i].0, &key);
        proof {
            assert(tv[i as int].0 == t@[i as int].0);
        }
        if hit {
            proof {
                lemma_table_key_found(tv, key, i as int);
            }
            let entry = t.remove(i);
            proof {
                old(t)@.remove_ensures(i as int);
                tv.remove_ensures(i as int);
                assert forall|j: int| 0 <= j < table_v(t@).len() implies table_v(t@)[j]
                    == tv.remove(i as int)[j] by {
                    if j < i {
                        assert(t@[j] == old(t)@[j]);
                    } else {
                        assert(t@[j] == old(t)@[j + 1]);
                    }
                }
                assert(table_v(t@) =~= tv.remove(i as int));
                assert(pairs_v(entry.1@) == tv[i as int].1);
            }
            return entry.1;
        }
        i = i + 1;
    }
    proof {
        lemma_table_key_none(tv, key);
    }
    let r: Vec<(Vec<u8>, Leaf)> = Vec::new();
    proof {
        assert(pairs_v(r@) =~= Seq::<(Seq<u8>, LeafV)>::empty());
        assert(table_take(tv, key).1 =~= Seq::<(Seq<u8>, LeafV)>::empty());
    }
    r
}

/// Inserts a finalized child under its parent's key, creating the entry
/// when absent.
#[verifier::loop_isolation(false)]
fn table_deposit_exec(
    t: &mut Vec<(Option<u64>, Vec<(Vec<u8>, Leaf)>)>,
    key: Option<u64>,
    name: Vec<u8>,
    leaf: Leaf,
)
    ensures
        table_v(final(t)@) == table_deposit(table_v(old(t)@), key, name@, leaf@),
{
    let ghost tv = table_v(t@);
    let ghost x = (name@, leaf@);
    let mut i: usize = 0;
    while i < t.len()
        invariant
            i <= t@.len(),
            t@ == old(t)@,
            forall|j: int| 0 <= j < i ==> (#[trigger] tv[j]).0 != key,
        decreases t@.len() - i,
    {
        let hit = opt_eq(&t[i].0, &key);
        proof {
            assert(tv[i as int].0 == t@[i as int].0);
        }
        if hit {
            proof {
                lemma_table_key_found(tv, key, i as int);
            }
            let entry = t.remove(i);
            let k0 = entry.0;
            let mut links = entry.1;
            proof {
                assert(pairs_v(links@) == tv[i as int].1);
            }
            vec_insert_link(&mut links, name, leaf);
            let ghost mid = t@;
            t.push((k0, links));
            proof {
                old(t)@.remove_ensures(i as int);
                tv.remove_ensures(i as int);
                let target = tv.remove(i as int) + seq![
                    (key, insert_link(tv[i as int].1, x)),
                ];
                assert forall|j: int| 0 <= j < table_v(t@).len() implies table_v(t@)[j]
                    == target[j] by {
                    if j < i {
                        assert(t@[j] == mid[j]);
                        assert(mid[j] == old(t)@[j]);
                    } else if j < table_v(t@).len() - 1 {
                        assert(t@[j] == mid[j]);
                        assert(mid[j] == old(t)@[j + 1]);
                    } else {
                        assert(t@[j] == (k0, links));
                    }
                }
                assert(table_v(t@) =~= target);
            }
            return ;
        }
        i = i + 1;
    }
    proof {
        lemma_table_key_none(tv, key);
    }
    let mut links: Vec<(Vec<u8>, Leaf)> = Vec::new();
    links.push((name, leaf));
    let ghost mid = t@;
    t.push((key, links));
    proof {
        assert(pairs_v(links@) =~= seq![x]);
        let target = tv + seq![(key, seq![x])];
        assert forall|j: int| 0 <= j < table_v(t@).len() implies table_v(t@)[j] == target[j] by {
            if j < table_v(t@).len() - 1 {
                assert(t@[j] == mid[j]);
            } else {
                assert(t@[j] == (key, links));
            }
        }
        assert(table_v(t@) =~= target);
    }
}

/// Constructs the directory nodes required for a tree, in post-order: all
/// descendants strictly before their parent.  One finished node per call
/// to `next_borrowed` or `next`; the sequence is finite and one-shot.
pub struct PostOrderIterator {
    full_path: Vec<u8>,
    old_depth: usize,
    block_buffer: Vec<u8>,
    // the stack of pending work
    pending: Vec<Visited>,
    // finalized child results on their way up to their parents
    persisted_cids: Vec<(Option<u64>, Vec<(Vec<u8>, Leaf)>)>,
    cid: Option<Vec<u8>>,
    total_size: u64,
    opts: TreeOptions,
}

/// Borrowed representation of a node in the tree; valid until the next
/// call on the iterator, whose buffers it references.
pub struct TreeNode<'a> {
    /// Full path to the node, relative to the traversal root.
    pub path: &'a Vec<u8>,
    /// Binary encoding of the node's content identifier.
    pub cid: &'a Vec<u8>,
    /// Cumulative total size of the subtree in bytes.
    pub total_size: u64,
    /// Raw wire-format document.
    pub block: &'a Vec<u8>,
}

/// Owned representation of a node in the tree.
pub struct OwnedTreeNode {
    /// Full path to the node, relative to the traversal root.
    pub path: Vec<u8>,
    /// Binary encoding of the node's content identifier.
    pub cid: Vec<u8>,
    /// Cumulative total size of the subtree in bytes.
    pub total_size: u64,
    /// Raw wire-format document.
    pub block: Vec<u8>,
}

impl TreeNode<'_> {
    /// Convert to an owned and detached representation.
    pub fn into_owned(self) -> (r: OwnedTreeNode)
        ensures
            r.path@ == self.path@,
            r.cid@ == self.cid@,
            r.total_size == self.total_size,
            r.block@ == self.block@,
    {
        OwnedTreeNode {
            path: copy_bytes(self.path),
            cid: copy_bytes(self.cid),
            total_size: self.total_size,
            block: copy_bytes(self.block),
        }
    }
}

impl View for PostOrderIterator {
    type V = StateV;

    closed spec fn view(&self) -> StateV {
        StateV {
            path: self.full_path@,
            old_depth: self.old_depth as nat,
            stack: frames_v(self.pending@),
            table: table_v(self.persisted_cids@),
            result: match self.cid {
                Option::Some(c) => Option::Some(
                    LeafV { link: c@, total_size: self.total_size },
                ),
                Option::None => Option::None,
            },
            wrap: self.opts.wrap_with_directory,
            limit: self.opts.block_size_limit,
        }
    }
}

impl PostOrderIterator {
    /// The engine invariant; established by `new` and kept by every call.
    pub open spec fn wf(&self) -> bool {
        state_wf(self@)
    }

    /// Starts a traversal over a fully assembled, well-formed tree whose
    /// nesting depth stays within machine range.
    pub fn new(root: DirBuilder, opts: TreeOptions) -> (it: PostOrderIterator)
        requires
            dir_wf(dir_v(root)),
            1 + children_height(dir_v(root).nodes) <= usize::MAX,
        ensures
            it.wf(),
            it@ == init_state(dir_v(root), opts),
    {
        let ghost rv = dir_v(root);
        let mut pending: Vec<Visited> = Vec::new();
        pending.push(Visited::Descent { node: root, name: Option::None, depth: 0 });
        let it = PostOrderIterator {
            full_path: Vec::new(),
            old_depth: 0,
            block_buffer: Vec::new(),
            pending,
            persisted_cids: Vec::new(),
            cid: Option::None,
            total_size: 0,
            opts,
        };
        proof {
            assert(it@.stack =~= seq![
                FrameV::Descent { node: rv, name: Option::None, depth: 0 },
            ]);
            assert(it@.table =~= Seq::<(Option<u64>, Seq<(Seq<u8>, LeafV)>)>::empty());
            assert(seg_count(Seq::<u8>::empty()) == 0);
            assert(it@ =~= init_state(rv, opts));
        }
        it
    }

    /// Renders one directory from its name-ordered links: the exact wire
    /// bytes into `buffer`, the version-0 content identifier of those
    /// bytes, and the cumulative size.  When a size limit is given and the
    /// encoding exceeds it, fails with the offending size and leaves
    /// `buffer` untouched.
    #[verifier::loop_isolation(false)]
    pub fn render_directory(
        links: &Vec<(Vec<u8>, Leaf)>,
        buffer: &mut Vec<u8>,
        block_size_limit: &Option<u64>,
    ) -> (r: Result<Leaf, TreeConstructionFailed>)
        ensures
            ({
                let lv = pairs_v(links@);
                let block = dir_block(lv);
                match r {
                    Result::Ok(leaf) => {
                        &&& final(buffer)@ == block
                        &&& (match *block_size_limit {
                            Option::Some(lim) => block.len() <= lim,
                            Option::None => true,
                        })
                        &&& leaf.link@ == cid_v0_of(block)
                        &&& leaf.total_size == sum_from(
                            #[verifier::truncate] (block.len() as u64),
                            lv,
                        )
                    },
                    Result::Err(e) => {
                        &&& e == TreeConstructionFailed::TooLargeBlock(
                            #[verifier::truncate] (block.len() as u64),
                        )
                        &&& (match *block_size_limit {
                            Option::Some(lim) => block.len() > lim,
                            Option::None => false,
                        })
                        &&& final(buffer)@ == old(buffer)@
                    },
                }
            }),
    {
        let ghost lv = pairs_v(links@);
        let mut tmp: Vec<u8> = Vec::new();
        encode_dir_block(links, &mut tmp);
        let size = tmp.len();
        match block_size_limit {
            Option::Some(limit) => {
                if *limit < size as u64 {
                    return Result::Err(TreeConstructionFailed::TooLargeBlock(size as u64));
                }
            },
            Option::None => {},
        }
        buffer.clear();
        buffer.append(&mut tmp);
        proof {
            assert(buffer@ =~= dir_block(lv));
        }
        let cid = cid_of_block(buffer);
        let mut total: u64 = size as u64;
        let mut i: usize = 0;
        proof {
            assert(lv.skip(0) =~= lv);
        }
        while i < links.len()
            invariant
                i <= links@.len(),
                sum_from(#[verifier::truncate] (dir_block(lv).len() as u64), lv) == sum_from(
                    total,
                    lv.skip(i as int),
                ),
            decreases links@.len() - i,
        {
            proof {
                assert(lv.skip(i as int)[0] == lv[i as int]);
                assert(lv[i as int].1 == links@[i as int].1@);
                assert(lv.skip(i as int).drop_first() =~= lv.skip(i + 1));
            }
            total = sat_add(total, links[i].1.total_size);
            i = i + 1;
        }
        proof {
            assert(lv.skip(i as int) =~= Seq::<(Seq<u8>, LeafV)>::empty());
        }
        Result::Ok(Leaf { link: cid, total_size: total })
    }

    /// Constructs the next directory node, if any, borrowing the engine's
    /// buffers.  The item returned is exactly the next one that running
    /// the machine from the current state emits; on an error or on the
    /// single-root terminal case the traversal stops for good.
    #[verifier::loop_isolation(false)]
    #[verifier::rlimit(100)]
    #[verifier::spinoff_prover]
    pub fn next_borrowed(&mut self) -> (r: Option<
        Result<TreeNode<'_>, TreeConstructionFailed>,
    >)
        requires
            old(self).wf(),
        ensures
            final(self).wf(),
            run(final(self)@).result == run(old(self)@).result,
            (match r {
                Option::None => run(old(self)@).items.len() == 0 && run(final(self)@).items.len()
                    == 0 && final(self)@.result == run(old(self)@).result,
                Option::Some(item) => match item {
                    Result::Ok(node) => {
                        &&& run(old(self)@).items.len() > 0
                        &&& run(old(self)@).items[0] == ItemV::Node(
                            NodeV {
                                path: node.path@,
                                cid: node.cid@,
                                total_size: node.total_size,
                                block: node.block@,
                            },
                        )
                        &&& run(final(self)@).items == run(old(self)@).items.drop_first()
                        &&& node.cid@ == cid_v0_of(node.block@)
                        &&& exists|ls: Seq<(Seq<u8>, LeafV)>|
                            sorted_by_name(ls) && node.block@ == dir_block(ls) && node.total_size
                                == sum_from(
                                #[verifier::truncate] (node.block@.len() as u64),
                                ls,
                            )
                    },
                    Result::Err(e) => {
                        &&& run(old(self)@).items.len() > 0
                        &&& run(old(self)@).items[0] == (match e {
                            TreeConstructionFailed::TooLargeBlock(s) => ItemV::TooLarge(s),
                        })
                        &&& run(final(self)@).items.len() == 0
                    },
                },
            }),
    {
        loop
            invariant
                self.wf(),
                run(self@) == run(old(self)@),
            decreases stack_weight(self@.stack), self@.stack.len(),
        {
            if self.pending.len() == 0 {
                proof {
                    assert(self@.stack.len() == 0);
                }
                return Option::None;
            }
            let ghost pre = self@;
            let ghost pend0 = self.pending@;
            let visited = self.pending.pop().unwrap();
            let ghost fv = visited_v(visited);
            proof {
                assert(fv == pre.stack.last());
                assert(frame_wf(fv));
                assert forall|j: int| 0 <= j < frames_v(self.pending@).len() implies frames_v(
                    self.pending@,
                )[j] == pre.stack.drop_last()[j] by {
                    assert(self.pending@[j] == pend0[j]);
                }
                assert(frames_v(self.pending@) =~= pre.stack.drop_last());
            }
            let (nref, depth): (Option<&Vec<u8>>, usize) = match &visited {
                Visited::Descent { name, depth, .. } => (opt_as_ref(name), *depth),
                Visited::Post { name, depth, .. } => (opt_as_ref(name), *depth),
            };
            proof {
                assert(name_v(nref) == frame_name(fv));
                assert(depth as nat == frame_depth(fv));
            }
            update_full_path(&mut self.full_path, &mut self.old_depth, nref, depth);
            let ghost pd = path_after(pre.path, pre.old_depth, frame_name(fv), frame_depth(fv));
            proof {
                assert((self.full_path@, self.old_depth as nat) == pd);
            }
            match visited {
                Visited::Descent { node, name, depth } => {
                    let ghost nv = dir_v(node);
                    let ghost namev = opt_bytes_v(name);
                    let ghost dnodes = nv.nodes;
                    let id = node.id;
                    let parent_id = node.parent_id;
                    let mut rest_nodes = node.nodes;
                    let ghost all0 = rest_nodes@;
                    proof {
                        assert(dnodes == nodes_v(all0));
                        lemma_nodes_v_index(all0);
                        assert(dir_wf(nv));
                        assert(all0.skip(0) =~= all0);
                        assert(all0.take(0) =~= Seq::<(Vec<u8>, Entry)>::empty());
                        assert(nodes_v(all0.take(0)) =~= Seq::<(Seq<u8>, EntryV)>::empty());
                    }
                    let mut leaves: Vec<(Vec<u8>, Leaf)> = Vec::new();
                    let mut dirs: Vec<Visited> = Vec::new();
                    let total_children = rest_nodes.len();
                    let mut i: usize = 0;
                    proof {
                        assert(pairs_v(leaves@) =~= leaf_children(nodes_v(all0.take(0))));
                        assert(frames_v(dirs@) =~= dir_frames(
                            nodes_v(all0.take(0)),
                            (depth + 1) as nat,
                        ));
                    }
                    while rest_nodes.len() > 0
                        invariant
                            i <= total_children,
                            total_children == all0.len(),
                            i as int + rest_nodes@.len() == all0.len(),
                            rest_nodes@ == all0.skip(i as int),
                            pairs_v(leaves@) == leaf_children(nodes_v(all0.take(i as int))),
                            frames_v(dirs@) == dir_frames(
                                nodes_v(all0.take(i as int)),
                                (depth + 1) as nat,
                            ),
                            forall|j: int|
                                0 <= j < dirs@.len() ==> frame_wf(#[trigger] frames_v(dirs@)[j])
                                    && frame_depth(frames_v(dirs@)[j]) == depth + 1,
                        decreases rest_nodes@.len(),
                    {
                        let ghost lpre = pairs_v(leaves@);
                        let ghost dpre = frames_v(dirs@);
                        let (nm, ent) = rest_nodes.remove(0);
                        let ghost nmv = nm@;
                        let ghost ev = entry_v(ent);
                        proof {
                            assert(all0.skip(i as int)[0] == all0[i as int]);
                            assert((nm, ent) == all0[i as int]);
                            assert(rest_nodes@ =~= all0.skip(i + 1));
                            let tk1 = all0.take(i + 1);
                            assert(tk1.drop_last() =~= all0.take(i as int));
                            assert(tk1.last() == all0[i as int]);
                            lemma_nodes_v_index(tk1);
                            lemma_nodes_v_index(all0.take(i as int));
                            assert forall|j: int| 0 <= j < nodes_v(tk1).len() implies nodes_v(
                                tk1,
                            )[j] == (nodes_v(all0.take(i as int)) + seq![(nmv, ev)])[j] by {
                                if j < i {
                                    assert(tk1[j] == all0[j]);
                                    assert(all0.take(i as int)[j] == all0[j]);
                                } else {
                                    assert(tk1[j] == all0[i as int]);
                                }
                            }
                            assert(nodes_v(tk1) =~= nodes_v(all0.take(i as int)) + seq![
                                (nmv, ev),
                            ]);
                            let es = nodes_v(tk1);
                            assert(es.drop_last() =~= nodes_v(all0.take(i as int)));
                            assert(es.last() == (nmv, ev));
                            assert(nodes_v(all0)[i as int] == (
                                all0[i as int].0@,
                                entry_v(all0[i as int].1),
                            ));
                            assert(dnodes[i as int] == (nmv, ev));
                            lemma_children_wf_at(dnodes, i as int);
                            assert(name_ok(nmv) && entry_wf(ev));
                            lemma_children_height_at(dnodes, i as int);
                            assert(entry_height(ev) <= children_height(dnodes));
                        }
                        match ent {
                            Entry::Directory(d) => {
                                let ghost dv = dir_v(d);
                                let ghost dmid = dirs@;
                                dirs.push(
                                    Visited::Descent {
                                        node: d,
                                        name: Option::Some(nm),
                                        depth: depth + 1,
                                    },
                                );
                                proof {
                                    assert(ev == EntryV::Dir(dv));
                                    let newfr = FrameV::Descent {
                                        node: dv,
                                        name: Option::Some(nmv),
                                        depth: (depth + 1) as nat,
                                    };
                                    assert(frame_wf(newfr));
                                    assert forall|j: int|
                                        0 <= j < frames_v(dirs@).len() implies frames_v(dirs@)[j]
                                        == (dpre + seq![newfr])[j] by {
                                        if j < dmid.len() {
                                            assert(dirs@[j] == dmid[j]);
                                        } else {
                                            assert(dirs@[j] == Visited::Descent {
                                                node: d,
                                                name: Option::Some(nm),
                                                depth: (depth + 1) as usize,
                                            });
                                        }
                                    }
                                    assert(frames_v(dirs@) =~= dpre + seq![newfr]);
                                    assert(pairs_v(leaves@) =~= leaf_children(
                                        nodes_v(all0.take(i + 1)),
                                    ));
                                    assert(frames_v(dirs@) =~= dir_frames(
                                        nodes_v(all0.take(i + 1)),
                                        (depth + 1) as nat,
                                    ));
                                }
                            },
                            Entry::Leaf(l) => {
                                let ghost lmid = leaves@;
                                let ghost lv = l@;
                                leaves.push((nm, l));
                                proof {
                                    assert(ev == EntryV::Leaf(lv));
                                    assert forall|j: int|
                                        0 <= j < pairs_v(leaves@).len() implies pairs_v(leaves@)[j]
                                        == (lpre + seq![(nmv, lv)])[j] by {
                                        if j < lmid.len() {
                                            assert(leaves@[j] == lmid[j]);
                                        } else {
                                            assert(leaves@[j] == (nm, l));
                                        }
                                    }
                                    assert(pairs_v(leaves@) =~= lpre + seq![(nmv, lv)]);
                                    assert(pairs_v(leaves@) =~= leaf_children(
                                        nodes_v(all0.take(i + 1)),
                                    ));
                                    assert(frames_v(dirs@) =~= dir_frames(
                                        nodes_v(all0.take(i + 1)),
                                        (depth + 1) as nat,
                                    ));
                                }
                            },
                        }
                        i = i + 1;
                    }
                    proof {
                        assert(all0.take(i as int) =~= all0);
                        assert(frames_v(dirs@) == dir_frames(dnodes, (depth + 1) as nat));
                        assert(pairs_v(leaves@) == leaf_children(dnodes));
                    }
                    let ghost stack_mid = frames_v(self.pending@);
                    let ghost pend1 = self.pending@;
                    self.pending.push(
                        Visited::Post { parent_id, id, name, depth, leaves },
                    );
                    let ghost stack_mid2 = frames_v(self.pending@);
                    let ghost pend2 = self.pending@;
                    let ghost postv = FrameV::Post {
                        parent_id,
                        id,
                        name: namev,
                        depth: depth as nat,
                        leaves: leaf_children(dnodes),
                    };
                    proof {
                        assert forall|j: int| 0 <= j < stack_mid2.len() implies stack_mid2[j] == (
                        stack_mid + seq![postv])[j] by {
                            if j < stack_mid.len() {
                                assert(self.pending@[j] == pend1[j]);
                            }
                        }
                        assert(stack_mid2 =~= stack_mid + seq![postv]);
                    }
                    let ghost dirs0 = dirs@;
                    self.pending.append(&mut dirs);
                    let ghost dfs = dir_frames(dnodes, (depth + 1) as nat);
                    let ghost newstack = pre.stack.drop_last() + seq![postv] + dfs;
                    proof {
                        assert forall|j: int| 0 <= j < frames_v(self.pending@).len() implies
                            frames_v(self.pending@)[j] == newstack[j] by {
                            if j < stack_mid2.len() {
                                assert(self.pending@[j] == pend2[j]);
                                assert(visited_v(self.pending@[j]) == stack_mid2[j]);
                            } else {
                                assert(self.pending@[j] == dirs0[j - stack_mid2.len()]);
                                assert(frames_v(dirs0)[j - stack_mid2.len()] == visited_v(
                                    dirs0[j - stack_mid2.len()],
                                ));
                            }
                        }
                        assert(frames_v(self.pending@) =~= newstack);
                        let s2 = StateV {
                            path: pd.0,
                            old_depth: pd.1,
                            stack: newstack,
                            table: pre.table,
                            result: pre.result,
                            wrap: pre.wrap,
                            limit: pre.limit,
                        };
                        assert(self@ =~= s2);
                        assert(run(pre) == run(s2));
                        assert(run(self@) == run(old(self)@));
                        // the machine got strictly lighter: the popped frame
                        // weighed one more than the frames it expanded into
                        lemma_stack_weight_concat(pre.stack.drop_last(), seq![postv]);
                        lemma_stack_weight_concat(pre.stack.drop_last() + seq![postv], dfs);
                        lemma_dir_frames_weight(dnodes, (depth + 1) as nat);
                        assert(seq![postv].drop_last() =~= Seq::<FrameV>::empty());
                        assert(stack_weight(Seq::<FrameV>::empty()) == 0);
                        assert(stack_weight(seq![postv]) == frame_weight(postv));
                        assert(stack_weight(pre.stack) == stack_weight(pre.stack.drop_last())
                            + frame_weight(fv));
                        assert(stack_weight(newstack) < stack_weight(pre.stack));
                        // well-formedness of the new state
                        assert forall|j: int| 0 <= j < newstack.len() implies frame_wf(
                            #[trigger] newstack[j],
                        ) by {
                            if j < pre.stack.len() - 1 {
                                assert(newstack[j] == pre.stack[j]);
                            } else if j == pre.stack.len() - 1 {
                                assert(newstack[j] == postv);
                            } else {
                                assert(newstack[j] == dfs[j - pre.stack.len()]);
                            }
                        }
                        assert forall|j: int| 0 <= j < newstack.len() - 1 implies frame_depth(
                            #[trigger] newstack[j],
                        ) <= frame_depth(newstack[j + 1]) + 1 by {
                            if j + 1 < pre.stack.len() - 1 {
                                assert(newstack[j] == pre.stack[j]);
                                assert(newstack[j + 1] == pre.stack[j + 1]);
                            } else if j + 1 == pre.stack.len() - 1 {
                                assert(newstack[j] == pre.stack[j]);
                                assert(newstack[j + 1] == postv);
                                assert(frame_depth(pre.stack[j]) <= frame_depth(pre.stack[j + 1])
                                    + 1);
                                assert(pre.stack[j + 1] == fv);
                            } else if j + 1 == pre.stack.len() {
                                assert(newstack[j] == postv);
                                assert(newstack[j + 1] == dfs[0]);
                                assert(frame_depth(dfs[0]) == depth + 1);
                            } else {
                                assert(newstack[j] == dfs[j - pre.stack.len()]);
                                assert(newstack[j + 1] == dfs[j + 1 - pre.stack.len()]);
                            }
                        }
                        if newstack.len() > 0 {
                            if dfs.len() > 0 {
                                assert(newstack.last() == dfs[dfs.len() - 1]);
                            } else {
                                assert(newstack.last() == postv);
                            }
                            assert(frame_depth(newstack.last()) <= self.old_depth + 1);
                        }
                        assert(self.wf());
                    }
                },
                Visited::Post { parent_id, id, name, leaves, .. } => {
                    let ghost leavesv = pairs_v(leaves@);
                    let ghost taken = table_take(pre.table, Option::Some(id));
                    let collected0 = table_take_exec(&mut self.persisted_cids, Option::Some(id));
                    let mut collected = collected0;
                    proof {
                        lemma_table_take_sorted(pre.table, Option::Some(id));
                    }
                    vec_merge_links(&mut collected, leaves);
                    let ghost links = merge_links(taken.1, leavesv);
                    proof {
                        assert(pairs_v(collected@) == links);
                        lemma_merge_links_sorted(taken.1, leavesv);
                        assert(sorted_by_name(links));
                    }
                    let unwrap_root = !self.opts.wrap_with_directory && (match parent_id {
                        Option::None => true,
                        Option::Some(_) => false,
                    });
                    if unwrap_root {
                        if collected.len() == 1 {
                            let entry0 = collected.remove(0);
                            let leaf0 = entry0.1;
                            proof {
                                assert(links[0] == (entry0.0@, leaf0@));
                            }
                            self.cid = Option::Some(leaf0.link);
                            self.total_size = leaf0.total_size;
                        }
                        self.pending.clear();
                        proof {
                            assert(frames_v(self.pending@) =~= Seq::<FrameV>::empty());
                            assert(run(self@).items.len() == 0);
                            assert(run(self@).result == self@.result);
                            assert(self@.result == run(pre).result);
                            assert(seg_count(self.full_path@) == self.old_depth as nat);
                            assert(self.wf());
                        }
                        return Option::None;
                    }
                    let res = Self::render_directory(
                        &collected,
                        &mut self.block_buffer,
                        &self.opts.block_size_limit,
                    );
                    match res {
                        Result::Err(e) => {
                            self.pending.clear();
                            proof {
                                assert(frames_v(self.pending@) =~= Seq::<FrameV>::empty());
                                assert(run(self@).items.len() == 0);
                                assert(run(self@).result == self@.result);
                                assert(run(pre).items[0] == ItemV::TooLarge(
                                    #[verifier::truncate] (dir_block(links).len() as u64),
                                ));
                                assert(self.wf());
                            }
                            return Option::Some(Result::Err(e));
                        },
                        Result::Ok(leaf) => {
                            let ghost leafv = LeafV {
                                link: cid_v0_of(dir_block(links)),
                                total_size: sum_from(
                                    #[verifier::truncate] (dir_block(links).len() as u64),
                                    links,
                                ),
                            };
                            proof {
                                assert(leaf@ == leafv);
                            }
                            self.cid = Option::Some(copy_bytes(&leaf.link));
                            self.total_size = leaf.total_size;
                            match name {
                                Option::Some(n) => {
                                    table_deposit_exec(
                                        &mut self.persisted_cids,
                                        parent_id,
                                        n,
                                        leaf,
                                    );
                                    proof {
                                        lemma_table_deposit_sorted(
                                            taken.0,
                                            parent_id,
                                            n@,
                                            leafv,
                                        );
                                    }
                                },
                                Option::None => {},
                            }
                            proof {
                                let s2 = StateV {
                                    path: pd.0,
                                    old_depth: pd.1,
                                    stack: pre.stack.drop_last(),
                                    table: (match frame_name(fv) {
                                        Option::Some(n) => table_deposit(
                                            taken.0,
                                            parent_id,
                                            n,
                                            leafv,
                                        ),
                                        Option::None => taken.0,
                                    }),
                                    result: Option::Some(leafv),
                                    wrap: pre.wrap,
                                    limit: pre.limit,
                                };
                                assert(self@ =~= s2);
                                assert(run(pre).items == seq![
                                    ItemV::Node(
                                        NodeV {
                                            path: pd.0,
                                            cid: leafv.link,
                                            total_size: leafv.total_size,
                                            block: dir_block(links),
                                        },
                                    ),
                                ] + run(s2).items);
                                assert(run(pre).result == run(s2).result);
                                assert(run(pre).items.drop_first() =~= run(s2).items);
                                assert forall|j: int| 0 <= j < self@.stack.len() implies frame_wf(
                                    #[trigger] self@.stack[j],
                                ) by {
                                    assert(self@.stack[j] == pre.stack[j]);
                                }
                                assert forall|j: int|
                                    0 <= j < self@.stack.len() - 1 implies frame_depth(
                                    #[trigger] self@.stack[j],
                                ) <= frame_depth(self@.stack[j + 1]) + 1 by {
                                    assert(self@.stack[j] == pre.stack[j]);
                                    assert(self@.stack[j + 1] == pre.stack[j + 1]);
                                }
                                if self@.stack.len() > 0 {
                                    let top = pre.stack.len() - 2;
                                    assert(self@.stack.last() == pre.stack[top]);
                                    assert(frame_depth(pre.stack[top]) <= frame_depth(
                                        pre.stack[top + 1],
                                    ) + 1);
                                    assert(pre.stack[top + 1] == fv);
                                }
                                assert(self.wf());
                            }
                            let out = match &self.cid {
                                Option::Some(c) => {
                                    Option::Some(
                                        Result::Ok(
                                            TreeNode {
                                                path: &self.full_path,
                                                cid: c,
                                                total_size: self.total_size,
                                                block: &self.block_buffer,
                                            },
                                        ),
                                    )
                                },
                                Option::None => {
                                    proof {
                                        assert(false);
                                    }
                                    Option::None
                                },
                            };
                            return out;
                        },
                    }
                },
            }
        }
    }

    /// Constructs the next directory node as an owned, detached value.
    pub fn next(&mut self) -> (r: Option<Result<OwnedTreeNode, TreeConstructionFailed>>)
        requires
            old(self).wf(),
        ensures
            final(self).wf(),
            run(final(self)@).result == run(old(self)@).result,
            (match r {
                Option::None => run(old(self)@).items.len() == 0 && run(final(self)@).items.len()
                    == 0 && final(self)@.result == run(old(self)@).result,
                Option::Some(item) => match item {
                    Result::Ok(node) => {
                        &&& run(old(self)@).items.len() > 0
                        &&& run(old(self)@).items[0] == ItemV::Node(
                            NodeV {
                                path: node.path@,
                                cid: node.cid@,
                                total_size: node.total_size,
                                block: node.block@,
                            },
                        )
                        &&& run(final(self)@).items == run(old(self)@).items.drop_first()
                        &&& node.cid@ == cid_v0_of(node.block@)
                        &&& exists|ls: Seq<(Seq<u8>, LeafV)>|
                            sorted_by_name(ls) && node.block@ == dir_block(ls) && node.total_size
                                == sum_from(
                                #[verifier::truncate] (node.block@.len() as u64),
                                ls,
                            )
                    },
                    Result::Err(e) => {
                        &&& run(old(self)@).items.len() > 0
                        &&& run(old(self)@).items[0] == (match e {
                            TreeConstructionFailed::TooLargeBlock(s) => ItemV::TooLarge(s),
                        })
                        &&& run(final(self)@).items.len() == 0
                    },
                },
            }),
    {
        match self.next_borrowed() {
            Option::None => Option::None,
            Option::Some(Result::Ok(node)) => Option::Some(Result::Ok(node.into_owned())),
            Option::Some(Result::Err(e)) => Option::Some(Result::Err(e)),
        }
    }

    /// The overall result recorded so far: content identifier bytes and
    /// cumulative size of the last finished node or, when directory
    /// wrapping is off, of the sole top-level entry.
    pub fn result_leaf(&self) -> (r: Option<Leaf>)
        ensures
            (match (r, self@.result) {
                (Option::Some(l), Option::Some(v)) => l@ == v,
                (Option::None, Option::None) => true,
                _ => false,
            }),
    {
        match &self.cid {
            Option::Some(c) => Option::Some(
                Leaf { link: copy_bytes(c), total_size: self.total_size },
            ),
            Option::None => Option::None,
        }
    }
}

} // verus!
