//! The path tracker: the full slash-separated path of the node currently
//! being processed, maintained incrementally from only a depth and an
//! optional name per frame.

use vstd::prelude::*;
use crate::links::no_slash;

verus! {

/// Index of the last path-separator byte, or -1 when none occurs.
pub open spec fn last_slash(p: Seq<u8>) -> int
    decreases p.len(),
{
    if p.len() == 0 {
        -1
    } else if p.last() == 47u8 {
        p.len() - 1
    } else {
        last_slash(p.drop_last())
    }
}

pub proof fn lemma_last_slash(p: Seq<u8>)
    ensures
        -1 <= last_slash(p) < p.len(),
        last_slash(p) >= 0 ==> p[last_slash(p)] == 47u8,
        forall|k: int| last_slash(p) < k < p.len() ==> p[k] != 47u8,
    decreases p.len(),
{
    if p.len() == 0 {
    } else if p.last() == 47u8 {
    } else {
        lemma_last_slash(p.drop_last());
        assert forall|k: int| last_slash(p) < k < p.len() implies p[k] != 47u8 by {
            if k < p.len() - 1 {
                assert(p.drop_last()[k] == p[k]);
            }
        }
    }
}

/// The path with its last segment removed.
pub open spec fn popped(p: Seq<u8>) -> Seq<u8> {
    if last_slash(p) >= 0 {
        p.take(last_slash(p))
    } else {
        seq![]
    }
}

/// Number of slash-separated segments: zero for the empty path.
pub open spec fn seg_count(p: Seq<u8>) -> nat
    decreases p.len(),
{
    if p.len() == 0 {
        0
    } else if last_slash(p) < 0 {
        1
    } else {
        proof {
            lemma_last_slash(p);
        }
        1 + seg_count(p.take(last_slash(p)))
    }
}

pub proof fn lemma_seg_count_pop(p: Seq<u8>)
    requires
        seg_count(p) >= 2,
    ensures
        0 <= last_slash(p) < p.len(),
        seg_count(popped(p)) == seg_count(p) - 1,
{
    lemma_last_slash(p);
}

/// A nonempty separator-free string is a single segment.
pub proof fn lemma_seg_count_single(n: Seq<u8>)
    requires
        n.len() >= 1,
        no_slash(n),
    ensures
        seg_count(n) == 1,
{
    lemma_last_slash(n);
    if last_slash(n) >= 0 {
        assert(n[last_slash(n)] == 47u8);
    }
}

pub proof fn lemma_last_slash_append(p: Seq<u8>, n: Seq<u8>)
    requires
        p.len() >= 1,
        n.len() >= 1,
        no_slash(n),
    ensures
        last_slash(p + seq![47u8] + n) == p.len(),
        seg_count(p + seq![47u8] + n) == seg_count(p) + 1,
{
    let q = p + seq![47u8] + n;
    lemma_last_slash(q);
    let ls = last_slash(q);
    assert(q[p.len() as int] == 47u8);
    if ls < p.len() {
        assert(q[p.len() as int] != 47u8);
    }
    if ls > p.len() {
        assert(q[ls] == n[ls - p.len() - 1]);
        assert(q[ls] != 47u8);
    }
    assert(ls == p.len());
    assert(q.take(ls) =~= p);
}

/// Repeatedly pops the last segment while the tracked depth has not yet
/// fallen under the target depth.
pub open spec fn pop_to(p: Seq<u8>, od: nat, depth: nat) -> (Seq<u8>, nat)
    decreases od,
{
    if od >= depth && od > 0 {
        pop_to(popped(p), (od - 1) as nat, depth)
    } else {
        (p, od)
    }
}

/// Appends one segment, separated from a nonempty path by a slash.
pub open spec fn append_name(p: Seq<u8>, n: Seq<u8>) -> Seq<u8> {
    if p.len() > 0 {
        p + seq![47u8] + n
    } else {
        n
    }
}

pub open spec fn name_v(n: Option<&Vec<u8>>) -> Option<Seq<u8>> {
    match n {
        Option::Some(v) => Option::Some(v@),
        Option::None => Option::None,
    }
}

/// The tracked path and depth after one update for a frame with the given
/// name and depth: depths under two reset the path, deeper frames pop back
/// to just above the target depth, and a present name is appended.
pub open spec fn path_after(p: Seq<u8>, od: nat, name: Option<Seq<u8>>, depth: nat) -> (
    Seq<u8>,
    nat,
) {
    let q = if depth < 2 {
        (Seq::<u8>::empty(), 0nat)
    } else {
        pop_to(p, od, depth)
    };
    match name {
        Option::Some(n) => (append_name(q.0, n), q.1 + 1),
        Option::None => q,
    }
}

/// Mutates the tracked path in place so that it names the frame currently
/// being processed.  The tracked depth always equals `depth` afterwards.
#[verifier::loop_isolation(false)]
pub fn update_full_path(
    full_path: &mut Vec<u8>,
    old_depth: &mut usize,
    name: Option<&Vec<u8>>,
    depth: usize,
)
    requires
        match name {
            Option::Some(n) => depth >= 1 && n@.len() >= 1 && no_slash(n@),
            Option::None => depth == 0,
        },
        depth >= 2 ==> *old(old_depth) >= depth - 1 && seg_count(old(full_path)@) == *old(
            old_depth,
        ),
    ensures
        *final(old_depth) == depth,
        seg_count(final(full_path)@) == depth,
        (final(full_path)@, *final(old_depth) as nat) == path_after(
            old(full_path)@,
            *old(old_depth) as nat,
            name_v(name),
            depth as nat,
        ),
{
    if depth < 2 {
        full_path.clear();
        *old_depth = 0;
        proof {
            assert(full_path@ =~= Seq::<u8>::empty());
        }
    } else {
        while *old_depth >= depth
            invariant
                seg_count(full_path@) == *old_depth as nat,
                *old_depth + 1 >= depth,
                pop_to(full_path@, *old_depth as nat, depth as nat) == pop_to(
                    old(full_path)@,
                    *old(old_depth) as nat,
                    depth as nat,
                ),
            decreases *old_depth,
        {
            let ghost pre_path = full_path@;
            let ghost pre_od = *old_depth as nat;
            proof {
                lemma_seg_count_pop(pre_path);
                lemma_last_slash(pre_path);
            }
            let ghost ls = last_slash(full_path@);
            let mut j: usize = full_path.len();
            while full_path[j - 1] != 47u8
                invariant
                    0 <= ls < j,
                    j <= full_path@.len(),
                    forall|k: int| j <= k < full_path@.len() ==> full_path@[k] != 47u8,
                decreases j,
            {
                proof {
                    if ls == j - 1 {
                        assert(full_path@[j - 1] == 47u8);
                    }
                }
                j = j - 1;
            }
            proof {
                if ls < j - 1 {
                    assert(full_path@[j - 1] != 47u8);
                }
                assert(ls == j - 1);
            }
            full_path.truncate(j - 1);
            *old_depth = *old_depth - 1;
            proof {
                assert(full_path@ =~= popped(pre_path));
                assert(pop_to(pre_path, pre_od, depth as nat) == pop_to(
                    full_path@,
                    *old_depth as nat,
                    depth as nat,
                ));
            }
        }
    }
    match name {
        Option::Some(n) => {
            let ghost base = full_path@;
            if full_path.len() > 0 {
                full_path.push(47u8);
            }
            full_path.extend_from_slice(n.as_slice());
            *old_depth = *old_depth + 1;
            proof {
                if base.len() > 0 {
                    assert(full_path@ =~= base + seq![47u8] + n@);
                    lemma_last_slash_append(base, n@);
                } else {
                    assert(full_path@ =~= n@);
                    lemma_seg_count_single(n@);
                }
                assert(full_path@ == append_name(base, n@));
            }
        },
        Option::None => {},
    }
}

} // verus!
