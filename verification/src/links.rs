//! Name-ordered link lists: the lexicographic byte order on names, sorted
//! insertion, merging, and the propagation table that carries finalized
//! child results up to their parents.

use vstd::prelude::*;
use crate::tree::{Leaf, LeafV, sorted_by_name};

verus! {

/// Strict lexicographic order on byte strings.
pub open spec fn lex_lt(a: Seq<u8>, b: Seq<u8>) -> bool
    decreases a.len(),
{
    if b.len() == 0 {
        false
    } else if a.len() == 0 {
        true
    } else if a[0] < b[0] {
        true
    } else if a[0] > b[0] {
        false
    } else {
        lex_lt(a.drop_first(), b.drop_first())
    }
}

/// No path-separator byte occurs in the string.
pub open spec fn no_slash(n: Seq<u8>) -> bool {
    forall|i: int| 0 <= i < n.len() ==> n[i] != 47u8
}

pub proof fn lemma_lex_lt_irrefl(a: Seq<u8>, b: Seq<u8>)
    requires
        lex_lt(a, b),
    ensures
        a != b,
    decreases a.len(),
{
    if b.len() == 0 {
    } else if a.len() == 0 {
    } else if a[0] < b[0] {
    } else if a[0] > b[0] {
    } else {
        lemma_lex_lt_irrefl(a.drop_first(), b.drop_first());
        if a == b {
            assert(a.drop_first() == b.drop_first());
        }
    }
}

pub proof fn lemma_lex_lt_asym(a: Seq<u8>, b: Seq<u8>)
    requires
        lex_lt(a, b),
    ensures
        !lex_lt(b, a),
    decreases a.len(),
{
    if b.len() == 0 {
    } else if a.len() == 0 {
    } else if a[0] < b[0] {
    } else if a[0] > b[0] {
    } else {
        lemma_lex_lt_asym(a.drop_first(), b.drop_first());
    }
}

pub proof fn lemma_lex_lt_total(a: Seq<u8>, b: Seq<u8>)
    requires
        !lex_lt(a, b),
        !lex_lt(b, a),
    ensures
        a == b,
    decreases a.len(),
{
    if b.len() == 0 {
        assert(a.len() == 0);
        assert(a =~= b);
    } else if a.len() == 0 {
    } else {
        lemma_lex_lt_total(a.drop_first(), b.drop_first());
        assert(a =~= seq![a[0]] + a.drop_first());
        assert(b =~= seq![b[0]] + b.drop_first());
    }
}

pub proof fn lemma_lex_lt_trans(a: Seq<u8>, b: Seq<u8>, c: Seq<u8>)
    requires
        lex_lt(a, b),
        lex_lt(b, c),
    ensures
        lex_lt(a, c),
    decreases a.len(),
{
    if c.len() == 0 {
    } else if b.len() == 0 {
    } else if a.len() == 0 {
    } else if a[0] < b[0] {
        if b[0] < c[0] {
        } else {
            assert(b[0] == c[0]);
        }
    } else {
        assert(a[0] == b[0]);
        if b[0] < c[0] {
        } else {
            assert(b[0] == c[0]);
            lemma_lex_lt_trans(a.drop_first(), b.drop_first(), c.drop_first());
        }
    }
}

/// Compares two names in lexicographic byte order.
pub fn name_lt(a: &Vec<u8>, b: &Vec<u8>) -> (r: bool)
    ensures
        r == lex_lt(a@, b@),
{
    let mut i: usize = 0;
    proof {
        assert(a@.skip(0) =~= a@);
        assert(b@.skip(0) =~= b@);
    }
    loop
        invariant
            i <= a.len(),
            i <= b.len(),
            lex_lt(a@, b@) == lex_lt(a@.skip(i as int), b@.skip(i as int)),
        decreases a@.len() - i,
    {
        if i == b.len() {
            assert(b@.skip(i as int).len() == 0);
            return false;
        }
        if i == a.len() {
            assert(a@.skip(i as int).len() == 0);
            return true;
        }
        let x = a[i];
        let y = b[i];
        assert(a@.skip(i as int)[0] == a@[i as int]);
        assert(b@.skip(i as int)[0] == b@[i as int]);
        if x < y {
            return true;
        }
        if x > y {
            return false;
        }
        assert(a@.skip(i as int).drop_first() =~= a@.skip(i + 1));
        assert(b@.skip(i as int).drop_first() =~= b@.skip(i + 1));
        i = i + 1;
    }
}

/// Inserts a named leaf into a name-ordered list; an entry under the same
/// name is replaced.
pub open spec fn insert_link(l: Seq<(Seq<u8>, LeafV)>, x: (Seq<u8>, LeafV)) -> Seq<(Seq<u8>, LeafV)>
    decreases l.len(),
{
    if l.len() == 0 {
        seq![x]
    } else if lex_lt(x.0, l[0].0) {
        seq![x] + l
    } else if x.0 == l[0].0 {
        seq![x] + l.drop_first()
    } else {
        seq![l[0]] + insert_link(l.drop_first(), x)
    }
}

pub proof fn lemma_insert_link_split(l: Seq<(Seq<u8>, LeafV)>, x: (Seq<u8>, LeafV), i: int)
    requires
        0 <= i <= l.len(),
        forall|j: int| 0 <= j < i ==> lex_lt(#[trigger] l[j].0, x.0),
    ensures
        insert_link(l, x) == l.take(i) + insert_link(l.skip(i), x),
    decreases i,
{
    if i == 0 {
        assert(l.skip(0) =~= l);
        assert(l.take(0) + insert_link(l, x) =~= insert_link(l, x));
    } else {
        lemma_lex_lt_asym(l[0].0, x.0);
        lemma_lex_lt_irrefl(l[0].0, x.0);
        assert(insert_link(l, x) == seq![l[0]] + insert_link(l.drop_first(), x));
        lemma_insert_link_split(l.drop_first(), x, i - 1);
        assert(l.drop_first().take(i - 1) =~= l.take(i).drop_first());
        assert(l.drop_first().skip(i - 1) =~= l.skip(i));
        assert(seq![l[0]] + (l.drop_first().take(i - 1) + insert_link(l.skip(i), x)) =~= l.take(i)
            + insert_link(l.skip(i), x));
    }
}

pub proof fn lemma_insert_link_sorted(l: Seq<(Seq<u8>, LeafV)>, x: (Seq<u8>, LeafV))
    requires
        sorted_by_name(l),
    ensures
        sorted_by_name(insert_link(l, x)),
    decreases l.len(),
{
    let r = insert_link(l, x);
    if l.len() == 0 {
    } else if lex_lt(x.0, l[0].0) {
        assert forall|i: int, j: int| 0 <= i < j < r.len() implies lex_lt(r[i].0, r[j].0) by {
            if i == 0 {
                if j == 1 {
                } else {
                    lemma_lex_lt_trans(x.0, l[0].0, l[j - 1].0);
                }
            }
        }
    } else if x.0 == l[0].0 {
        assert forall|i: int, j: int| 0 <= i < j < r.len() implies lex_lt(r[i].0, r[j].0) by {
            assert(r[i] == if i == 0 { x } else { l[i] });
            assert(r[j] == l[j]);
        }
    } else {
        if !lex_lt(l[0].0, x.0) {
            lemma_lex_lt_total(x.0, l[0].0);
            assert(false);
        }
        assert(sorted_by_name(l.drop_first())) by {
            assert forall|i: int, j: int|
                0 <= i < j < l.drop_first().len() implies lex_lt(
                l.drop_first()[i].0,
                l.drop_first()[j].0,
            ) by {
                assert(l.drop_first()[i] == l[i + 1]);
                assert(l.drop_first()[j] == l[j + 1]);
            }
        }
        lemma_insert_link_sorted(l.drop_first(), x);
        let t = insert_link(l.drop_first(), x);
        lemma_insert_link_elems(l.drop_first(), x);
        assert forall|i: int, j: int| 0 <= i < j < r.len() implies lex_lt(r[i].0, r[j].0) by {
            if i == 0 {
                assert(r[j] == t[j - 1]);
                if exists|k: int| 0 <= k < l.drop_first().len() && t[j - 1] == l.drop_first()[k] {
                    let k = choose|k: int|
                        0 <= k < l.drop_first().len() && t[j - 1] == l.drop_first()[k];
                    assert(l.drop_first()[k] == l[k + 1]);
                } else {
                    assert(t[j - 1] == x);
                }
            } else {
                assert(r[i] == t[i - 1]);
                assert(r[j] == t[j - 1]);
            }
        }
    }
}

/// Every element of an insertion result is the inserted pair or one of the
/// original elements.
pub proof fn lemma_insert_link_elems(l: Seq<(Seq<u8>, LeafV)>, x: (Seq<u8>, LeafV))
    ensures
        forall|i: int|
            0 <= i < insert_link(l, x).len() ==> (#[trigger] insert_link(l, x)[i] == x || exists|
                k: int,
            | 0 <= k < l.len() && insert_link(l, x)[i] == l[k]),
    decreases l.len(),
{
    let r = insert_link(l, x);
    if l.len() == 0 {
    } else if lex_lt(x.0, l[0].0) {
        assert forall|i: int| 0 <= i < r.len() implies (r[i] == x || exists|k: int|
            0 <= k < l.len() && r[i] == l[k]) by {
            if i > 0 {
                assert(r[i] == l[i - 1]);
            }
        }
    } else if x.0 == l[0].0 {
        assert forall|i: int| 0 <= i < r.len() implies (r[i] == x || exists|k: int|
            0 <= k < l.len() && r[i] == l[k]) by {
            if i > 0 {
                assert(r[i] == l[i]);
            }
        }
    } else {
        lemma_insert_link_elems(l.drop_first(), x);
        let t = insert_link(l.drop_first(), x);
        assert forall|i: int| 0 <= i < r.len() implies (r[i] == x || exists|k: int|
            0 <= k < l.len() && r[i] == l[k]) by {
            if i > 0 {
                assert(r[i] == t[i - 1]);
                if t[i - 1] != x {
                    let k = choose|k: int|
                        0 <= k < l.drop_first().len() && t[i - 1] == l.drop_first()[k];
                    assert(l.drop_first()[k] == l[k + 1]);
                }
            }
        }
    }
}

/// Merges named leaves into a name-ordered list, one insertion per element,
/// in element order; later entries replace earlier ones of the same name.
pub open spec fn merge_links(
    l: Seq<(Seq<u8>, LeafV)>,
    adds: Seq<(Seq<u8>, LeafV)>,
) -> Seq<(Seq<u8>, LeafV)>
    decreases adds.len(),
{
    if adds.len() == 0 {
        l
    } else {
        merge_links(insert_link(l, adds[0]), adds.drop_first())
    }
}

pub proof fn lemma_merge_links_sorted(l: Seq<(Seq<u8>, LeafV)>, adds: Seq<(Seq<u8>, LeafV)>)
    requires
        sorted_by_name(l),
    ensures
        sorted_by_name(merge_links(l, adds)),
    decreases adds.len(),
{
    if adds.len() == 0 {
    } else {
        lemma_insert_link_sorted(l, adds[0]);
        lemma_merge_links_sorted(insert_link(l, adds[0]), adds.drop_first());
    }
}

/// View of a list of named leaves.
pub open spec fn pairs_v(s: Seq<(Vec<u8>, Leaf)>) -> Seq<(Seq<u8>, LeafV)> {
    Seq::new(s.len(), |i: int| (s[i].0@, s[i].1@))
}

/// Inserts a named leaf into a name-ordered vector, replacing an entry of
/// equal name.
#[verifier::loop_isolation(false)]
pub fn vec_insert_link(l: &mut Vec<(Vec<u8>, Leaf)>, name: Vec<u8>, leaf: Leaf)
    ensures
        pairs_v(final(l)@) == insert_link(pairs_v(old(l)@), (name@, leaf@)),
{
    let ghost l0 = pairs_v(l@);
    let ghost x = (name@, leaf@);
    let mut i: usize = 0;
    loop
        invariant
            i <= l.len(),
            pairs_v(l@) == l0,
            forall|j: int| 0 <= j < i ==> lex_lt(#[trigger] l0[j].0, x.0),
        decreases l@.len() - i,
    {
        proof {
            lemma_insert_link_split(l0, x, i as int);
        }
        if i == l.len() {
            let ghost pre = l@;
            l.push((name, leaf));
            proof {
                assert(l0.skip(i as int).len() == 0);
                assert(insert_link(l0.skip(i as int), x) == seq![x]);
                let target = l0.take(i as int) + seq![x];
                assert forall|j: int| 0 <= j < pairs_v(l@).len() implies pairs_v(l@)[j]
                    == target[j] by {
                    if j < pre.len() {
                        assert(l@[j] == pre[j]);
                        assert(pairs_v(pre)[j] == l0[j]);
                    } else {
                        assert(l@[j] == (name, leaf));
                    }
                }
                assert(pairs_v(l@) =~= target);
            }
            return ;
        }
        assert(l0[i as int] == (l@[i as int].0@, l@[i as int].1@));
        if name_lt(&name, &l[i].0) {
            let ghost pre = l@;
            l.insert(i, (name, leaf));
            proof {
                assert(l0.skip(i as int)[0] == l0[i as int]);
                assert(insert_link(l0.skip(i as int), x) == seq![x] + l0.skip(i as int));
                let target = l0.take(i as int) + (seq![x] + l0.skip(i as int));
                assert forall|j: int| 0 <= j < pairs_v(l@).len() implies pairs_v(l@)[j]
                    == target[j] by {
                    if j < i {
                        assert(l@[j] == pre[j]);
                        assert(pairs_v(pre)[j] == l0[j]);
                    } else if j == i {
                        assert(l@[j] == (name, leaf));
                    } else {
                        assert(l@[j] == pre[j - 1]);
                        assert(pairs_v(pre)[j - 1] == l0[j - 1]);
                    }
                }
                assert(pairs_v(l@) =~= target);
            }
            return ;
        }
        if !name_lt(&l[i].0, &name) {
            proof {
                if !lex_lt(x.0, l0[i as int].0) && !lex_lt(l0[i as int].0, x.0) {
                    lemma_lex_lt_total(x.0, l0[i as int].0);
                }
                assert(l0.skip(i as int)[0] == l0[i as int]);
                assert(insert_link(l0.skip(i as int), x) == seq![x] + l0.skip(
                    i as int,
                ).drop_first());
                assert(l0.skip(i as int).drop_first() =~= l0.skip(i + 1));
            }
            let ghost pre = l@;
            l[i] = (name, leaf);
            proof {
                let target = l0.take(i as int) + (seq![x] + l0.skip(i + 1));
                assert forall|j: int| 0 <= j < pairs_v(l@).len() implies pairs_v(l@)[j]
                    == target[j] by {
                    if j < i {
                        assert(l@[j] == pre[j]);
                        assert(pairs_v(pre)[j] == l0[j]);
                    } else if j == i {
                        assert(l@[j] == (name, leaf));
                    } else {
                        assert(l@[j] == pre[j]);
                        assert(pairs_v(pre)[j] == l0[j]);
                    }
                }
                assert(pairs_v(l@) =~= target);
            }
            return ;
        }
        i = i + 1;
    }
}

/// Merges collected leaves into a name-ordered vector, consuming them in
/// order.
#[verifier::loop_isolation(false)]
pub fn vec_merge_links(l: &mut Vec<(Vec<u8>, Leaf)>, adds: Vec<(Vec<u8>, Leaf)>)
    ensures
        pairs_v(final(l)@) == merge_links(pairs_v(old(l)@), pairs_v(adds@)),
{
    let ghost l0 = pairs_v(l@);
    let ghost a0 = pairs_v(adds@);
    let mut rest = adds;
    proof {
        assert(pairs_v(rest@) == a0);
    }
    loop
        invariant
            merge_links(l0, a0) == merge_links(pairs_v(l@), pairs_v(rest@)),
        decreases rest@.len(),
    {
        if rest.len() == 0 {
            proof {
                assert(pairs_v(rest@).len() == 0);
                assert(merge_links(pairs_v(l@), pairs_v(rest@)) == pairs_v(l@));
            }
            return ;
        }
        let ghost before = pairs_v(l@);
        let ghost r0 = pairs_v(rest@);
        let ghost rv = rest@;
        let (name, leaf) = rest.remove(0);
        proof {
            assert(r0[0] == (name@, leaf@));
            assert forall|j: int| 0 <= j < pairs_v(rest@).len() implies pairs_v(rest@)[j]
                == r0.drop_first()[j] by {
                assert(rest@[j] == rv[j + 1]);
            }
            assert(pairs_v(rest@) =~= r0.drop_first());
            assert(merge_links(before, r0) == merge_links(
                insert_link(before, r0[0]),
                pairs_v(rest@),
            ));
        }
        vec_insert_link(l, name, leaf);
    }
}

} // verus!
