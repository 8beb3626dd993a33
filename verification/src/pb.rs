//! The dag-pb wire format of a directory node: base-128 varints, one
//! length-delimited link entry per child in ascending name order, and the
//! metadata sub-message that marks the node as a directory.

use vstd::prelude::*;
use crate::tree::{Leaf, LeafV};

verus! {

/// Protobuf's unsigned base-128 varint encoding.
pub open spec fn varint(n: nat) -> Seq<u8>
    decreases n,
{
    if n < 128 {
        seq![n as u8]
    } else {
        seq![(128 + (n % 128)) as u8] + varint(n / 128)
    }
}

/// A length-delimited field body: the byte length as a varint, then the
/// bytes themselves.
pub open spec fn len_prefixed(b: Seq<u8>) -> Seq<u8> {
    varint(b.len()) + b
}

/// One link entry: the child's content-identifier bytes embedded verbatim
/// (field 1), the child's name (field 2), and its cumulative size (field 3).
pub open spec fn link_message(name: Seq<u8>, cid: Seq<u8>, tsize: u64) -> Seq<u8> {
    seq![10u8] + len_prefixed(cid) + seq![18u8] + len_prefixed(name) + seq![24u8] + varint(
        tsize as nat,
    )
}

/// The metadata sub-message: its sole field says "directory".
pub open spec fn metadata_message() -> Seq<u8> {
    seq![8u8, 1u8]
}

/// The link entries of a directory, in the order given, each as a
/// length-delimited message under the link field tag.
pub open spec fn links_section(links: Seq<(Seq<u8>, LeafV)>) -> Seq<u8>
    decreases links.len(),
{
    if links.len() == 0 {
        seq![]
    } else {
        seq![18u8] + len_prefixed(
            link_message(links[0].0, links[0].1.link, links[0].1.total_size),
        ) + links_section(links.drop_first())
    }
}

/// The full wire encoding of one directory node: all links, then the
/// length-delimited metadata field.
pub open spec fn dir_block(links: Seq<(Seq<u8>, LeafV)>) -> Seq<u8> {
    links_section(links) + seq![10u8] + len_prefixed(metadata_message())
}

/// Appends the varint encoding of `n`.
pub fn push_varint(buf: &mut Vec<u8>, n: u64)
    ensures
        final(buf)@ == old(buf)@ + varint(n as nat),
{
    let mut m: u64 = n;
    loop
        invariant
            old(buf)@ + varint(n as nat) == buf@ + varint(m as nat),
        decreases m,
    {
        if m < 128 {
            buf.push(m as u8);
            proof {
                assert(varint(m as nat) == seq![m as u8]);
                assert(buf@ =~= old(buf)@ + varint(n as nat));
            }
            return ;
        }
        let ghost pre = buf@;
        let b: u8 = ((m % 128) + 128) as u8;
        buf.push(b);
        proof {
            assert(varint(m as nat) == seq![b] + varint(m as nat / 128));
            assert(pre + varint(m as nat) =~= buf@ + varint((m / 128) as nat));
        }
        m = m / 128;
    }
}

/// Appends one link entry for a named leaf.
fn push_link(buf: &mut Vec<u8>, name: &Vec<u8>, leaf: &Leaf)
    ensures
        final(buf)@ == old(buf)@ + seq![18u8] + len_prefixed(link_message(name@, leaf.link@, leaf.total_size)),
{
    let mut body: Vec<u8> = Vec::new();
    body.push(10u8);
    push_varint(&mut body, leaf.link.len() as u64);
    body.extend_from_slice(leaf.link.as_slice());
    body.push(18u8);
    push_varint(&mut body, name.len() as u64);
    body.extend_from_slice(name.as_slice());
    body.push(24u8);
    push_varint(&mut body, leaf.total_size);
    proof {
        assert(body@ =~= link_message(name@, leaf.link@, leaf.total_size));
    }
    buf.push(18u8);
    push_varint(buf, body.len() as u64);
    buf.extend_from_slice(body.as_slice());
    proof {
        assert(buf@ =~= old(buf)@ + seq![18u8] + len_prefixed(
            link_message(name@, leaf.link@, leaf.total_size),
        ));
    }
}

/// Writes the full wire encoding of a directory with the given links into
/// `buf`, replacing its previous contents.
#[verifier::loop_isolation(false)]
pub fn encode_dir_block(links: &Vec<(Vec<u8>, Leaf)>, buf: &mut Vec<u8>)
    ensures
        final(buf)@ == dir_block(crate::links::pairs_v(links@)),
{
    let ghost lv = crate::links::pairs_v(links@);
    buf.clear();
    let mut i: usize = 0;
    proof {
        assert(lv.skip(0) =~= lv);
        assert(buf@ + links_section(lv) =~= links_section(lv));
    }
    while i < links.len()
        invariant
            i <= links.len(),
            links_section(lv) == buf@ + links_section(lv.skip(i as int)),
        decreases links@.len() - i,
    {
        let ghost pre = buf@;
        push_link(buf, &links[i].0, &links[i].1);
        proof {
            assert(lv.skip(i as int)[0] == lv[i as int]);
            assert(lv[i as int] == (links@[i as int].0@, links@[i as int].1@));
            assert(lv.skip(i as int).drop_first() =~= lv.skip(i + 1));
            assert(links_section(lv.skip(i as int)) == seq![18u8] + len_prefixed(
                link_message(lv[i as int].0, lv[i as int].1.link, lv[i as int].1.total_size),
            ) + links_section(lv.skip(i + 1)));
            assert(links_section(lv) =~= buf@ + links_section(lv.skip(i + 1)));
        }
        i = i + 1;
    }
    proof {
        assert(lv.skip(i as int) =~= Seq::<(Seq<u8>, LeafV)>::empty());
        assert(links_section(lv.skip(i as int)) =~= Seq::<u8>::empty());
        assert(links_section(lv) =~= buf@);
    }
    buf.push(10u8);
    push_varint(buf, 2u64);
    buf.push(8u8);
    buf.push(1u8);
    proof {
        assert(varint(2nat) =~= seq![2u8]);
        assert(buf@ =~= dir_block(lv));
    }
}

} // verus!
