use sha2::Digest;
use unixfs_dir::iter::{OwnedTreeNode, PostOrderIterator};
use unixfs_dir::tree::{DirBuilder, Entry, Leaf, TreeConstructionFailed, TreeOptions};

fn leaf(cid: &[u8], total: u64) -> Leaf {
    Leaf { link: cid.to_vec(), total_size: total }
}

fn dir(id: u64, parent: Option<u64>, nodes: Vec<(Vec<u8>, Entry)>) -> DirBuilder {
    DirBuilder { id, parent_id: parent, nodes }
}

fn opts(wrap: bool, limit: Option<u64>) -> TreeOptions {
    TreeOptions { wrap_with_directory: wrap, block_size_limit: limit }
}

fn varint(mut n: u64) -> Vec<u8> {
    let mut v = Vec::new();
    loop {
        if n < 128 {
            v.push(n as u8);
            return v;
        }
        v.push((n % 128 + 128) as u8);
        n /= 128;
    }
}

fn link_bytes(name: &[u8], cid: &[u8], tsize: u64) -> Vec<u8> {
    let mut body = vec![10u8];
    body.extend(varint(cid.len() as u64));
    body.extend_from_slice(cid);
    body.push(18);
    body.extend(varint(name.len() as u64));
    body.extend_from_slice(name);
    body.push(24);
    body.extend(varint(tsize));
    let mut out = vec![18u8];
    out.extend(varint(body.len() as u64));
    out.extend(body);
    out
}

fn dir_block_bytes(links: &[(&[u8], &[u8], u64)]) -> Vec<u8> {
    let mut out = Vec::new();
    for (n, c, t) in links {
        out.extend(link_bytes(n, c, *t));
    }
    out.extend_from_slice(&[10, 2, 8, 1]);
    out
}

fn cid_v0(block: &[u8]) -> Vec<u8> {
    let mut v = vec![0x12u8, 0x20];
    v.extend_from_slice(&sha2::Sha256::digest(block));
    v
}

fn collect(it: &mut PostOrderIterator) -> Vec<OwnedTreeNode> {
    let mut out = Vec::new();
    loop {
        match it.next() {
            None => return out,
            Some(Ok(n)) => out.push(n),
            Some(Err(e)) => panic!("unexpected traversal failure: {:?}", e),
        }
    }
}

#[test]
fn empty_directory_renders_metadata_only() {
    let links: Vec<(Vec<u8>, Leaf)> = Vec::new();
    let mut buf: Vec<u8> = Vec::new();
    let r = PostOrderIterator::render_directory(&links, &mut buf, &None).unwrap();
    assert_eq!(buf, vec![10u8, 2, 8, 1]);
    assert_eq!(r.link, cid_v0(&buf));
    assert_eq!(r.total_size, 4);
}

#[test]
fn varint_encoding_is_exact() {
    let mut v: Vec<u8> = Vec::new();
    unixfs_dir::pb::push_varint(&mut v, 0);
    assert_eq!(v, vec![0u8]);
    let mut v: Vec<u8> = Vec::new();
    unixfs_dir::pb::push_varint(&mut v, 300);
    assert_eq!(v, vec![0xACu8, 0x02]);
    let mut v: Vec<u8> = Vec::new();
    unixfs_dir::pb::push_varint(&mut v, u64::MAX);
    assert_eq!(v.len(), 10);
}

#[test]
fn rendered_links_appear_in_ascending_name_order() {
    let links = vec![
        (b"a".to_vec(), leaf(&[1, 2], 10)),
        (b"b".to_vec(), leaf(&[3, 4], 20)),
    ];
    let mut buf: Vec<u8> = Vec::new();
    let r = PostOrderIterator::render_directory(&links, &mut buf, &None).unwrap();
    let expected = dir_block_bytes(&[(b"a", &[1, 2], 10), (b"b", &[3, 4], 20)]);
    assert_eq!(buf, expected);
    assert_eq!(r.link, cid_v0(&expected));
}

#[test]
fn cumulative_size_is_own_bytes_plus_children() {
    let links = vec![
        (b"a".to_vec(), leaf(&[1, 2], 10)),
        (b"b".to_vec(), leaf(&[3, 4], 20)),
    ];
    let mut buf: Vec<u8> = Vec::new();
    let r = PostOrderIterator::render_directory(&links, &mut buf, &None).unwrap();
    assert_eq!(r.total_size, buf.len() as u64 + 30);
}

#[test]
fn size_limit_leaves_buffer_untouched() {
    let links = vec![(b"a".to_vec(), leaf(&[1, 2], 10))];
    let expected_len = dir_block_bytes(&[(b"a", &[1, 2], 10)]).len() as u64;
    let mut buf: Vec<u8> = vec![9, 9, 9];
    let r = PostOrderIterator::render_directory(&links, &mut buf, &Some(4));
    assert_eq!(r.unwrap_err(), TreeConstructionFailed::TooLargeBlock(expected_len));
    assert_eq!(buf, vec![9, 9, 9]);
}

#[test]
fn post_order_paths_for_nested_tree() {
    // { a: { x: {} }, b: leaf }: only directories emit nodes, children first
    let x = dir(2, Some(1), vec![]);
    let a = dir(1, Some(0), vec![(b"x".to_vec(), Entry::Directory(x))]);
    let root = dir(
        0,
        None,
        vec![
            (b"a".to_vec(), Entry::Directory(a)),
            (b"b".to_vec(), Entry::Leaf(leaf(&[7, 7], 5))),
        ],
    );
    let mut it = PostOrderIterator::new(root, opts(true, None));
    let nodes = collect(&mut it);
    let paths: Vec<&[u8]> = nodes.iter().map(|n| n.path.as_slice()).collect();
    assert_eq!(paths, vec![b"a/x".as_slice(), b"a".as_slice(), b"".as_slice()]);

    // every node's block embeds its children as rendered: check the chain
    let x_block = dir_block_bytes(&[]);
    let x_cid = cid_v0(&x_block);
    assert_eq!(nodes[0].block, x_block);
    assert_eq!(nodes[0].cid, x_cid);
    let a_block = dir_block_bytes(&[(b"x", &x_cid, 4)]);
    let a_cid = cid_v0(&a_block);
    assert_eq!(nodes[1].block, a_block);
    assert_eq!(nodes[1].cid, a_cid);
    assert_eq!(nodes[1].total_size, a_block.len() as u64 + 4);
    let root_block = dir_block_bytes(&[
        (b"a", &a_cid, nodes[1].total_size),
        (b"b", &[7, 7], 5),
    ]);
    assert_eq!(nodes[2].block, root_block);
    assert_eq!(nodes[2].cid, cid_v0(&root_block));
    assert_eq!(nodes[2].total_size, root_block.len() as u64 + nodes[1].total_size + 5);

    // the overall result is the root's
    let result = it.result_leaf().unwrap();
    assert_eq!(result.link, nodes[2].cid);
    assert_eq!(result.total_size, nodes[2].total_size);
}

#[test]
fn sibling_directories_complete_deepest_name_first() {
    let a = dir(1, Some(0), vec![]);
    let b = dir(2, Some(0), vec![]);
    let root = dir(
        0,
        None,
        vec![
            (b"a".to_vec(), Entry::Directory(a)),
            (b"b".to_vec(), Entry::Directory(b)),
        ],
    );
    let mut it = PostOrderIterator::new(root, opts(true, None));
    let nodes = collect(&mut it);
    let paths: Vec<&[u8]> = nodes.iter().map(|n| n.path.as_slice()).collect();
    assert_eq!(paths, vec![b"b".as_slice(), b"a".as_slice(), b"".as_slice()]);
    // both siblings land in the root's links in ascending name order
    let empty_cid = cid_v0(&dir_block_bytes(&[]));
    let root_block = dir_block_bytes(&[(b"a", &empty_cid, 4), (b"b", &empty_cid, 4)]);
    assert_eq!(nodes[2].block, root_block);
}

#[test]
fn traversal_is_deterministic() {
    let build = || {
        let x = dir(2, Some(1), vec![(b"f".to_vec(), Entry::Leaf(leaf(&[9, 9, 9], 33)))]);
        let a = dir(1, Some(0), vec![(b"x".to_vec(), Entry::Directory(x))]);
        dir(
            0,
            None,
            vec![
                (b"a".to_vec(), Entry::Directory(a)),
                (b"b".to_vec(), Entry::Leaf(leaf(&[7], 5))),
            ],
        )
    };
    let mut it1 = PostOrderIterator::new(build(), opts(true, None));
    let mut it2 = PostOrderIterator::new(build(), opts(true, None));
    let n1 = collect(&mut it1);
    let n2 = collect(&mut it2);
    assert_eq!(n1.len(), n2.len());
    for (u, v) in n1.iter().zip(n2.iter()) {
        assert_eq!(u.path, v.path);
        assert_eq!(u.cid, v.cid);
        assert_eq!(u.total_size, v.total_size);
        assert_eq!(u.block, v.block);
    }
}

#[test]
fn size_limit_error_stops_the_sequence() {
    // the inner directory's encoding exceeds the limit: no node for it,
    // nor for any ancestor
    let big = dir(
        1,
        Some(0),
        vec![(b"file-with-a-long-name".to_vec(), Entry::Leaf(leaf(&[1; 34], 100)))],
    );
    let root = dir(0, None, vec![(b"a".to_vec(), Entry::Directory(big))]);
    let expected_len =
        dir_block_bytes(&[(b"file-with-a-long-name", &[1; 34], 100)]).len() as u64;
    let mut it = PostOrderIterator::new(root, opts(true, Some(16)));
    match it.next() {
        Some(Err(TreeConstructionFailed::TooLargeBlock(s))) => assert_eq!(s, expected_len),
        other => panic!("expected a size-limit failure, got {:?}", other.is_some()),
    }
    assert!(it.next().is_none());
}

#[test]
fn single_root_unwrap_yields_the_sole_leaf() {
    let root = dir(
        0,
        None,
        vec![(b"only.txt".to_vec(), Entry::Leaf(leaf(&[0x12, 0x20, 0xAB], 123)))],
    );
    let mut it = PostOrderIterator::new(root, opts(false, None));
    assert!(it.next().is_none());
    let result = it.result_leaf().unwrap();
    assert_eq!(result.link, vec![0x12u8, 0x20, 0xAB]);
    assert_eq!(result.total_size, 123);
}

#[test]
fn wrapping_a_single_leaf_emits_one_directory_node() {
    let root = dir(
        0,
        None,
        vec![(b"only.txt".to_vec(), Entry::Leaf(leaf(&[0xAB, 0xCD], 123)))],
    );
    let mut it = PostOrderIterator::new(root, opts(true, None));
    let nodes = collect(&mut it);
    assert_eq!(nodes.len(), 1);
    assert_eq!(nodes[0].path, b"".to_vec());
    let block = dir_block_bytes(&[(b"only.txt", &[0xAB, 0xCD], 123)]);
    assert_eq!(nodes[0].block, block);
    assert_eq!(nodes[0].cid, cid_v0(&block));
}

#[test]
fn leaves_and_directories_merge_sorted_by_name() {
    let m = dir(1, Some(0), vec![]);
    let root = dir(
        0,
        None,
        vec![
            (b"a".to_vec(), Entry::Leaf(leaf(&[1], 1))),
            (b"m".to_vec(), Entry::Directory(m)),
            (b"z".to_vec(), Entry::Leaf(leaf(&[2], 2))),
        ],
    );
    let mut it = PostOrderIterator::new(root, opts(true, None));
    let nodes = collect(&mut it);
    assert_eq!(nodes.len(), 2);
    let empty_cid = cid_v0(&dir_block_bytes(&[]));
    let root_block = dir_block_bytes(&[
        (b"a", &[1], 1),
        (b"m", &empty_cid, 4),
        (b"z", &[2], 2),
    ]);
    assert_eq!(nodes[1].block, root_block);
}

#[test]
fn path_tracker_pops_back_to_the_target_depth() {
    let mut path = b"a/b/c".to_vec();
    let mut depth: usize = 3;
    let name = b"d".to_vec();
    unixfs_dir::path::update_full_path(&mut path, &mut depth, Some(&name), 2);
    assert_eq!(path, b"a/d".to_vec());
    assert_eq!(depth, 2);
    unixfs_dir::path::update_full_path(&mut path, &mut depth, None, 0);
    assert_eq!(path, b"".to_vec());
    assert_eq!(depth, 0);
    let top = b"top".to_vec();
    unixfs_dir::path::update_full_path(&mut path, &mut depth, Some(&top), 1);
    assert_eq!(path, b"top".to_vec());
    assert_eq!(depth, 1);
}
