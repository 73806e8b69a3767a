//! The resource tree: a snapshot of a filesystem subtree, indexed depth
//! first.
//!
//! Every entry of the subtree gets the identifier at which a pre-order walk
//! reaches it; the served root is entry 0. The snapshot is taken once and
//! not changed afterwards.

use crate::bytes::{bytes_eq, push_bytes};
use vstd::prelude::*;

verus! {

/// An entry of a filesystem subtree as it was read: its path, and for a
/// directory its entries in the order the filesystem gave them.
#[derive(Debug)]
pub struct FsNode {
    pub path: Vec<u8>,
    pub children: Vec<FsNode>,
}

/// The paths of the resources, each at the index that is its identifier.
#[derive(Debug, Clone, PartialEq, Eq)]
pub struct ResourceTree {
    pub paths: Vec<Vec<u8>>,
}

/// The byte strings that `paths` holds.
pub open spec fn path_views(paths: Seq<Vec<u8>>) -> Seq<Seq<u8>> {
    Seq::new(paths.len(), |i: int| paths[i]@)
}

impl View for ResourceTree {
    type V = Seq<Seq<u8>>;

    open spec fn view(&self) -> Seq<Seq<u8>> {
        path_views(self.paths@)
    }
}

/// The paths of `node` and of everything below it, parents before children
/// and siblings in their order.
pub open spec fn preorder(node: FsNode) -> Seq<Seq<u8>>
    decreases node, 1nat,
{
    seq![node.path@] + preorder_all(node, node.children@.len())
}

/// The paths of the subtrees of the first `n` children of `node`.
pub open spec fn preorder_all(node: FsNode, n: nat) -> Seq<Seq<u8>>
    decreases node, 0nat, n,
{
    if n == 0 || n > node.children@.len() {
        Seq::empty()
    } else {
        preorder_all(node, (n - 1) as nat) + preorder(node.children@[n - 1])
    }
}

/// The greatest index at which `paths` holds `path`, if it holds it.
pub open spec fn last_index_of(paths: Seq<Seq<u8>>, path: Seq<u8>) -> Option<nat>
    decreases paths.len(),
{
    if paths.len() == 0 {
        None
    } else if paths.last() == path {
        Some((paths.len() - 1) as nat)
    } else {
        last_index_of(paths.drop_last(), path)
    }
}

/// Appends the paths of `node` and of everything below it to `paths`, in
/// pre-order.
pub fn collect_subtree(node: &FsNode, paths: &mut Vec<Vec<u8>>)
    ensures
        path_views(final(paths)@) == path_views(old(paths)@) + preorder(*node),
    decreases node,
{
    let mut path: Vec<u8> = Vec::new();
    push_bytes(&mut path, node.path.as_slice());
    paths.push(path);
    assert(path_views(paths@) =~= path_views(old(paths)@) + seq![node.path@]);
    let n = node.children.len();
    let mut i: usize = 0;
    while i < n
        invariant
            i <= n,
            n == node.children@.len(),
            path_views(paths@) == path_views(old(paths)@) + seq![node.path@] + preorder_all(
                *node,
                i as nat,
            ),
        decreases n - i,
    {
        collect_subtree(&node.children[i], paths);
        assert(path_views(paths@) =~= path_views(old(paths)@) + seq![node.path@] + preorder_all(
            *node,
            (i + 1) as nat,
        ));
        i = i + 1;
    }
    assert(path_views(paths@) =~= path_views(old(paths)@) + preorder(*node));
}

/// Indexes the subtree under `root`: the identifier of an entry is its
/// position in the pre-order walk, so the root is resource 0.
pub fn tree(root: &FsNode) -> (index: ResourceTree)
    ensures
        index@ == preorder(*root),
        index@.len() >= 1,
        index@[0] == root.path@,
{
    let mut paths: Vec<Vec<u8>> = Vec::new();
    collect_subtree(root, &mut paths);
    assert(path_views(paths@) =~= preorder(*root));
    ResourceTree { paths }
}

impl ResourceTree {
    /// Number of resources.
    pub fn len(&self) -> (n: usize)
        ensures
            n == self@.len(),
    {
        self.paths.len()
    }

    /// Reverse lookup: the identifier of the resource at `path`. Where a path
    /// was indexed more than once, the entry indexed last answers.
    pub fn index_of(&self, path: &[u8]) -> (found: Option<usize>)
        ensures
            found is Some ==> last_index_of(self@, path@) == Some(found.unwrap() as nat),
            found is None ==> last_index_of(self@, path@) is None,
    {
        let mut i: usize = self.paths.len();
        assert(self@.take(i as int) =~= self@);
        while i > 0
            invariant
                i <= self.paths@.len(),
                last_index_of(self@, path@) == last_index_of(self@.take(i as int), path@),
            decreases i,
        {
            assert(self@.take(i as int).drop_last() =~= self@.take(i - 1));
            if bytes_eq(self.paths[i - 1].as_slice(), path) {
                return Some(i - 1);
            }
            i = i - 1;
        }
        assert(self@.take(0) =~= Seq::<Seq<u8>>::empty());
        None
    }
}

/// What a reverse lookup finds holds the path, nothing after it does, and
/// the lookup fails only for a path that was not indexed.
pub proof fn lemma_last_index_of(paths: Seq<Seq<u8>>, path: Seq<u8>)
    ensures
        last_index_of(paths, path) matches Some(i) ==> i < paths.len() && paths[i as int] == path
            && forall|j: int| i < j < paths.len() ==> paths[j] != path,
        last_index_of(paths, path) is None ==> forall|j: int|
            0 <= j < paths.len() ==> paths[j] != path,
    decreases paths.len(),
{
    if paths.len() > 0 && paths.last() != path {
        let front = paths.drop_last();
        lemma_last_index_of(front, path);
        assert(forall|j: int| 0 <= j < front.len() ==> front[j] == paths[j]);
    }
}

/// Where no path was indexed twice, the reverse lookup of the path of
/// resource `id` is `id`.
pub proof fn lemma_index_of_path(paths: Seq<Seq<u8>>, id: int)
    requires
        0 <= id < paths.len(),
        forall|i: int, j: int| 0 <= i < j < paths.len() ==> paths[i] != paths[j],
    ensures
        last_index_of(paths, paths[id]) == Some(id as nat),
{
    lemma_last_index_of(paths, paths[id]);
}

} // verus!
