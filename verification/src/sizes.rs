//! Directory sizes: the recursive size of a directory tree, remembered per
//! directory path.

use vstd::prelude::*;
use vstd::hash_map::StringHashMap;

verus! {

/// A picture of what stands at a path on disk, taken without following
/// symbolic links.
pub enum FsNode {
    /// A symbolic link. It is never followed.
    Symlink,
    /// A regular file of `size` bytes.
    File { size: u64 },
    /// A directory at `path` with what stands in it.
    Directory { path: String, children: Vec<FsNode> },
    /// A directory that cannot be read, or anything that is none of the
    /// above.
    Unreadable,
}

/// The bytes of all regular files under `node`.
pub open spec fn total(node: FsNode) -> nat
    decreases node,
{
    match node {
        FsNode::File { size } => size as nat,
        FsNode::Directory { path, children } => total_of(children, children.len() as nat),
        _ => 0,
    }
}

/// The bytes of all regular files under the first `n` of `children`.
pub open spec fn total_of(children: Vec<FsNode>, n: nat) -> nat
    decreases children, n,
{
    if n == 0 || n > children.len() {
        0
    } else {
        total_of(children, (n - 1) as nat) + total(children[n - 1])
    }
}

/// The sizes that are remembered, by directory path.
pub type Sizes = Map<Seq<char>, u64>;

/// What a walk over `node` returns and leaves remembered, where `cache` is
/// what was remembered before: a remembered directory is not entered, any
/// other directory is the sum of what stands in it and is remembered from
/// then on. The size is none if a sum exceeds 64 bits; the walk ends there.
pub open spec fn walk(node: FsNode, cache: Sizes) -> (Option<u64>, Sizes)
    decreases node,
{
    match node {
        FsNode::File { size } => (Some(size), cache),
        FsNode::Directory { path, children } => if cache.contains_key(path@) {
            (Some(cache[path@]), cache)
        } else {
            let (sum, after) = walk_children(children, children.len() as nat, cache);
            match sum {
                Some(s) => (Some(s), after.insert(path@, s)),
                None => (None, after),
            }
        },
        _ => (Some(0), cache),
    }
}

/// The walk over the first `n` of `children`, one after the other.
pub open spec fn walk_children(children: Vec<FsNode>, n: nat, cache: Sizes) -> (
    Option<u64>,
    Sizes,
)
    decreases children, n,
{
    if n == 0 || n > children.len() {
        (Some(0), cache)
    } else {
        let (sum, mid) = walk_children(children, (n - 1) as nat, cache);
        match sum {
            None => (None, mid),
            Some(s) => {
                let (size, after) = walk(children[n - 1], mid);
                match size {
                    None => (None, after),
                    Some(t) => if s + t > u64::MAX {
                        (None, after)
                    } else {
                        (Some((s + t) as u64), after)
                    },
                }
            },
        }
    }
}

/// The sizes of directories, by path.
pub struct SizeCache {
    sizes: StringHashMap<u64>,
}

impl View for SizeCache {
    type V = Sizes;

    closed spec fn view(&self) -> Sizes {
        self.sizes@
    }
}

impl SizeCache {
    /// A cache that remembers nothing.
    pub fn new() -> (cache: SizeCache)
        ensures
            cache@ == Sizes::empty(),
    {
        SizeCache { sizes: StringHashMap::new() }
    }

    /// The size remembered for the directory at `path`.
    pub fn get(&self, path: &str) -> (size: Option<u64>)
        ensures
            size == (if self@.contains_key(path@) {
                Some(self@[path@])
            } else {
                None
            }),
    {
        match self.sizes.get(path) {
            Some(size) => Some(*size),
            None => None,
        }
    }

    /// Remembers `size` for the directory at `path`.
    pub fn insert(&mut self, path: String, size: u64)
        ensures
            final(self)@ == old(self)@.insert(path@, size),
    {
        self.sizes.insert(path, size);
    }
}

/// Once the walk over some children has failed, it has failed for good.
proof fn lemma_walk_children_stops(children: Vec<FsNode>, n: nat, m: nat, cache: Sizes)
    requires
        n <= m <= children.len(),
        walk_children(children, n, cache).0 is None,
    ensures
        walk_children(children, m, cache) == walk_children(children, n, cache),
    decreases m,
{
    if n < m {
        lemma_walk_children_stops(children, n, (m - 1) as nat, cache);
    }
}

/// The recursive size of `node`: 0 for a symbolic link, the length of a
/// file, and for a directory the sum of what stands in it, which is looked
/// up in `cache` where it is remembered and remembered where it is not.
/// None if a sum does not fit in 64 bits.
pub fn size_of(node: &FsNode, cache: &mut SizeCache) -> (size: Option<u64>)
    ensures
        size == walk(*node, old(cache)@).0,
        final(cache)@ == walk(*node, old(cache)@).1,
    decreases node,
{
    match node {
        FsNode::File { size } => Some(*size),
        FsNode::Directory { path, children } => {
            if let Some(known) = cache.get(path.as_str()) {
                return Some(known);
            }
            let mut sum: u64 = 0;
            let mut i: usize = 0;
            while i < children.len()
                invariant
                    i <= children.len(),
                    *node == (FsNode::Directory { path: *path, children: *children }),
                    !old(cache)@.contains_key(path@),
                    walk_children(*children, i as nat, old(cache)@) == (Some(sum), cache@),
                decreases children.len() - i,
            {
                let ghost n = (i + 1) as nat;
                proof {
                    // The child is smaller than the directory that holds it.
                    vstd::std_specs::vec::axiom_vec_index_decreases(*children, i as int);
                    assert(decreases_to!(*node => node->children));
                }
                match size_of(&children[i], cache) {
                    None => {
                        proof {
                            lemma_walk_children_stops(
                                *children,
                                n,
                                children.len() as nat,
                                old(cache)@,
                            );
                        }
                        return None;
                    },
                    Some(child) => match sum.checked_add(child) {
                        None => {
                            proof {
                                lemma_walk_children_stops(
                                    *children,
                                    n,
                                    children.len() as nat,
                                    old(cache)@,
                                );
                            }
                            return None;
                        },
                        Some(more) => {
                            sum = more;
                        },
                    },
                }
                i += 1;
            }
            cache.insert(path.clone(), sum);
            Some(sum)
        },
        _ => Some(0),
    }
}


/// Whether two memories give the same size for every path that both hold.
pub open spec fn agrees(cache: Sizes, truth: Sizes) -> bool {
    forall|k: Seq<char>| cache.contains_key(k) && truth.contains_key(k) ==> cache[k] == truth[k]
}

/// Whether `truth` holds every directory of the tree under `node`, each
/// with the bytes of all regular files under it.
pub open spec fn recorded(node: FsNode, truth: Sizes) -> bool
    decreases node,
{
    match node {
        FsNode::Directory { path, children } => {
            &&& truth.contains_key(path@)
            &&& truth[path@] == total(node)
            &&& all_recorded(children, children.len() as nat, truth)
        },
        _ => true,
    }
}

/// Whether `truth` holds every directory under the first `n` of `children`.
pub open spec fn all_recorded(children: Vec<FsNode>, n: nat, truth: Sizes) -> bool
    decreases children, n,
{
    n == 0 || n > children.len() || (all_recorded(children, (n - 1) as nat, truth) && recorded(
        children[n - 1],
        truth,
    ))
}

/// The size of a directory is the sum of the sizes of what stands in it,
/// recursively: where every directory of the tree has one size, and the
/// cache holds no other size for any of them, the walk returns the bytes of
/// all regular files under the node, and the cache still holds no other
/// size afterwards.
pub proof fn lemma_walk_returns_total(node: FsNode, cache: Sizes, truth: Sizes)
    requires
        recorded(node, truth),
        agrees(cache, truth),
    ensures
        walk(node, cache).0 == Some(total(node) as u64),
        total(node) <= u64::MAX,
        agrees(walk(node, cache).1, truth),
    decreases node,
{
    match node {
        FsNode::Directory { path, children } => {
            if !cache.contains_key(path@) {
                lemma_walk_children_returns_total(children, children.len() as nat, cache, truth);
            }
        },
        _ => {},
    }
}

/// The walk over children of which every directory has one size.
pub proof fn lemma_walk_children_returns_total(
    children: Vec<FsNode>,
    n: nat,
    cache: Sizes,
    truth: Sizes,
)
    requires
        n <= children.len(),
        all_recorded(children, n, truth),
        agrees(cache, truth),
        total_of(children, n) <= u64::MAX,
    ensures
        walk_children(children, n, cache).0 == Some(total_of(children, n) as u64),
        agrees(walk_children(children, n, cache).1, truth),
    decreases children, n,
{
    if n > 0 {
        lemma_walk_children_returns_total(children, (n - 1) as nat, cache, truth);
        let mid = walk_children(children, (n - 1) as nat, cache).1;
        lemma_walk_returns_total(children[n - 1], mid, truth);
    }
}

/// A second walk returns what the first returned and remembers nothing new.
pub proof fn lemma_walk_again(node: FsNode, cache: Sizes)
    requires
        walk(node, cache).0 is Some,
    ensures
        walk(node, walk(node, cache).1) == walk(node, cache),
{
    match node {
        FsNode::Directory { path, children } => {
            if !cache.contains_key(path@) {
                let (sum, after) = walk_children(children, children.len() as nat, cache);
                let last = after.insert(path@, sum->0);
                assert(walk(node, cache).1 == last);
                assert(last.contains_key(path@));
            }
        },
        _ => {},
    }
}

/// What is remembered stays remembered, with the size it had.
pub proof fn lemma_walk_keeps_entries(node: FsNode, cache: Sizes)
    ensures
        cache.submap_of(walk(node, cache).1),
    decreases node,
{
    match node {
        FsNode::Directory { path, children } => {
            if !cache.contains_key(path@) {
                lemma_walk_children_keeps_entries(children, children.len() as nat, cache);
            }
        },
        _ => {},
    }
}

/// What is remembered stays remembered over a walk of several children.
pub proof fn lemma_walk_children_keeps_entries(children: Vec<FsNode>, n: nat, cache: Sizes)
    requires
        n <= children.len(),
    ensures
        cache.submap_of(walk_children(children, n, cache).1),
    decreases children, n,
{
    if n > 0 {
        lemma_walk_children_keeps_entries(children, (n - 1) as nat, cache);
        let mid = walk_children(children, (n - 1) as nat, cache).1;
        lemma_walk_keeps_entries(children[n - 1], mid);
        let after = walk(children[n - 1], mid).1;
        let last = walk_children(children, n, cache).1;
        assert(last == mid || last == after);
        assert forall|k: Seq<char>| cache.contains_key(k) implies #[trigger] last.contains_key(k)
            && last[k] == cache[k] by {
            assert(mid.contains_key(k) && mid[k] == cache[k]);
        }
    }
}

/// A symbolic link among some children changes neither their walk nor
/// their bytes.
proof fn lemma_children_without_symlink(
    with: Vec<FsNode>,
    without: Vec<FsNode>,
    k: int,
    n: nat,
    cache: Sizes,
)
    requires
        0 <= k <= without.len(),
        with@ == without@.insert(k, FsNode::Symlink),
        n <= without.len(),
    ensures
        n <= k ==> walk_children(with, n, cache) == walk_children(without, n, cache),
        n <= k ==> total_of(with, n) == total_of(without, n),
        n >= k ==> walk_children(with, n + 1, cache) == walk_children(without, n, cache),
        n >= k ==> total_of(with, n + 1) == total_of(without, n),
    decreases n,
{
    let inserted = without@.insert(k, FsNode::Symlink);
    assert(with@.len() == without@.len() + 1);
    if n > 0 {
        lemma_children_without_symlink(with, without, k, (n - 1) as nat, cache);
        if n <= k {
            assert(with@[n - 1] == inserted[n - 1]);
            assert(with[n - 1] == without[n - 1]);
        } else {
            assert(with@[n as int] == inserted[n as int]);
            assert(with[n as int] == without[n - 1]);
        }
    }
    if n == k {
        assert(with@[k] == inserted[k]);
        assert(with[k] == FsNode::Symlink);
        let (sum, mid) = walk_children(with, n, cache);
        assert(walk(with[k], mid) == (Some(0u64), mid));
        assert(walk_children(with, n + 1, cache) == walk_children(with, n, cache));
        assert(total(with[k]) == 0);
        assert(total_of(with, n + 1) == total_of(with, n));
    }
}

/// A symbolic link counts for nothing: a directory has the size, and leaves
/// remembered, what it would without the link.
pub proof fn lemma_symlink_counts_nothing(
    path: String,
    with: Vec<FsNode>,
    without: Vec<FsNode>,
    k: int,
    cache: Sizes,
)
    requires
        0 <= k <= without.len(),
        with@ == without@.insert(k, FsNode::Symlink),
    ensures
        walk(FsNode::Symlink, cache) == (Some(0u64), cache),
        total(FsNode::Symlink) == 0,
        walk(FsNode::Directory { path, children: with }, cache) == walk(
            FsNode::Directory { path, children: without },
            cache,
        ),
        total(FsNode::Directory { path, children: with }) == total(
            FsNode::Directory { path, children: without },
        ),
{
    lemma_children_without_symlink(with, without, k, without.len() as nat, cache);
}

/// What holds of a node holds of the directories above it: where one child
/// is replaced by a node that walks alike, the directory walks alike.
pub proof fn lemma_walk_of_like_children(
    path: String,
    one: Vec<FsNode>,
    other: Vec<FsNode>,
    k: int,
    cache: Sizes,
)
    requires
        one.len() == other.len(),
        0 <= k < one.len(),
        forall|j: int| 0 <= j < one.len() && j != k ==> one[j] == other[j],
        forall|c: Sizes| #[trigger] walk(one[k], c) == walk(other[k], c),
    ensures
        walk(FsNode::Directory { path, children: one }, cache) == walk(
            FsNode::Directory { path, children: other },
            cache,
        ),
{
    lemma_walk_children_alike(one, other, k, one.len() as nat, cache);
}

proof fn lemma_walk_children_alike(
    one: Vec<FsNode>,
    other: Vec<FsNode>,
    k: int,
    n: nat,
    cache: Sizes,
)
    requires
        one.len() == other.len(),
        0 <= k < one.len(),
        n <= one.len(),
        forall|j: int| 0 <= j < one.len() && j != k ==> one[j] == other[j],
        forall|c: Sizes| #[trigger] walk(one[k], c) == walk(other[k], c),
    ensures
        walk_children(one, n, cache) == walk_children(other, n, cache),
    decreases n,
{
    if n > 0 {
        lemma_walk_children_alike(one, other, k, (n - 1) as nat, cache);
        let mid = walk_children(one, (n - 1) as nat, cache).1;
        if n - 1 == k {
            assert(walk(one[k], mid) == walk(other[k], mid));
        } else {
            assert(one[n - 1] == other[n - 1]);
        }
        assert(walk(one[n - 1], mid) == walk(other[n - 1], mid));
    }
}


/// The paths of the directories of the tree under `node`.
pub open spec fn directory_paths(node: FsNode) -> Set<Seq<char>>
    decreases node,
{
    match node {
        FsNode::Directory { path, children } => directory_paths_of(
            children,
            children.len() as nat,
        ).insert(path@),
        _ => Set::empty(),
    }
}

/// The paths of the directories under the first `n` of `children`.
pub open spec fn directory_paths_of(children: Vec<FsNode>, n: nat) -> Set<Seq<char>>
    decreases children, n,
{
    if n == 0 || n > children.len() {
        Set::empty()
    } else {
        directory_paths_of(children, (n - 1) as nat).union(directory_paths(children[n - 1]))
    }
}

/// Whether no two directories of the tree under `node` have the same path,
/// as in any picture of a tree on disk.
pub open spec fn distinct_paths(node: FsNode) -> bool
    decreases node,
{
    match node {
        FsNode::Directory { path, children } => {
            &&& !directory_paths_of(children, children.len() as nat).contains(path@)
            &&& distinct_paths_of(children, children.len() as nat)
        },
        _ => true,
    }
}

/// Whether no two directories under the first `n` of `children` have the
/// same path.
pub open spec fn distinct_paths_of(children: Vec<FsNode>, n: nat) -> bool
    decreases children, n,
{
    n == 0 || n > children.len() || {
        &&& distinct_paths_of(children, (n - 1) as nat)
        &&& distinct_paths(children[n - 1])
        &&& directory_paths_of(children, (n - 1) as nat).disjoint(
            directory_paths(children[n - 1]),
        )
    }
}

/// The bytes under the first directory at `path` in the tree under `node`.
pub open spec fn size_at(node: FsNode, path: Seq<char>) -> Option<nat>
    decreases node,
{
    match node {
        FsNode::Directory { path: own, children } => if own@ == path {
            Some(total(node))
        } else {
            size_among(children, children.len() as nat, path)
        },
        _ => None,
    }
}

/// The bytes under the first directory at `path` under the first `n` of
/// `children`.
pub open spec fn size_among(children: Vec<FsNode>, n: nat, path: Seq<char>) -> Option<nat>
    decreases children, n,
{
    if n == 0 || n > children.len() {
        None
    } else {
        match size_among(children, (n - 1) as nat, path) {
            Some(size) => Some(size),
            None => size_at(children[n - 1], path),
        }
    }
}

/// The size of every directory of the tree under `node`, by path.
pub open spec fn true_sizes(node: FsNode) -> Sizes {
    Map::new(
        |path: Seq<char>| size_at(node, path) is Some,
        |path: Seq<char>| size_at(node, path)->0 as u64,
    )
}

/// A directory is found at a path exactly if it is one of the tree's, and
/// it holds no more bytes than the tree.
proof fn lemma_size_at_is_known(node: FsNode, path: Seq<char>)
    ensures
        size_at(node, path) is Some <==> directory_paths(node).contains(path),
        size_at(node, path) matches Some(size) ==> size <= total(node),
    decreases node,
{
    match node {
        FsNode::Directory { path: own, children } => {
            lemma_size_among_is_known(children, children.len() as nat, path);
        },
        _ => {},
    }
}

proof fn lemma_size_among_is_known(children: Vec<FsNode>, n: nat, path: Seq<char>)
    requires
        n <= children.len(),
    ensures
        size_among(children, n, path) is Some <==> directory_paths_of(children, n).contains(path),
        size_among(children, n, path) matches Some(size) ==> size <= total_of(children, n),
    decreases children, n,
{
    if n > 0 {
        lemma_size_among_is_known(children, (n - 1) as nat, path);
        lemma_size_at_is_known(children[n - 1], path);
    }
}

/// Whether `truth` holds the size of every directory of the tree under
/// `node`.
spec fn covers(truth: Sizes, node: FsNode) -> bool {
    forall|path: Seq<char>| #[trigger]
        size_at(node, path) is Some ==> truth.contains_key(path) && truth[path] == size_at(
            node,
            path,
        )->0
}

spec fn covers_among(truth: Sizes, children: Vec<FsNode>, n: nat) -> bool {
    forall|path: Seq<char>| #[trigger]
        size_among(children, n, path) is Some ==> truth.contains_key(path) && truth[path]
            == size_among(children, n, path)->0
}

proof fn lemma_covered_is_recorded(node: FsNode, truth: Sizes)
    requires
        distinct_paths(node),
        covers(truth, node),
    ensures
        recorded(node, truth),
    decreases node,
{
    match node {
        FsNode::Directory { path, children } => {
            let n = children.len() as nat;
            assert(size_at(node, path@) is Some);
            assert forall|k: Seq<char>| #[trigger] size_among(children, n, k) is Some implies truth.contains_key(k)
                && truth[k] == size_among(children, n, k)->0 by {
                lemma_size_among_is_known(children, n, k);
                assert(size_at(node, k) == size_among(children, n, k));
            }
            lemma_covered_are_recorded(children, n, truth);
        },
        _ => {},
    }
}

proof fn lemma_covered_are_recorded(children: Vec<FsNode>, n: nat, truth: Sizes)
    requires
        n <= children.len(),
        distinct_paths_of(children, n),
        covers_among(truth, children, n),
    ensures
        all_recorded(children, n, truth),
    decreases children, n,
{
    if n > 0 {
        let fewer = (n - 1) as nat;
        assert forall|k: Seq<char>| #[trigger] size_among(children, fewer, k) is Some implies truth.contains_key(k)
            && truth[k] == size_among(children, fewer, k)->0 by {
            assert(size_among(children, n, k) == size_among(children, fewer, k));
        }
        lemma_covered_are_recorded(children, fewer, truth);
        let child = children[n - 1];
        assert forall|k: Seq<char>| #[trigger] size_at(child, k) is Some implies truth.contains_key(k)
            && truth[k] == size_at(child, k)->0 by {
            lemma_size_at_is_known(child, k);
            lemma_size_among_is_known(children, fewer, k);
            assert(size_among(children, n, k) == size_at(child, k));
        }
        lemma_covered_is_recorded(child, truth);
    }
}

/// In a tree whose directories have distinct paths and whose bytes fit in
/// 64 bits, every directory has one size.
pub proof fn lemma_distinct_paths_are_recorded(node: FsNode)
    requires
        distinct_paths(node),
        total(node) <= u64::MAX,
    ensures
        recorded(node, true_sizes(node)),
{
    let truth = true_sizes(node);
    assert forall|path: Seq<char>| #[trigger] size_at(node, path) is Some implies truth.contains_key(path)
        && truth[path] == size_at(node, path)->0 by {
        lemma_size_at_is_known(node, path);
    }
    lemma_covered_is_recorded(node, truth);
}

/// The size of a directory is the sum of the sizes of what stands in it,
/// recursively: a walk that starts with nothing remembered, over a tree
/// whose directories have distinct paths, returns the bytes of all regular
/// files under the node, symbolic links counted as nothing.
pub proof fn lemma_first_walk_returns_total(node: FsNode)
    requires
        distinct_paths(node),
        total(node) <= u64::MAX,
    ensures
        walk(node, Sizes::empty()).0 == Some(total(node) as u64),
        walk(node, Sizes::empty()).1.submap_of(true_sizes(node)),
{
    lemma_distinct_paths_are_recorded(node);
    lemma_walk_returns_total(node, Sizes::empty(), true_sizes(node));
    lemma_walk_fills_from_truth(node, Sizes::empty(), true_sizes(node));
}

/// A walk remembers only sizes that are true, where what was remembered
/// before was.
pub proof fn lemma_walk_fills_from_truth(node: FsNode, cache: Sizes, truth: Sizes)
    requires
        recorded(node, truth),
        cache.submap_of(truth),
    ensures
        walk(node, cache).1.submap_of(truth),
    decreases node,
{
    match node {
        FsNode::Directory { path, children } => {
            if !cache.contains_key(path@) {
                let n = children.len() as nat;
                lemma_walk_children_fill_from_truth(children, n, cache, truth);
                lemma_walk_children_returns_total(children, n, cache, truth);
            }
        },
        _ => {},
    }
}

proof fn lemma_walk_children_fill_from_truth(
    children: Vec<FsNode>,
    n: nat,
    cache: Sizes,
    truth: Sizes,
)
    requires
        n <= children.len(),
        all_recorded(children, n, truth),
        cache.submap_of(truth),
    ensures
        walk_children(children, n, cache).1.submap_of(truth),
    decreases children, n,
{
    if n > 0 {
        lemma_walk_children_fill_from_truth(children, (n - 1) as nat, cache, truth);
        let mid = walk_children(children, (n - 1) as nat, cache).1;
        lemma_walk_fills_from_truth(children[n - 1], mid, truth);
    }
}

/// What a memory holds, a memory that extends it holds alike.
proof fn lemma_entry_is_kept(small: Sizes, large: Sizes, path: Seq<char>)
    requires
        small.submap_of(large),
        small.contains_key(path),
    ensures
        large.contains_key(path),
        large[path] == small[path],
{
    assert(small.dom().contains(path));
    assert(large.dom().contains(path));
}

/// After a walk every directory of the tree is remembered with its size:
/// where the directories have distinct paths, none of which was remembered
/// before, and the bytes fit in 64 bits, the walk returns the bytes under
/// the node, and the cache then holds what it held and, for each directory
/// of the tree, the bytes under that directory.
pub proof fn lemma_walk_remembers_every_directory(node: FsNode, cache: Sizes)
    requires
        distinct_paths(node),
        forall|p: Seq<char>| directory_paths(node).contains(p) ==> !cache.contains_key(p),
        total(node) <= u64::MAX,
    ensures
        walk(node, cache).0 == Some(total(node) as u64),
        cache.submap_of(walk(node, cache).1),
        forall|p: Seq<char>|
            #[trigger] walk(node, cache).1.contains_key(p) <==> cache.contains_key(p)
                || directory_paths(node).contains(p),
        forall|p: Seq<char>|
            #[trigger] directory_paths(node).contains(p) ==> size_at(node, p) is Some && walk(
                node,
                cache,
            ).1[p] == size_at(node, p)->0,
    decreases node,
{
    lemma_walk_keeps_entries(node, cache);
    match node {
        FsNode::Directory { path, children } => {
            let n = children.len() as nat;
            assert(directory_paths(node).contains(path@));
            assert forall|p: Seq<char>| directory_paths_of(children, n).contains(p) implies !cache.contains_key(p) by {
                assert(directory_paths(node).contains(p));
            }
            lemma_walk_children_remember_every_directory(children, n, cache);
            let sum = walk_children(children, n, cache).0;
            let inner = walk_children(children, n, cache).1;
            let after = walk(node, cache).1;
            assert(!cache.contains_key(path@));
            assert(sum == Some(total(node) as u64));
            assert(after == inner.insert(path@, sum->0));
            assert(size_at(node, path@) == Some(total(node)));
            assert forall|p: Seq<char>| #[trigger] directory_paths(node).contains(p) implies size_at(
                node,
                p,
            ) is Some && after[p] == size_at(node, p)->0 by {
                if p != path@ {
                    assert(directory_paths_of(children, n).contains(p));
                    assert(size_at(node, p) == size_among(children, n, p));
                    assert(inner[p] == size_among(children, n, p)->0);
                    assert(after[p] == inner[p]);
                } else {
                    assert(after[p] == sum->0);
                }
            }
            assert forall|p: Seq<char>| #[trigger] after.contains_key(p) <==> cache.contains_key(p)
                || directory_paths(node).contains(p) by {
                assert(inner.contains_key(p) <==> cache.contains_key(p) || directory_paths_of(
                    children,
                    n,
                ).contains(p));
            }
        },
        _ => {},
    }
}

/// After a walk over children every directory under them is remembered
/// with its size.
pub proof fn lemma_walk_children_remember_every_directory(
    children: Vec<FsNode>,
    n: nat,
    cache: Sizes,
)
    requires
        n <= children.len(),
        distinct_paths_of(children, n),
        forall|p: Seq<char>| directory_paths_of(children, n).contains(p) ==> !cache.contains_key(p),
        total_of(children, n) <= u64::MAX,
    ensures
        walk_children(children, n, cache).0 == Some(total_of(children, n) as u64),
        cache.submap_of(walk_children(children, n, cache).1),
        forall|p: Seq<char>|
            #[trigger] walk_children(children, n, cache).1.contains_key(p) <==> cache.contains_key(
                p,
            ) || directory_paths_of(children, n).contains(p),
        forall|p: Seq<char>|
            #[trigger] directory_paths_of(children, n).contains(p) ==> size_among(children, n, p)
                is Some && walk_children(children, n, cache).1[p] == size_among(
                children,
                n,
                p,
            )->0,
    decreases children, n,
{
    if n > 0 {
        let fewer = (n - 1) as nat;
        let child = children[n - 1];
        assert forall|p: Seq<char>| directory_paths_of(children, fewer).contains(p) implies !cache.contains_key(p) by {
            assert(directory_paths_of(children, n).contains(p));
        }
        lemma_walk_children_remember_every_directory(children, fewer, cache);
        let mid = walk_children(children, fewer, cache).1;
        assert forall|p: Seq<char>| directory_paths(child).contains(p) implies !mid.contains_key(p) by {
            assert(directory_paths_of(children, n).contains(p));
            assert(!directory_paths_of(children, fewer).contains(p));
        }
        assert(distinct_paths(child));
        assert(total_of(children, n) == total_of(children, fewer) + total(child));
        lemma_walk_remembers_every_directory(child, mid);
        let after = walk(child, mid).1;
        assert(walk_children(children, fewer, cache).0 == Some(total_of(children, fewer) as u64));
        assert(walk(child, mid).0 == Some(total(child) as u64));
        assert(walk_children(children, n, cache).1 == after);
        assert(mid.submap_of(after));
        assert(cache.submap_of(mid));
        assert forall|p: Seq<char>| #[trigger] after.contains_key(p) <==> cache.contains_key(p)
            || directory_paths_of(children, n).contains(p) by {
            assert(mid.contains_key(p) <==> cache.contains_key(p) || directory_paths_of(
                children,
                fewer,
            ).contains(p));
        }
        assert forall|p: Seq<char>| #[trigger]
            directory_paths_of(children, n).contains(p) implies size_among(children, n, p) is Some
            && after[p] == size_among(children, n, p)->0 by {
            lemma_size_among_is_known(children, fewer, p);
            if directory_paths_of(children, fewer).contains(p) {
                assert(mid.contains_key(p));
                assert(mid[p] == size_among(children, fewer, p)->0);
                lemma_entry_is_kept(mid, after, p);
                assert(size_among(children, n, p) == size_among(children, fewer, p));
            } else {
                assert(directory_paths(child).contains(p));
                assert(after[p] == size_at(child, p)->0);
                assert(size_among(children, fewer, p) is None);
                assert(size_among(children, n, p) == size_at(child, p));
            }
        }
        assert forall|p: Seq<char>| cache.contains_key(p) implies #[trigger] after.contains_key(p)
            && after[p] == cache[p] by {
            lemma_entry_is_kept(cache, mid, p);
            lemma_entry_is_kept(mid, after, p);
        }
    }
}

} // verus!
