//! Finding and cleaning logic: the traversal engine that classifies
//! directories as artifact, ignored, or ordinary, and the deletion executor.
//!
//! The engine works on an in-memory picture of a directory tree. Reading the
//! real filesystem into that picture, and removing directories from disk, is
//! I/O that a caller performs; every decision the walk makes is taken here.

use vstd::prelude::*;

verus! {

/// A directory path, held as its sequence of components (basenames from the
/// root downward). The view of a path is the sequence of its components'
/// character sequences.
#[derive(Debug, PartialEq, Eq)]
pub struct DirPath {
    pub components: Vec<String>,
}

impl View for DirPath {
    type V = Seq<Seq<char>>;

    open spec fn view(&self) -> Seq<Seq<char>> {
        self.components@.map_values(|s: String| s@)
    }
}

/// An in-memory picture of one directory: its basename, whether the entry is
/// a symbolic link, and its child directories. Non-directory entries take no
/// part in the traversal and are absent from the picture.
pub struct DirTree {
    pub name: String,
    pub is_symlink: bool,
    pub children: Vec<DirTree>,
}

/// The character sequences of a sequence of names.
pub open spec fn names_of(names: Seq<String>) -> Seq<Seq<char>> {
    names.map_values(|s: String| s@)
}

/// The views of a sequence of paths.
pub open spec fn paths_of(paths: Seq<DirPath>) -> Seq<Seq<Seq<char>>> {
    paths.map_values(|p: DirPath| p@)
}

impl DirPath {
    /// The path one level below `self` whose final component is `name`.
    pub fn child(&self, name: &String) -> (r: DirPath)
        ensures
            r@ == self@.push(name@),
    {
        let mut components = self.components.clone();
        proof {
            assert(components@ =~= self.components@);
        }
        components.push(name.clone());
        let r = DirPath { components };
        proof {
            assert(r@ =~= self@.push(name@));
        }
        r
    }
}

/// Does the final path component of `dir_path` occur in `collection`?
/// A path with no components has no final component and never matches.
pub fn dir_name_in_collection(dir_path: &DirPath, collection: &Vec<String>) -> (r: bool)
    ensures
        r == (dir_path@.len() > 0 && names_of(collection@).contains(dir_path@.last())),
{
    if dir_path.components.len() == 0 {
        return false;
    }
    let name = &dir_path.components[dir_path.components.len() - 1];
    proof {
        let n = dir_path.components@.len();
        assert(dir_path@[n - 1] == dir_path.components@[n - 1]@);
        assert(name@ == dir_path@.last());
    }
    for i in 0..collection.len()
        invariant
            forall|j: int| 0 <= j < i ==> names_of(collection@)[j] != name@,
            dir_path@.len() > 0,
            name@ == dir_path@.last(),
    {
        if collection[i] == *name {
            proof {
                assert(names_of(collection@)[i as int] == collection@[i as int]@);
                assert(names_of(collection@).contains(name@));
            }
            return true;
        }
        proof {
            assert(names_of(collection@)[i as int] == collection@[i as int]@);
        }
    }
    false
}

/// What a depth-bounded walk below `dir` reports, given full knowledge of the
/// tree. `prefix` is the path of `dir` itself; a budget of zero reports
/// nothing. Children are visited in enumeration order.
pub open spec fn spec_scan(
    prefix: Seq<Seq<char>>,
    dir: DirTree,
    artifacts: Seq<Seq<char>>,
    ignore: Seq<Seq<char>>,
    depth: nat,
) -> Seq<Seq<Seq<char>>>
    decreases dir, dir.children@.len() + 1int,
{
    if depth == 0 {
        Seq::empty()
    } else {
        spec_scan_upto(prefix, dir, artifacts, ignore, depth, dir.children@.len() as int)
    }
}

/// What the walk reports from the first `i` children of `dir`.
pub open spec fn spec_scan_upto(
    prefix: Seq<Seq<char>>,
    dir: DirTree,
    artifacts: Seq<Seq<char>>,
    ignore: Seq<Seq<char>>,
    depth: nat,
    i: int,
) -> Seq<Seq<Seq<char>>>
    decreases dir, i,
{
    if 0 < i <= dir.children@.len() {
        spec_scan_upto(prefix, dir, artifacts, ignore, depth, i - 1)
            + spec_scan_child(prefix, dir.children@[i - 1], artifacts, ignore, depth)
    } else {
        Seq::empty()
    }
}

/// What the walk reports at and below one child entry, with `depth` levels of
/// budget left at the parent: a symbolic link yields nothing; an artifact name
/// yields the child's path and nothing below it; an ignored name yields
/// nothing; otherwise the walk descends with one level of budget spent.
pub open spec fn spec_scan_child(
    prefix: Seq<Seq<char>>,
    child: DirTree,
    artifacts: Seq<Seq<char>>,
    ignore: Seq<Seq<char>>,
    depth: nat,
) -> Seq<Seq<Seq<char>>>
    decreases child, child.children@.len() + 2int,
{
    if child.is_symlink {
        Seq::empty()
    } else if artifacts.contains(child.name@) {
        seq![prefix.push(child.name@)]
    } else if ignore.contains(child.name@) {
        Seq::empty()
    } else {
        spec_scan(prefix.push(child.name@), child, artifacts, ignore, (depth - 1) as nat)
    }
}

/// A well-formed picture of a directory tree: within any one directory the
/// child names are distinct, as they are in a real filesystem.
pub open spec fn wf_tree(dir: DirTree) -> bool
    decreases dir,
{
    (forall|j: int, k: int|
        0 <= j < k < dir.children@.len()
            ==> (#[trigger] dir.children@[j]).name@ != (#[trigger] dir.children@[k]).name@)
        && (forall|j: int|
        0 <= j < dir.children@.len() ==> wf_tree(#[trigger] dir.children@[j]))
}

/// Whether a walk below `dir` with an unlimited budget reports the directory
/// at the relative component chain `rel`: there is a run of non-symlink child
/// directories named after `rel`, every link but the last has a name in
/// neither set, and the last link's name is in the artifact set.
pub open spec fn finds_path(
    dir: DirTree,
    rel: Seq<Seq<char>>,
    artifacts: Seq<Seq<char>>,
    ignore: Seq<Seq<char>>,
) -> bool
    decreases dir, dir.children@.len() + 1int,
{
    exists|j: int|
        0 <= j < dir.children@.len() && child_chain(
            #[trigger] dir.children@[j],
            rel,
            artifacts,
            ignore,
        )
}

/// Whether the chain `rel` runs through the child entry `child`: the chain
/// starts with the child's name, the child is a directory and no symbolic
/// link, and the chain either ends here on an artifact name or continues
/// below the child through an ordinary name.
pub open spec fn child_chain(
    child: DirTree,
    rel: Seq<Seq<char>>,
    artifacts: Seq<Seq<char>>,
    ignore: Seq<Seq<char>>,
) -> bool
    decreases child, child.children@.len() + 2int,
{
    rel.len() > 0 && rel.first() == child.name@ && !child.is_symlink && if rel.len() == 1 {
        artifacts.contains(child.name@)
    } else {
        !artifacts.contains(child.name@) && !ignore.contains(child.name@) && finds_path(
            child,
            rel.drop_first(),
            artifacts,
            ignore,
        )
    }
}

/// Soundness of the walk: every reported path strictly extends the root's
/// path, stays within the depth budget, and marks a real run of non-symlink
/// directories that ends on an artifact name and passes through no artifact
/// or ignored name on the way.
pub proof fn lemma_scan_sound(
    prefix: Seq<Seq<char>>,
    dir: DirTree,
    artifacts: Seq<Seq<char>>,
    ignore: Seq<Seq<char>>,
    depth: nat,
)
    ensures
        forall|p: Seq<Seq<char>>|
            #[trigger] spec_scan(prefix, dir, artifacts, ignore, depth).contains(p)
                ==> prefix.len() < p.len() <= prefix.len() + depth
                    && p.subrange(0, prefix.len() as int) == prefix
                    && finds_path(dir, p.subrange(prefix.len() as int, p.len() as int), artifacts, ignore),
    decreases dir, dir.children@.len() + 1int,
{
    if depth > 0 {
        lemma_scan_upto_sound(prefix, dir, artifacts, ignore, depth, dir.children@.len() as int);
        assert forall|p: Seq<Seq<char>>|
            #[trigger] spec_scan(prefix, dir, artifacts, ignore, depth).contains(p)
                implies prefix.len() < p.len() <= prefix.len() + depth
                    && p.subrange(0, prefix.len() as int) == prefix
                    && finds_path(dir, p.subrange(prefix.len() as int, p.len() as int), artifacts, ignore) by {
            assert(spec_scan_upto(prefix, dir, artifacts, ignore, depth, dir.children@.len() as int)
                .contains(p));
        }
    }
}

/// Soundness of the walk over the first `i` children: as for the whole walk,
/// and in addition each reported path descends through one of those children.
pub proof fn lemma_scan_upto_sound(
    prefix: Seq<Seq<char>>,
    dir: DirTree,
    artifacts: Seq<Seq<char>>,
    ignore: Seq<Seq<char>>,
    depth: nat,
    i: int,
)
    requires
        depth >= 1,
        i <= dir.children@.len(),
    ensures
        forall|p: Seq<Seq<char>>|
            #[trigger] spec_scan_upto(prefix, dir, artifacts, ignore, depth, i).contains(p)
                ==> prefix.len() < p.len() <= prefix.len() + depth
                    && p.subrange(0, prefix.len() as int) == prefix
                    && finds_path(dir, p.subrange(prefix.len() as int, p.len() as int), artifacts, ignore)
                    && exists|j: int|
                        0 <= j < i && p[prefix.len() as int] == (#[trigger] dir.children@[j]).name@,
    decreases dir, i,
{
    if 0 < i <= dir.children@.len() {
        let child = dir.children@[i - 1];
        let s1 = spec_scan_upto(prefix, dir, artifacts, ignore, depth, i - 1);
        let s2 = spec_scan_child(prefix, child, artifacts, ignore, depth);
        lemma_scan_upto_sound(prefix, dir, artifacts, ignore, depth, i - 1);
        lemma_scan_child_sound(prefix, child, artifacts, ignore, depth);
        assert forall|p: Seq<Seq<char>>|
            #[trigger] spec_scan_upto(prefix, dir, artifacts, ignore, depth, i).contains(p)
                implies prefix.len() < p.len() <= prefix.len() + depth
                    && p.subrange(0, prefix.len() as int) == prefix
                    && finds_path(dir, p.subrange(prefix.len() as int, p.len() as int), artifacts, ignore)
                    && exists|j: int|
                        0 <= j < i && p[prefix.len() as int] == (#[trigger] dir.children@[j]).name@ by {
            let k = choose|k: int| 0 <= k < (s1 + s2).len() && (s1 + s2)[k] == p;
            if k < s1.len() {
                assert(s1[k] == p);
                assert(s1.contains(p));
            } else {
                assert(s2[k - s1.len()] == p);
                assert(s2.contains(p));
                let rel = p.subrange(prefix.len() as int, p.len() as int);
                assert(child_chain(child, rel, artifacts, ignore));
                assert(finds_path(dir, rel, artifacts, ignore));
                assert(p[prefix.len() as int] == rel.first());
                assert(p[prefix.len() as int] == (dir.children@[i - 1]).name@);
            }
        }
    }
}

/// Soundness of the walk at one child entry: every path reported at or below
/// it marks a chain through that entry.
pub proof fn lemma_scan_child_sound(
    prefix: Seq<Seq<char>>,
    child: DirTree,
    artifacts: Seq<Seq<char>>,
    ignore: Seq<Seq<char>>,
    depth: nat,
)
    requires
        depth >= 1,
    ensures
        forall|p: Seq<Seq<char>>|
            #[trigger] spec_scan_child(prefix, child, artifacts, ignore, depth).contains(p)
                ==> prefix.len() < p.len() <= prefix.len() + depth
                    && p.subrange(0, prefix.len() as int) == prefix
                    && child_chain(child, p.subrange(prefix.len() as int, p.len() as int), artifacts, ignore),
    decreases child, child.children@.len() + 2int,
{
    if child.is_symlink {
    } else if artifacts.contains(child.name@) {
        assert forall|p: Seq<Seq<char>>|
            #[trigger] spec_scan_child(prefix, child, artifacts, ignore, depth).contains(p)
                implies prefix.len() < p.len() <= prefix.len() + depth
                    && p.subrange(0, prefix.len() as int) == prefix
                    && child_chain(child, p.subrange(prefix.len() as int, p.len() as int), artifacts, ignore) by {
            assert(p == prefix.push(child.name@));
            assert(p.subrange(0, prefix.len() as int) =~= prefix);
            let rel = p.subrange(prefix.len() as int, p.len() as int);
            assert(rel.len() == 1);
            assert(rel.first() == child.name@);
        }
    } else if ignore.contains(child.name@) {
    } else {
        let q = prefix.push(child.name@);
        lemma_scan_sound(q, child, artifacts, ignore, (depth - 1) as nat);
        assert forall|p: Seq<Seq<char>>|
            #[trigger] spec_scan_child(prefix, child, artifacts, ignore, depth).contains(p)
                implies prefix.len() < p.len() <= prefix.len() + depth
                    && p.subrange(0, prefix.len() as int) == prefix
                    && child_chain(child, p.subrange(prefix.len() as int, p.len() as int), artifacts, ignore) by {
            assert(spec_scan(q, child, artifacts, ignore, (depth - 1) as nat).contains(p));
            assert(p.subrange(0, q.len() as int) == q);
            assert forall|m: int| 0 <= m < prefix.len() implies p[m] == prefix[m] by {
                assert(p.subrange(0, q.len() as int)[m] == p[m]);
                assert(q[m] == prefix[m]);
            }
            assert(p.subrange(0, prefix.len() as int) =~= prefix);
            let rel = p.subrange(prefix.len() as int, p.len() as int);
            assert(rel.len() >= 2);
            assert(rel.first() == p[prefix.len() as int]);
            assert(p[prefix.len() as int] == p.subrange(0, q.len() as int)[prefix.len() as int]);
            assert(rel.first() == child.name@);
            assert(rel.drop_first() =~= p.subrange(q.len() as int, p.len() as int));
            assert(finds_path(child, rel.drop_first(), artifacts, ignore));
        }
    }
}

/// A path reported at one child entry is reported by the walk over any run
/// of children that includes that entry.
proof fn lemma_child_segment_in_upto(
    prefix: Seq<Seq<char>>,
    dir: DirTree,
    artifacts: Seq<Seq<char>>,
    ignore: Seq<Seq<char>>,
    depth: nat,
    j: int,
    i: int,
    p: Seq<Seq<char>>,
)
    requires
        0 <= j < i <= dir.children@.len(),
        spec_scan_child(prefix, dir.children@[j], artifacts, ignore, depth).contains(p),
    ensures
        spec_scan_upto(prefix, dir, artifacts, ignore, depth, i).contains(p),
    decreases i,
{
    let s1 = spec_scan_upto(prefix, dir, artifacts, ignore, depth, i - 1);
    let s2 = spec_scan_child(prefix, dir.children@[i - 1], artifacts, ignore, depth);
    if j == i - 1 {
        let k = choose|k: int| 0 <= k < s2.len() && s2[k] == p;
        assert((s1 + s2)[s1.len() + k] == p);
        assert(spec_scan_upto(prefix, dir, artifacts, ignore, depth, i).contains(p));
    } else {
        lemma_child_segment_in_upto(prefix, dir, artifacts, ignore, depth, j, i - 1, p);
        let k = choose|k: int| 0 <= k < s1.len() && s1[k] == p;
        assert((s1 + s2)[k] == p);
        assert(spec_scan_upto(prefix, dir, artifacts, ignore, depth, i).contains(p));
    }
}

/// Completeness of the walk: an artifact directory reachable along an
/// ordinary chain whose length lies within the depth budget is reported.
pub proof fn lemma_scan_complete(
    prefix: Seq<Seq<char>>,
    dir: DirTree,
    artifacts: Seq<Seq<char>>,
    ignore: Seq<Seq<char>>,
    depth: nat,
    rel: Seq<Seq<char>>,
)
    requires
        finds_path(dir, rel, artifacts, ignore),
        rel.len() <= depth,
    ensures
        spec_scan(prefix, dir, artifacts, ignore, depth).contains(prefix + rel),
    decreases dir, dir.children@.len() + 1int,
{
    let j = choose|j: int|
        0 <= j < dir.children@.len() && child_chain(dir.children@[j], rel, artifacts, ignore);
    lemma_chain_complete(prefix, dir.children@[j], artifacts, ignore, depth, rel);
    lemma_child_segment_in_upto(
        prefix,
        dir,
        artifacts,
        ignore,
        depth,
        j,
        dir.children@.len() as int,
        prefix + rel,
    );
}

/// Completeness at one child entry: a chain through the entry whose length
/// lies within the budget yields its path in the walk's report.
proof fn lemma_chain_complete(
    prefix: Seq<Seq<char>>,
    child: DirTree,
    artifacts: Seq<Seq<char>>,
    ignore: Seq<Seq<char>>,
    depth: nat,
    rel: Seq<Seq<char>>,
)
    requires
        child_chain(child, rel, artifacts, ignore),
        rel.len() <= depth,
    ensures
        spec_scan_child(prefix, child, artifacts, ignore, depth).contains(prefix + rel),
    decreases child, child.children@.len() + 2int,
{
    if rel.len() == 1 {
        assert(prefix + rel =~= prefix.push(child.name@));
        assert(seq![prefix.push(child.name@)][0] == prefix + rel);
        assert(spec_scan_child(prefix, child, artifacts, ignore, depth).contains(prefix + rel));
    } else {
        let q = prefix.push(child.name@);
        lemma_scan_complete(q, child, artifacts, ignore, (depth - 1) as nat, rel.drop_first());
        assert(q + rel.drop_first() =~= prefix + rel);
    }
}

/// On a well-formed tree the walk reports no path twice.
pub proof fn lemma_scan_unique(
    prefix: Seq<Seq<char>>,
    dir: DirTree,
    artifacts: Seq<Seq<char>>,
    ignore: Seq<Seq<char>>,
    depth: nat,
)
    requires
        wf_tree(dir),
    ensures
        spec_scan(prefix, dir, artifacts, ignore, depth).no_duplicates(),
    decreases dir, dir.children@.len() + 1int,
{
    if depth > 0 {
        lemma_scan_upto_unique(prefix, dir, artifacts, ignore, depth, dir.children@.len() as int);
    }
}

/// No path is reported twice by the walk over the first `i` children of a
/// well-formed tree.
proof fn lemma_scan_upto_unique(
    prefix: Seq<Seq<char>>,
    dir: DirTree,
    artifacts: Seq<Seq<char>>,
    ignore: Seq<Seq<char>>,
    depth: nat,
    i: int,
)
    requires
        wf_tree(dir),
        depth >= 1,
        0 <= i <= dir.children@.len(),
    ensures
        spec_scan_upto(prefix, dir, artifacts, ignore, depth, i).no_duplicates(),
    decreases dir, i,
{
    if i > 0 {
        let child = dir.children@[i - 1];
        let s1 = spec_scan_upto(prefix, dir, artifacts, ignore, depth, i - 1);
        let s2 = spec_scan_child(prefix, child, artifacts, ignore, depth);
        lemma_scan_upto_unique(prefix, dir, artifacts, ignore, depth, i - 1);
        assert(wf_tree(child));
        lemma_scan_child_unique(prefix, child, artifacts, ignore, depth);
        lemma_scan_upto_sound(prefix, dir, artifacts, ignore, depth, i - 1);
        lemma_scan_child_sound(prefix, child, artifacts, ignore, depth);
        let s = s1 + s2;
        assert forall|k1: int, k2: int|
            0 <= k1 < s.len() && 0 <= k2 < s.len() && k1 != k2 implies s[k1] != s[k2] by {
            if k1 < s1.len() && k2 >= s1.len() {
                lemma_upto_child_distinct(prefix, dir, artifacts, ignore, depth, i, k1, k2);
            } else if k2 < s1.len() && k1 >= s1.len() {
                lemma_upto_child_distinct(prefix, dir, artifacts, ignore, depth, i, k2, k1);
            } else if k1 >= s1.len() && k2 >= s1.len() {
                assert(s[k1] == s2[k1 - s1.len()] && s[k2] == s2[k2 - s1.len()]);
            }
        }
        assert(spec_scan_upto(prefix, dir, artifacts, ignore, depth, i).no_duplicates());
    }
}

/// A path reported among the first `i - 1` children differs from one
/// reported at the `i`-th child: the two descend through children with
/// different names.
proof fn lemma_upto_child_distinct(
    prefix: Seq<Seq<char>>,
    dir: DirTree,
    artifacts: Seq<Seq<char>>,
    ignore: Seq<Seq<char>>,
    depth: nat,
    i: int,
    k1: int,
    k2: int,
)
    requires
        wf_tree(dir),
        depth >= 1,
        0 < i <= dir.children@.len(),
        0 <= k1 < spec_scan_upto(prefix, dir, artifacts, ignore, depth, i - 1).len(),
        spec_scan_upto(prefix, dir, artifacts, ignore, depth, i - 1).len() <= k2
            < spec_scan_upto(prefix, dir, artifacts, ignore, depth, i).len(),
    ensures
        spec_scan_upto(prefix, dir, artifacts, ignore, depth, i)[k1]
            != spec_scan_upto(prefix, dir, artifacts, ignore, depth, i)[k2],
{
    let child = dir.children@[i - 1];
    let s1 = spec_scan_upto(prefix, dir, artifacts, ignore, depth, i - 1);
    let s2 = spec_scan_child(prefix, child, artifacts, ignore, depth);
    lemma_scan_upto_sound(prefix, dir, artifacts, ignore, depth, i - 1);
    lemma_scan_child_sound(prefix, child, artifacts, ignore, depth);
    let p1 = s1[k1];
    let p2 = s2[k2 - s1.len()];
    assert(s1.contains(p1));
    assert(s2.contains(p2));
    let j = choose|j: int|
        0 <= j < i - 1 && p1[prefix.len() as int] == (#[trigger] dir.children@[j]).name@;
    let rel2 = p2.subrange(prefix.len() as int, p2.len() as int);
    assert(child_chain(child, rel2, artifacts, ignore));
    assert(p2[prefix.len() as int] == rel2.first());
    assert(dir.children@[j].name@ != child.name@);
    assert(p1[prefix.len() as int] != p2[prefix.len() as int]);
}

/// No path is reported twice at or below one child entry of a well-formed
/// tree.
proof fn lemma_scan_child_unique(
    prefix: Seq<Seq<char>>,
    child: DirTree,
    artifacts: Seq<Seq<char>>,
    ignore: Seq<Seq<char>>,
    depth: nat,
)
    requires
        wf_tree(child),
        depth >= 1,
    ensures
        spec_scan_child(prefix, child, artifacts, ignore, depth).no_duplicates(),
    decreases child, child.children@.len() + 2int,
{
    if child.is_symlink {
    } else if artifacts.contains(child.name@) {
    } else if ignore.contains(child.name@) {
    } else {
        lemma_scan_unique(prefix.push(child.name@), child, artifacts, ignore, (depth - 1) as nat);
    }
}

/// Law: with a zero depth budget the walk reports nothing, whatever the tree
/// holds.
pub proof fn lemma_scan_zero_budget(
    prefix: Seq<Seq<char>>,
    dir: DirTree,
    artifacts: Seq<Seq<char>>,
    ignore: Seq<Seq<char>>,
)
    ensures
        spec_scan(prefix, dir, artifacts, ignore, 0) == Seq::<Seq<Seq<char>>>::empty(),
{
}

/// Law: the depth budget bounds the findings. Every reported path is at
/// most `depth` components below the root's path, so an artifact only
/// reachable deeper is missed; `lemma_scan_complete` states the converse,
/// that a chain within the budget is reported.
pub proof fn lemma_scan_depth_bounded(
    prefix: Seq<Seq<char>>,
    dir: DirTree,
    artifacts: Seq<Seq<char>>,
    ignore: Seq<Seq<char>>,
    depth: nat,
)
    ensures
        forall|p: Seq<Seq<char>>|
            #[trigger] spec_scan(prefix, dir, artifacts, ignore, depth).contains(p)
                ==> prefix.len() < p.len() <= prefix.len() + depth,
{
    lemma_scan_sound(prefix, dir, artifacts, ignore, depth);
}

/// Law: a child directory that is no symbolic link and whose basename is in
/// the artifact set is reported exactly once, and none of its descendants is
/// reported, even when their basenames are in the artifact set too.
pub proof fn lemma_artifact_child_reported_once(
    prefix: Seq<Seq<char>>,
    dir: DirTree,
    artifacts: Seq<Seq<char>>,
    ignore: Seq<Seq<char>>,
    depth: nat,
    j: int,
)
    requires
        wf_tree(dir),
        depth >= 1,
        0 <= j < dir.children@.len(),
        !dir.children@[j].is_symlink,
        artifacts.contains(dir.children@[j].name@),
    ensures
        spec_scan(prefix, dir, artifacts, ignore, depth).to_multiset().count(
            prefix.push(dir.children@[j].name@),
        ) == 1,
        forall|p: Seq<Seq<char>>|
            #[trigger] spec_scan(prefix, dir, artifacts, ignore, depth).contains(p)
                && p.len() > prefix.len() + 1 ==> p[prefix.len() as int] != dir.children@[j].name@,
{
    broadcast use vstd::seq_lib::group_to_multiset_ensures;

    let name = dir.children@[j].name@;
    let scan = spec_scan(prefix, dir, artifacts, ignore, depth);
    let rel = seq![name];
    assert(child_chain(dir.children@[j], rel, artifacts, ignore));
    assert(finds_path(dir, rel, artifacts, ignore));
    lemma_scan_complete(prefix, dir, artifacts, ignore, depth, rel);
    assert(prefix + rel =~= prefix.push(name));
    assert(scan.contains(prefix.push(name)));
    lemma_scan_unique(prefix, dir, artifacts, ignore, depth);
    scan.lemma_multiset_has_no_duplicates();
    assert(scan.to_multiset().count(prefix.push(name)) == 1);
    lemma_scan_sound(prefix, dir, artifacts, ignore, depth);
    assert forall|p: Seq<Seq<char>>|
        #[trigger] scan.contains(p) && p.len() > prefix.len() + 1
            implies p[prefix.len() as int] != name by {
        let r = p.subrange(prefix.len() as int, p.len() as int);
        assert(finds_path(dir, r, artifacts, ignore));
        let k = choose|k: int|
            0 <= k < dir.children@.len() && child_chain(dir.children@[k], r, artifacts, ignore);
        assert(r.len() >= 2);
        assert(!artifacts.contains(dir.children@[k].name@));
        assert(p[prefix.len() as int] == r.first());
    }
}

/// Law: a child whose basename is in the ignore set, and not in the artifact
/// set, is never reported, and nothing below it is reported, even when a
/// descendant's basename is in the artifact set.
pub proof fn lemma_ignored_child_pruned(
    prefix: Seq<Seq<char>>,
    dir: DirTree,
    artifacts: Seq<Seq<char>>,
    ignore: Seq<Seq<char>>,
    depth: nat,
    name: Seq<char>,
)
    requires
        ignore.contains(name),
        !artifacts.contains(name),
    ensures
        forall|p: Seq<Seq<char>>|
            #[trigger] spec_scan(prefix, dir, artifacts, ignore, depth).contains(p)
                ==> !(p.len() > prefix.len() && p[prefix.len() as int] == name),
{
    let scan = spec_scan(prefix, dir, artifacts, ignore, depth);
    lemma_scan_sound(prefix, dir, artifacts, ignore, depth);
    assert forall|p: Seq<Seq<char>>| #[trigger] scan.contains(p)
        implies !(p.len() > prefix.len() && p[prefix.len() as int] == name) by {
        let r = p.subrange(prefix.len() as int, p.len() as int);
        assert(finds_path(dir, r, artifacts, ignore));
        let k = choose|k: int|
            0 <= k < dir.children@.len() && child_chain(dir.children@[k], r, artifacts, ignore);
        assert(r.first() == dir.children@[k].name@);
        assert(p[prefix.len() as int] == r.first());
    }
}

/// Law: a symbolic-link child is never followed and never itself reported,
/// even when its basename is in the artifact set.
pub proof fn lemma_symlink_child_never_reported(
    prefix: Seq<Seq<char>>,
    dir: DirTree,
    artifacts: Seq<Seq<char>>,
    ignore: Seq<Seq<char>>,
    depth: nat,
    j: int,
)
    requires
        wf_tree(dir),
        0 <= j < dir.children@.len(),
        dir.children@[j].is_symlink,
    ensures
        forall|p: Seq<Seq<char>>|
            #[trigger] spec_scan(prefix, dir, artifacts, ignore, depth).contains(p)
                ==> !(p.len() > prefix.len() && p[prefix.len() as int] == dir.children@[j].name@),
{
    let name = dir.children@[j].name@;
    let scan = spec_scan(prefix, dir, artifacts, ignore, depth);
    lemma_scan_sound(prefix, dir, artifacts, ignore, depth);
    assert forall|p: Seq<Seq<char>>| #[trigger] scan.contains(p)
        implies !(p.len() > prefix.len() && p[prefix.len() as int] == name) by {
        let r = p.subrange(prefix.len() as int, p.len() as int);
        assert(finds_path(dir, r, artifacts, ignore));
        let k = choose|k: int|
            0 <= k < dir.children@.len() && child_chain(dir.children@[k], r, artifacts, ignore);
        if p.len() > prefix.len() && p[prefix.len() as int] == name {
            assert(r.first() == dir.children@[k].name@);
            assert(p[prefix.len() as int] == r.first());
            assert(dir.children@[k].name@ == name);
            assert(!dir.children@[k].is_symlink);
            assert(k != j);
            if k < j {
                assert(dir.children@[k].name@ != dir.children@[j].name@);
            } else {
                assert(dir.children@[j].name@ != dir.children@[k].name@);
            }
        }
    }
}

/// Find directories whose basename is in `artifacts` and append their paths
/// to `findings`, in depth-first, enumeration order.
///
/// Walk the tree starting from `dir`, whose own path is `dir_path`. For each
/// child directory that is not a symbolic link, in order: if its name is in
/// `artifacts`, record its path and do not descend; otherwise, if its name is
/// in `ignore`, skip it; otherwise descend with the depth budget reduced by
/// one. With a budget of zero, nothing is examined.
pub fn find_dirs(
    findings: &mut Vec<DirPath>,
    dir_path: &DirPath,
    dir: &DirTree,
    artifacts: &Vec<String>,
    ignore: &Vec<String>,
    max_depth: u16,
)
    ensures
        paths_of(final(findings)@) == paths_of(old(findings)@) + spec_scan(
            dir_path@,
            *dir,
            names_of(artifacts@),
            names_of(ignore@),
            max_depth as nat,
        ),
    decreases *dir,
{
    let ghost arts = names_of(artifacts@);
    let ghost ign = names_of(ignore@);
    let ghost d = max_depth as nat;
    if max_depth == 0 {
        proof {
            assert(paths_of(findings@) =~= paths_of(findings@) + Seq::<Seq<Seq<char>>>::empty());
        }
        return;
    }
    for i in 0..dir.children.len()
        invariant
            max_depth != 0,
            d == max_depth as nat,
            arts == names_of(artifacts@),
            ign == names_of(ignore@),
            paths_of(findings@) == paths_of(old(findings)@) + spec_scan_upto(
                dir_path@,
                *dir,
                arts,
                ign,
                d,
                i as int,
            ),
    {
        let child = &dir.children[i];
        let ghost pre = findings@;
        if !child.is_symlink {
            let child_path = dir_path.child(&child.name);
            proof {
                assert(child_path@.last() == child.name@);
            }
            if dir_name_in_collection(&child_path, artifacts) {
                findings.push(child_path);
                proof {
                    assert(paths_of(findings@) =~= paths_of(pre).push(dir_path@.push(child.name@)));
                    assert(spec_scan_child(dir_path@, *child, arts, ign, d)
                        =~= seq![dir_path@.push(child.name@)]);
                }
            } else if dir_name_in_collection(&child_path, ignore) {
                proof {
                    assert(spec_scan_child(dir_path@, *child, arts, ign, d)
                        =~= Seq::<Seq<Seq<char>>>::empty());
                }
            } else {
                find_dirs(findings, &child_path, child, artifacts, ignore, max_depth - 1);
                proof {
                    assert(spec_scan_child(dir_path@, *child, arts, ign, d)
                        == spec_scan(dir_path@.push(child.name@), *child, arts, ign, (d - 1) as nat));
                }
            }
        } else {
            proof {
                assert(spec_scan_child(dir_path@, *child, arts, ign, d)
                    =~= Seq::<Seq<Seq<char>>>::empty());
            }
        }
        proof {
            assert(paths_of(findings@) =~= paths_of(old(findings)@) + spec_scan_upto(
                dir_path@, *dir, arts, ign, d, i + 1,
            ));
        }
    }
    proof {
        assert(spec_scan(dir_path@, *dir, arts, ign, d)
            == spec_scan_upto(dir_path@, *dir, arts, ign, d, dir.children@.len() as int));
    }
}

/// The outcome of one directory removal: removed, or left behind with the
/// failure reported.
#[derive(Clone, Copy, PartialEq, Eq, Structural, Debug)]
pub enum DeletionOutcome {
    Deleted,
    Failed,
}

/// A picture of which directories exist: the path of every directory present.
/// Removing a directory takes the whole subtree below it along.
pub struct FsState {
    pub dirs: Vec<DirPath>,
}

impl View for FsState {
    type V = Seq<Seq<Seq<char>>>;

    open spec fn view(&self) -> Seq<Seq<Seq<char>>> {
        paths_of(self.dirs@)
    }
}

/// Does path `p` lie at or below `root`, component for component?
pub open spec fn spec_starts_with(p: Seq<Seq<char>>, root: Seq<Seq<char>>) -> bool {
    root.len() <= p.len() && p.subrange(0, root.len() as int) == root
}

/// The directories left when `root` and everything below it are removed.
pub open spec fn spec_remove_tree(
    fs: Seq<Seq<Seq<char>>>,
    root: Seq<Seq<char>>,
) -> Seq<Seq<Seq<char>>>
    decreases fs.len(),
{
    if fs.len() == 0 {
        Seq::empty()
    } else {
        (if spec_starts_with(fs.first(), root) {
            Seq::empty()
        } else {
            seq![fs.first()]
        }) + spec_remove_tree(fs.drop_first(), root)
    }
}

/// One deletion step: the outcome for `root` and the directories left. A
/// present directory is removed with its subtree; an absent one is a failure
/// that changes nothing.
pub open spec fn spec_delete_one(fs: Seq<Seq<Seq<char>>>, root: Seq<Seq<char>>) -> (
    DeletionOutcome,
    Seq<Seq<Seq<char>>>,
) {
    if fs.contains(root) {
        (DeletionOutcome::Deleted, spec_remove_tree(fs, root))
    } else {
        (DeletionOutcome::Failed, fs)
    }
}

/// The outcomes and the directories left after deleting every listed path in
/// the order supplied; a failure on one path never stops the rest.
pub open spec fn spec_delete_all(fs: Seq<Seq<Seq<char>>>, findings: Seq<Seq<Seq<char>>>) -> (
    Seq<DeletionOutcome>,
    Seq<Seq<Seq<char>>>,
)
    decreases findings.len(),
{
    if findings.len() == 0 {
        (Seq::empty(), fs)
    } else {
        let step = spec_delete_one(fs, findings.first());
        let rest = spec_delete_all(step.1, findings.drop_first());
        (seq![step.0] + rest.0, rest.1)
    }
}

/// Are two paths the same, component for component?
pub fn path_eq(a: &DirPath, b: &DirPath) -> (r: bool)
    ensures
        r == (a@ == b@),
{
    if a.components.len() != b.components.len() {
        proof {
            assert(a@.len() == a.components@.len());
            assert(b@.len() == b.components@.len());
        }
        return false;
    }
    for i in 0..a.components.len()
        invariant
            a.components@.len() == b.components@.len(),
            forall|j: int| 0 <= j < i ==> a@[j] == b@[j],
    {
        if !(a.components[i] == b.components[i]) {
            proof {
                assert(a@[i as int] == a.components@[i as int]@);
                assert(b@[i as int] == b.components@[i as int]@);
            }
            return false;
        }
        proof {
            assert(a@[i as int] == a.components@[i as int]@);
            assert(b@[i as int] == b.components@[i as int]@);
        }
    }
    proof {
        assert(a@ =~= b@);
    }
    true
}

/// Does `p` lie at or below `root`, component for component?
pub fn path_starts_with(p: &DirPath, root: &DirPath) -> (r: bool)
    ensures
        r == spec_starts_with(p@, root@),
{
    if root.components.len() > p.components.len() {
        return false;
    }
    for i in 0..root.components.len()
        invariant
            root.components@.len() <= p.components@.len(),
            forall|j: int| 0 <= j < i ==> p@[j] == root@[j],
    {
        if !(p.components[i] == root.components[i]) {
            proof {
                assert(p@[i as int] == p.components@[i as int]@);
                assert(root@[i as int] == root.components@[i as int]@);
                if spec_starts_with(p@, root@) {
                    assert(p@.subrange(0, root@.len() as int)[i as int] == p@[i as int]);
                }
            }
            return false;
        }
        proof {
            assert(p@[i as int] == p.components@[i as int]@);
            assert(root@[i as int] == root.components@[i as int]@);
        }
    }
    proof {
        assert(p@.subrange(0, root@.len() as int) =~= root@);
    }
    true
}

impl FsState {
    /// Is the directory at path `p` present?
    pub fn exists_dir(&self, p: &DirPath) -> (r: bool)
        ensures
            r == self@.contains(p@),
    {
        for i in 0..self.dirs.len()
            invariant
                forall|j: int| 0 <= j < i ==> self@[j] != p@,
        {
            proof {
                assert(self@[i as int] == self.dirs@[i as int]@);
            }
            if path_eq(&self.dirs[i], p) {
                return true;
            }
        }
        false
    }

    /// Remove the directory at `root` and everything below it from the
    /// picture.
    pub fn remove_tree(&mut self, root: &DirPath)
        ensures
            final(self)@ == spec_remove_tree(old(self)@, root@),
    {
        let mut kept: Vec<DirPath> = Vec::new();
        proof {
            assert(old(self)@.subrange(0, 0) =~= Seq::<Seq<Seq<char>>>::empty());
        }
        for i in 0..self.dirs.len()
            invariant
                self.dirs@ == old(self).dirs@,
                paths_of(kept@) == spec_remove_tree(old(self)@.subrange(0, i as int), root@),
        {
            let ghost pre = kept@;
            proof {
                assert(self@[i as int] == self.dirs@[i as int]@);
            }
            if !path_starts_with(&self.dirs[i], root) {
                let q = DirPath { components: self.dirs[i].components.clone() };
                proof {
                    assert(q.components@ =~= self.dirs@[i as int].components@);
                    assert(q@ =~= self.dirs@[i as int]@);
                }
                kept.push(q);
                proof {
                    assert(paths_of(kept@) =~= paths_of(pre).push(self@[i as int]));
                }
            }
            proof {
                let fsv = old(self)@;
                lemma_remove_tree_split(fsv.subrange(0, i + 1), root@);
                assert(fsv.subrange(0, i + 1).drop_last() =~= fsv.subrange(0, i as int));
                assert(fsv.subrange(0, i + 1).last() == fsv[i as int]);
                if spec_starts_with(fsv[i as int], root@) {
                    assert(paths_of(kept@) =~= paths_of(pre) + Seq::<Seq<Seq<char>>>::empty());
                } else {
                    assert(paths_of(kept@) =~= paths_of(pre) + seq![fsv[i as int]]);
                }
            }
        }
        proof {
            assert(old(self)@.subrange(0, old(self).dirs@.len() as int) =~= old(self)@);
        }
        self.dirs = kept;
    }
}

/// Removing below `root` treats the last pictured directory on its own.
proof fn lemma_remove_tree_split(fs: Seq<Seq<Seq<char>>>, root: Seq<Seq<char>>)
    requires
        fs.len() > 0,
    ensures
        spec_remove_tree(fs, root) == spec_remove_tree(fs.drop_last(), root) + (
        if spec_starts_with(fs.last(), root) {
            Seq::<Seq<Seq<char>>>::empty()
        } else {
            seq![fs.last()]
        }),
    decreases fs.len(),
{
    let tail = if spec_starts_with(fs.last(), root) {
        Seq::<Seq<Seq<char>>>::empty()
    } else {
        seq![fs.last()]
    };
    if fs.len() == 1 {
        assert(fs.drop_first() =~= Seq::<Seq<Seq<char>>>::empty());
        assert(fs.drop_last() =~= Seq::<Seq<Seq<char>>>::empty());
        assert(fs.first() == fs.last());
        assert(spec_remove_tree(fs, root) =~= spec_remove_tree(fs.drop_last(), root) + tail);
    } else {
        lemma_remove_tree_split(fs.drop_first(), root);
        assert(fs.drop_first().drop_last() =~= fs.drop_last().drop_first());
        assert(fs.drop_first().last() == fs.last());
        assert(fs.drop_last().first() == fs.first());
        assert(fs.drop_last().len() > 0);
        let head = if spec_starts_with(fs.first(), root) {
            Seq::<Seq<Seq<char>>>::empty()
        } else {
            seq![fs.first()]
        };
        assert(spec_remove_tree(fs, root) == head + spec_remove_tree(fs.drop_first(), root));
        assert(spec_remove_tree(fs.drop_last(), root) == head + spec_remove_tree(
            fs.drop_last().drop_first(),
            root,
        ));
        assert(spec_remove_tree(fs, root) =~= spec_remove_tree(fs.drop_last(), root) + tail);
    }
}

/// Deleting a split list is deleting the first part, then the second part
/// from what is left.
proof fn lemma_delete_all_concat(
    fs: Seq<Seq<Seq<char>>>,
    s1: Seq<Seq<Seq<char>>>,
    s2: Seq<Seq<Seq<char>>>,
)
    ensures
        spec_delete_all(fs, s1 + s2).0 == spec_delete_all(fs, s1).0 + spec_delete_all(
            spec_delete_all(fs, s1).1,
            s2,
        ).0,
        spec_delete_all(fs, s1 + s2).1 == spec_delete_all(spec_delete_all(fs, s1).1, s2).1,
    decreases s1.len(),
{
    if s1.len() == 0 {
        assert(s1 + s2 =~= s2);
        assert(spec_delete_all(fs, s1).0 =~= Seq::<DeletionOutcome>::empty());
        assert(spec_delete_all(fs, s1).1 == fs);
        assert(spec_delete_all(fs, s1).0 + spec_delete_all(fs, s2).0 =~= spec_delete_all(
            fs,
            s2,
        ).0);
    } else {
        let step = spec_delete_one(fs, s1.first());
        lemma_delete_all_concat(step.1, s1.drop_first(), s2);
        assert((s1 + s2).first() == s1.first());
        assert((s1 + s2).drop_first() =~= s1.drop_first() + s2);
        assert(seq![step.0] + (spec_delete_all(step.1, s1.drop_first()).0 + spec_delete_all(
            spec_delete_all(step.1, s1.drop_first()).1,
            s2,
        ).0) =~= (seq![step.0] + spec_delete_all(step.1, s1.drop_first()).0) + spec_delete_all(
            spec_delete_all(step.1, s1.drop_first()).1,
            s2,
        ).0);
    }
}

/// Delete all passed directories from the picture, in the order supplied.
/// Every path gets its own outcome; a failure on one path is recorded and
/// never stops the processing of the paths after it.
pub fn delete_all_artifacts(findings: &Vec<DirPath>, fs: &mut FsState) -> (outcomes: Vec<
    DeletionOutcome,
>)
    ensures
        outcomes@ == spec_delete_all(old(fs)@, paths_of(findings@)).0,
        final(fs)@ == spec_delete_all(old(fs)@, paths_of(findings@)).1,
{
    let mut outcomes: Vec<DeletionOutcome> = Vec::new();
    let ghost ps = paths_of(findings@);
    proof {
        assert(ps.subrange(0, 0) =~= Seq::<Seq<Seq<char>>>::empty());
    }
    for i in 0..findings.len()
        invariant
            ps == paths_of(findings@),
            outcomes@ == spec_delete_all(old(fs)@, ps.subrange(0, i as int)).0,
            fs@ == spec_delete_all(old(fs)@, ps.subrange(0, i as int)).1,
    {
        let ghost fs_here = fs@;
        let ghost outcomes_here = outcomes@;
        let dir = &findings[i];
        proof {
            assert(ps[i as int] == findings@[i as int]@);
        }
        if fs.exists_dir(dir) {
            fs.remove_tree(dir);
            outcomes.push(DeletionOutcome::Deleted);
        } else {
            outcomes.push(DeletionOutcome::Failed);
        }
        proof {
            reveal_with_fuel(spec_delete_all, 3);
            let one = seq![ps[i as int]];
            assert(ps.subrange(0, i + 1) =~= ps.subrange(0, i as int) + one);
            lemma_delete_all_concat(old(fs)@, ps.subrange(0, i as int), one);
            assert(one.drop_first() =~= Seq::<Seq<Seq<char>>>::empty());
            let step = spec_delete_one(fs_here, one.first());
            assert(spec_delete_all(step.1, one.drop_first()).0 =~= Seq::<DeletionOutcome>::empty());
            assert(spec_delete_all(fs_here, one).0 =~= seq![step.0]);
            assert(spec_delete_all(fs_here, one).1 == step.1);
            assert(outcomes@ =~= outcomes_here + seq![step.0]);
        }
    }
    proof {
        assert(ps.subrange(0, findings@.len() as int) =~= ps);
    }
    outcomes
}

/// What removing a subtree keeps: exactly the directories that do not lie at
/// or below the removed root.
pub proof fn lemma_remove_tree_membership(fs: Seq<Seq<Seq<char>>>, root: Seq<Seq<char>>)
    ensures
        forall|p: Seq<Seq<char>>| #[trigger]
            spec_remove_tree(fs, root).contains(p) <==> (fs.contains(p) && !spec_starts_with(
                p,
                root,
            )),
    decreases fs.len(),
{
    if fs.len() > 0 {
        lemma_remove_tree_membership(fs.drop_first(), root);
        let head: Seq<Seq<Seq<char>>> = if spec_starts_with(fs.first(), root) {
            Seq::empty()
        } else {
            seq![fs.first()]
        };
        let tail = spec_remove_tree(fs.drop_first(), root);
        assert(spec_remove_tree(fs, root) == head + tail);
        assert forall|p: Seq<Seq<char>>| #[trigger] spec_remove_tree(fs, root).contains(p)
            implies fs.contains(p) && !spec_starts_with(p, root) by {
            let k = choose|k: int| 0 <= k < (head + tail).len() && (head + tail)[k] == p;
            if k < head.len() {
                assert(p == fs.first());
                assert(fs[0] == p);
            } else {
                assert(tail[k - head.len()] == p);
                assert(tail.contains(p));
                let m = choose|m: int| 0 <= m < fs.drop_first().len() && fs.drop_first()[m] == p;
                assert(fs[m + 1] == p);
            }
        }
        assert forall|p: Seq<Seq<char>>| fs.contains(p) && !spec_starts_with(p, root)
            implies #[trigger] spec_remove_tree(fs, root).contains(p) by {
            let k = choose|k: int| 0 <= k < fs.len() && fs[k] == p;
            if k == 0 {
                assert((head + tail)[0] == p);
            } else {
                assert(fs.drop_first()[k - 1] == p);
                assert(fs.drop_first().contains(p));
                assert(tail.contains(p));
                let m = choose|m: int| 0 <= m < tail.len() && tail[m] == p;
                assert((head + tail)[head.len() + m] == p);
            }
        }
    }
}

/// The deletion pass only removes directories: whatever is left was present
/// before the pass.
pub proof fn lemma_delete_all_shrinks(fs: Seq<Seq<Seq<char>>>, findings: Seq<Seq<Seq<char>>>)
    ensures
        forall|p: Seq<Seq<char>>| #[trigger]
            spec_delete_all(fs, findings).1.contains(p) ==> fs.contains(p),
    decreases findings.len(),
{
    if findings.len() > 0 {
        let step = spec_delete_one(fs, findings.first());
        let rest = findings.drop_first();
        lemma_remove_tree_membership(fs, findings.first());
        lemma_delete_all_shrinks(step.1, rest);
        assert forall|p: Seq<Seq<char>>| #[trigger] spec_delete_all(fs, findings).1.contains(p)
            implies fs.contains(p) by {
            assert(spec_delete_all(fs, findings).1 == spec_delete_all(step.1, rest).1);
            assert(spec_delete_all(step.1, rest).1.contains(p));
            assert(step.1.contains(p));
        }
    }
}

/// Law: after the deletion pass none of the listed directories is present,
/// whether its own removal succeeded or an earlier removal already took it.
pub proof fn lemma_delete_all_removes_listed(fs: Seq<Seq<Seq<char>>>, findings: Seq<Seq<Seq<char>>>)
    ensures
        forall|i: int|
            0 <= i < findings.len() ==> !spec_delete_all(fs, findings).1.contains(
                #[trigger] findings[i],
            ),
    decreases findings.len(),
{
    if findings.len() > 0 {
        let first = findings.first();
        let step = spec_delete_one(fs, first);
        lemma_remove_tree_membership(fs, first);
        assert(spec_starts_with(first, first)) by {
            assert(first.subrange(0, first.len() as int) =~= first);
        }
        assert(!step.1.contains(first));
        let rest = findings.drop_first();
        lemma_delete_all_removes_listed(step.1, rest);
        lemma_delete_all_shrinks(step.1, rest);
        assert forall|i: int| 0 <= i < findings.len()
            implies !spec_delete_all(fs, findings).1.contains(#[trigger] findings[i]) by {
            assert(spec_delete_all(fs, findings).1 == spec_delete_all(step.1, rest).1);
            if i == 0 {
                if spec_delete_all(step.1, rest).1.contains(first) {
                    assert(step.1.contains(first));
                }
            } else {
                assert(rest[i - 1] == findings[i]);
                assert(!spec_delete_all(step.1, rest).1.contains(rest[i - 1]));
            }
        }
    }
}

/// Law: the pass reports one outcome per listed path. A path absent before
/// the pass is reported failed; a path present before the pass, with no
/// earlier-listed path at or above it, is reported deleted.
pub proof fn lemma_delete_all_outcomes(fs: Seq<Seq<Seq<char>>>, findings: Seq<Seq<Seq<char>>>)
    ensures
        spec_delete_all(fs, findings).0.len() == findings.len(),
        forall|i: int|
            0 <= i < findings.len() && !fs.contains(findings[i]) ==> #[trigger] spec_delete_all(
                fs,
                findings,
            ).0[i] == DeletionOutcome::Failed,
        forall|i: int|
            0 <= i < findings.len() && fs.contains(findings[i]) && (forall|j: int|
                0 <= j < i ==> !spec_starts_with(findings[i], #[trigger] findings[j]))
                ==> #[trigger] spec_delete_all(fs, findings).0[i] == DeletionOutcome::Deleted,
    decreases findings.len(),
{
    if findings.len() > 0 {
        let first = findings.first();
        let step = spec_delete_one(fs, first);
        let rest = findings.drop_first();
        lemma_delete_all_outcomes(step.1, rest);
        lemma_remove_tree_membership(fs, first);
        assert forall|i: int|
            0 <= i < findings.len() && !fs.contains(findings[i])
            implies #[trigger] spec_delete_all(fs, findings).0[i] == DeletionOutcome::Failed by {
            if i == 0 {
                assert(spec_delete_all(fs, findings).0[0] == step.0);
            } else {
                assert(rest[i - 1] == findings[i]);
                assert(!step.1.contains(rest[i - 1]));
                assert(spec_delete_all(fs, findings).0[i] == spec_delete_all(step.1, rest).0[i - 1]);
            }
        }
        assert forall|i: int|
            0 <= i < findings.len() && fs.contains(findings[i]) && (forall|j: int|
                0 <= j < i ==> !spec_starts_with(findings[i], #[trigger] findings[j]))
            implies #[trigger] spec_delete_all(fs, findings).0[i] == DeletionOutcome::Deleted by {
            if i == 0 {
                assert(spec_delete_all(fs, findings).0[0] == step.0);
            } else {
                assert(rest[i - 1] == findings[i]);
                assert(!spec_starts_with(findings[i], findings[0]));
                assert(step.1.contains(rest[i - 1]));
                assert(forall|j: int|
                    0 <= j < i - 1 ==> !spec_starts_with(rest[i - 1], #[trigger] rest[j]));
                assert(spec_delete_all(fs, findings).0[i] == spec_delete_all(step.1, rest).0[i - 1]);
            }
        }
    }
}

} // verus!
