//! The tree scanner and the flat image lister.
//!
//! The scanner works on a snapshot of the filesystem: the caller lists
//! the real directories (that part is I/O and stays outside the
//! library) and hands in an [`FsTree`], in which every entry carries
//! its display name (the final path segment) and its full path. The
//! scan itself — classification, hidden-entry skipping, depth control,
//! image counting, ordering — is pure and fully specified: the result
//! equals [`scan_spec`] of the snapshot, so re-scanning an unchanged
//! tree reproduces the index exactly.

use vstd::prelude::*;
use crate::classify::{
    is_image_file, is_image_path, is_zip_file, is_zip_path, basename_of, basename_str,
    hidden_name, is_hidden,
};
use crate::natural::{
    natural_cmp, natord_compare, sort_by_cmp, ordered_by, lemma_sort_by_cmp_multiset,
    lemma_sort_by_cmp_map, order_of, sort_by_order, SortOrder,
};
use crate::errors::ScanError;

verus! {

/// A snapshot of one filesystem entry: a plain file, or a directory
/// with the entries directly inside it. `name` is the entry's final
/// path segment; `path` its full path as the caller renders it.
pub enum FsTree {
    File { name: String, path: String },
    Dir { name: String, path: String, entries: Vec<FsTree> },
}

/// The mathematical shape of an [`FsTree`].
pub ghost enum TreeModel {
    File { name: Seq<char>, path: Seq<char> },
    Dir { name: Seq<char>, path: Seq<char>, entries: Seq<TreeModel> },
}

/// A node of the produced index: one filesystem path, classified.
pub struct FileNode {
    pub name: String,
    pub path: String,
    pub is_directory: bool,
    pub is_comic: bool,
    pub is_zip: bool,
    pub image_count: u32,
    pub children: Option<Vec<FileNode>>,
}

/// The mathematical shape of a [`FileNode`].
pub ghost struct NodeModel {
    pub name: Seq<char>,
    pub path: Seq<char>,
    pub is_directory: bool,
    pub is_comic: bool,
    pub is_zip: bool,
    pub image_count: u32,
    pub children: Option<Seq<NodeModel>>,
}

pub open spec fn tree_view(t: FsTree) -> TreeModel
    decreases t,
{
    match t {
        FsTree::File { name, path } => TreeModel::File { name: name@, path: path@ },
        FsTree::Dir { name, path, entries } => TreeModel::Dir {
            name: name@,
            path: path@,
            entries: entries_view(entries@),
        },
    }
}

pub open spec fn entries_view(es: Seq<FsTree>) -> Seq<TreeModel>
    decreases es,
{
    if es.len() == 0 {
        Seq::empty()
    } else {
        entries_view(es.drop_last()).push(tree_view(es.last()))
    }
}

pub open spec fn node_view(n: FileNode) -> NodeModel
    decreases n,
{
    NodeModel {
        name: n.name@,
        path: n.path@,
        is_directory: n.is_directory,
        is_comic: n.is_comic,
        is_zip: n.is_zip,
        image_count: n.image_count,
        children: match n.children {
            None => None,
            Some(v) => Some(nodes_view(v@)),
        },
    }
}

pub open spec fn nodes_view(ns: Seq<FileNode>) -> Seq<NodeModel>
    decreases ns,
{
    if ns.len() == 0 {
        Seq::empty()
    } else {
        nodes_view(ns.drop_last()).push(node_view(ns.last()))
    }
}

pub proof fn lemma_entries_view_elts(es: Seq<FsTree>)
    ensures
        entries_view(es).len() == es.len(),
        forall|i: int| 0 <= i < es.len() ==> entries_view(es)[i] == tree_view(#[trigger] es[i]),
    decreases es,
{
    if es.len() > 0 {
        lemma_entries_view_elts(es.drop_last());
        assert(forall|i: int| 0 <= i < es.len() - 1 ==> es.drop_last()[i] == #[trigger] es[i]);
        assert(es.last() == es[es.len() - 1]);
    }
}

pub proof fn lemma_nodes_view_elts(ns: Seq<FileNode>)
    ensures
        nodes_view(ns).len() == ns.len(),
        forall|i: int| 0 <= i < ns.len() ==> nodes_view(ns)[i] == node_view(#[trigger] ns[i]),
    decreases ns,
{
    if ns.len() > 0 {
        lemma_nodes_view_elts(ns.drop_last());
        assert(forall|i: int| 0 <= i < ns.len() - 1 ==> ns.drop_last()[i] == #[trigger] ns[i]);
        assert(ns.last() == ns[ns.len() - 1]);
    }
}

/// The snapshot entry is a plain file whose name classifies as an image.
pub open spec fn is_image_entry(t: TreeModel) -> bool {
    t matches TreeModel::File { name, .. } && is_image_path(name)
}

/// The entry the image counter counts: a visible image file. Hidden
/// entries are skipped entirely — they do not even count.
pub open spec fn counted_image_entry(t: TreeModel) -> bool {
    is_image_entry(t) && !hidden_name(entry_name(t))
}

/// How many visible image files lie directly at this level.
pub open spec fn image_count_of(es: Seq<TreeModel>) -> int
    decreases es,
{
    if es.len() == 0 {
        0
    } else {
        image_count_of(es.drop_last()) + if counted_image_entry(es.last()) {
            1int
        } else {
            0int
        }
    }
}

pub proof fn lemma_image_count_bounds(es: Seq<TreeModel>)
    ensures
        0 <= image_count_of(es) <= es.len(),
    decreases es,
{
    if es.len() > 0 {
        lemma_image_count_bounds(es.drop_last());
    }
}

/// Well-formedness of a snapshot: no directory level holds more
/// entries than a `u32` image counter can reflect. (A machine limit,
/// not a behavioural restriction.)
pub open spec fn tree_ok(t: TreeModel) -> bool
    decreases t,
{
    match t {
        TreeModel::File { .. } => true,
        TreeModel::Dir { entries, .. } => entries.len() <= u32::MAX && entries_ok(entries),
    }
}

pub open spec fn entries_ok(es: Seq<TreeModel>) -> bool
    decreases es,
{
    if es.len() == 0 {
        true
    } else {
        entries_ok(es.drop_last()) && tree_ok(es.last())
    }
}

pub proof fn lemma_entries_ok_elts(es: Seq<TreeModel>)
    requires
        entries_ok(es),
    ensures
        forall|i: int| 0 <= i < es.len() ==> tree_ok(#[trigger] es[i]),
    decreases es,
{
    if es.len() > 0 {
        lemma_entries_ok_elts(es.drop_last());
        assert(forall|i: int| 0 <= i < es.len() - 1 ==> es.drop_last()[i] == es[i]);
    }
}

/// The name an entry displays under.
pub open spec fn entry_name(t: TreeModel) -> Seq<char> {
    match t {
        TreeModel::File { name, .. } => name,
        TreeModel::Dir { name, .. } => name,
    }
}

/// Executable image counting over one directory level, mirroring
/// [`image_count_of`].
fn count_images(entries: &Vec<FsTree>) -> (count: u32)
    requires
        entries@.len() <= u32::MAX,
    ensures
        count as int == image_count_of(entries_view(entries@)),
{
    proof {
        lemma_entries_view_elts(entries@);
        lemma_image_count_bounds(entries_view(entries@));
    }
    let mut count: u32 = 0;
    let mut i: usize = 0;
    while i < entries.len()
        invariant
            i <= entries@.len() <= u32::MAX,
            count as int == image_count_of(entries_view(entries@.take(i as int))),
            count as int <= i,
        decreases entries@.len() - i,
    {
        proof {
            assert(entries@.take(i + 1).drop_last() =~= entries@.take(i as int));
            assert(entries@.take(i + 1).last() == entries@[i as int]);
            let prev = entries_view(entries@.take(i as int));
            let step = tree_view(entries@[i as int]);
            assert(entries_view(entries@.take(i + 1)) == prev.push(step));
            assert(prev.push(step).drop_last() =~= prev);
            assert(prev.push(step).last() == step);
            lemma_image_count_bounds(prev);
        }
        let hit = match &entries[i] {
            FsTree::File { name, .. } => !is_hidden(name.as_str()) && is_image_file(
                name.as_str(),
            ),
            FsTree::Dir { .. } => false,
        };
        if hit {
            count = count + 1;
        }
        i = i + 1;
    }
    proof {
        assert(entries@.take(entries@.len() as int) =~= entries@);
    }
    count
}

/// Sibling order of index nodes: directories sort before files
/// regardless of name; within the same kind, names compare in natural
/// order.
pub open spec fn node_cmp(a: NodeModel, b: NodeModel) -> int {
    if a.is_directory && !b.is_directory {
        -1
    } else if !a.is_directory && b.is_directory {
        1
    } else {
        natural_cmp(a.name, b.name)
    }
}

pub open spec fn node_order() -> spec_fn(NodeModel, NodeModel) -> int {
    |a: NodeModel, b: NodeModel| node_cmp(a, b)
}

impl SortOrder for FileNode {
    /// Index nodes sort by the sibling order of their views.
    open spec fn cmp_spec(a: FileNode, b: FileNode) -> int {
        node_cmp(node_view(a), node_view(b))
    }

    fn cmp_exec(&self, other: &Self) -> (r: i8)
        ensures
            r as int == Self::cmp_spec(*self, *other),
            Self::cmp_spec(*other, *self) == -(r as int),
    {
        if self.is_directory && !other.is_directory {
            -1
        } else if !self.is_directory && other.is_directory {
            1
        } else {
            natord_compare(self.name.as_str(), other.name.as_str())
        }
    }
}

/// Sorts sibling nodes: directories first, then natural name order;
/// the result is the stable insertion sort of the input, hence a
/// permutation of it with adjacent elements in comparator order.
fn sort_nodes(nodes: Vec<FileNode>) -> (r: Vec<FileNode>)
    ensures
        nodes_view(r@) == sort_by_cmp(node_order(), nodes_view(nodes@)),
        nodes_view(r@).to_multiset() == nodes_view(nodes@).to_multiset(),
        ordered_by(node_order(), nodes_view(r@)),
{
    let r = sort_by_order(nodes);
    proof {
        let v = |n: FileNode| node_view(n);
        assert forall|a: FileNode, b: FileNode| #[trigger]
            order_of::<FileNode>()(a, b) == node_order()(v(a), v(b)) by {}
        lemma_sort_by_cmp_map(order_of::<FileNode>(), node_order(), v, nodes@);
        lemma_nodes_view_elts(nodes@);
        lemma_nodes_view_elts(r@);
        assert(nodes_view(nodes@) =~= nodes@.map_values(v));
        assert(nodes_view(r@) =~= r@.map_values(v));
        lemma_sort_by_cmp_multiset(node_order(), nodes_view(nodes@));
        assert(ordered_by(node_order(), nodes_view(r@))) by {
            assert forall|i: int|
                0 <= i < nodes_view(r@).len() - 1 implies #[trigger] node_order()(
                nodes_view(r@)[i],
                nodes_view(r@)[i + 1],
            ) <= 0 by {
                assert(order_of::<FileNode>()(r@[i], r@[i + 1]) <= 0);
            }
        }
    }
    r
}

/// The direct image count a scan reports for a snapshot node: images
/// directly inside a directory, zero for a plain file.
pub open spec fn dir_image_count(t: TreeModel) -> int {
    match t {
        TreeModel::File { .. } => 0,
        TreeModel::Dir { entries, .. } => image_count_of(entries),
    }
}

/// The node a file entry named like an archive contributes to its
/// parent's children: always a comic, never expanded.
pub open spec fn zip_child(name: Seq<char>, path: Seq<char>) -> NodeModel {
    NodeModel {
        name,
        path,
        is_directory: false,
        is_comic: true,
        is_zip: true,
        image_count: 0,
        children: None,
    }
}

/// The children one directory level contributes, in snapshot order and
/// before sorting: hidden entries are skipped entirely, subdirectories
/// are scanned recursively one level deeper, files appear only when
/// they classify as archives — loose images are never children.
pub open spec fn child_nodes(es: Seq<TreeModel>, depth: int, max_depth: int) -> Seq<NodeModel>
    decreases es,
{
    if es.len() == 0 {
        Seq::empty()
    } else {
        let rest = child_nodes(es.drop_last(), depth, max_depth);
        let e = es.last();
        if hidden_name(entry_name(e)) {
            rest
        } else {
            match e {
                TreeModel::Dir { .. } => rest.push(scan_spec(e, depth, max_depth)),
                TreeModel::File { name, path } => if is_zip_path(name) {
                    rest.push(zip_child(name, path))
                } else {
                    rest
                },
            }
        }
    }
}

/// What a scan of snapshot `t` at `depth` produces.
///
/// A plain file is a leaf, a comic exactly when it is an archive. A
/// directory reports its count of directly contained visible images —
/// hidden entries are skipped entirely, so they are not even counted —
/// and is a comic when that count is positive; at the depth bound it
/// is returned unexpanded,
/// otherwise its children are gathered by [`child_nodes`], ordered by
/// the sibling comparator, and left absent when none qualify.
pub open spec fn scan_spec(t: TreeModel, depth: int, max_depth: int) -> NodeModel
    decreases t,
{
    match t {
        TreeModel::File { name, path } => NodeModel {
            name,
            path,
            is_directory: false,
            is_comic: is_zip_path(name),
            is_zip: is_zip_path(name),
            image_count: 0,
            children: None,
        },
        TreeModel::Dir { name, path, entries } => {
            let count = image_count_of(entries);
            if depth >= max_depth {
                NodeModel {
                    name,
                    path,
                    is_directory: true,
                    is_comic: count > 0,
                    is_zip: false,
                    image_count: count as u32,
                    children: None,
                }
            } else {
                let kids = sort_by_cmp(node_order(), child_nodes(entries, depth + 1, max_depth));
                NodeModel {
                    name,
                    path,
                    is_directory: true,
                    is_comic: count > 0,
                    is_zip: false,
                    image_count: count as u32,
                    children: if kids.len() == 0 {
                        None
                    } else {
                        Some(kids)
                    },
                }
            }
        },
    }
}

fn scan_node(t: &FsTree, depth: u32, max_depth: u32) -> (r: FileNode)
    requires
        tree_ok(tree_view(*t)),
    ensures
        node_view(r) == scan_spec(tree_view(*t), depth as int, max_depth as int),
        node_ordered(node_view(r)),
    decreases *t,
{
    match t {
        FsTree::File { name, path } => {
            let z = is_zip_file(name.as_str());
            FileNode {
                name: name.clone(),
                path: path.clone(),
                is_directory: false,
                is_comic: z,
                is_zip: z,
                image_count: 0,
                children: None,
            }
        },
        FsTree::Dir { name, path, entries } => {
            proof {
                lemma_entries_view_elts(entries@);
                lemma_entries_ok_elts(entries_view(entries@));
            }
            let count = count_images(entries);
            let is_comic = count > 0;
            if depth >= max_depth {
                FileNode {
                    name: name.clone(),
                    path: path.clone(),
                    is_directory: true,
                    is_comic,
                    is_zip: false,
                    image_count: count,
                    children: None,
                }
            } else {
                let ghost child_depth = depth as int + 1;
                let mut kids: Vec<FileNode> = Vec::new();
                let mut i: usize = 0;
                proof {
                    assert(entries@.take(0) =~= Seq::<FsTree>::empty());
                    assert(nodes_view(kids@) =~= Seq::<NodeModel>::empty());
                }
                while i < entries.len()
                    invariant
                        i <= entries@.len(),
                        depth < max_depth,
                        tree_ok(tree_view(*t)),
                        t is Dir,
                        entries@ == t->Dir_entries@,
                        entries_ok(entries_view(entries@)),
                        nodes_view(kids@) == child_nodes(
                            entries_view(entries@.take(i as int)),
                            depth + 1,
                            max_depth as int,
                        ),
                        nodes_ordered(nodes_view(kids@)),
                    decreases entries@.len() - i,
                {
                    proof {
                        lemma_entries_view_elts(entries@);
                        lemma_entries_ok_elts(entries_view(entries@));
                        assert(entries@.take(i + 1).drop_last() =~= entries@.take(i as int));
                        assert(entries@.take(i + 1).last() == entries@[i as int]);
                        let grown = entries_view(entries@.take(i + 1));
                        assert(grown == entries_view(entries@.take(i as int)).push(
                            tree_view(entries@[i as int]),
                        ));
                        assert(grown.drop_last() =~= entries_view(entries@.take(i as int)));
                        assert(grown.last() == tree_view(entries@[i as int]));
                    }
                    let e = &entries[i];
                    match e {
                        FsTree::Dir { name: child_name, .. } => {
                            if !is_hidden(child_name.as_str()) {
                                proof {
                                    assert(tree_ok(tree_view(*e)));
                                }
                                let child = scan_node(e, depth + 1, max_depth);
                                let ghost pre = nodes_view(kids@);
                                let ghost prev_vec = kids@;
                                kids.push(child);
                                proof {
                                    assert(kids@.drop_last() =~= prev_vec);
                                    assert(kids@.last() == child);
                                    assert(nodes_view(kids@) == pre.push(node_view(child)));
                                }
                            }
                        },
                        FsTree::File { name: child_name, path: child_path } => {
                            if !is_hidden(child_name.as_str()) && is_zip_file(child_name.as_str()) {
                                let child = FileNode {
                                    name: child_name.clone(),
                                    path: child_path.clone(),
                                    is_directory: false,
                                    is_comic: true,
                                    is_zip: true,
                                    image_count: 0,
                                    children: None,
                                };
                                let ghost pre = nodes_view(kids@);
                                let ghost prev_vec = kids@;
                                kids.push(child);
                                proof {
                                    assert(kids@.drop_last() =~= prev_vec);
                                    assert(kids@.last() == child);
                                    assert(nodes_view(kids@) == pre.push(node_view(child)));
                                }
                            }
                        },
                    }
                    i = i + 1;
                }
                proof {
                    assert(entries@.take(entries@.len() as int) =~= entries@);
                }
                let kids_sorted = sort_nodes(kids);
                proof {
                    lemma_nodes_view_elts(kids_sorted@);
                    lemma_permutation_keeps_elts(
                        |n: NodeModel| node_ordered(n),
                        nodes_view(kids@),
                        nodes_view(kids_sorted@),
                    );
                }
                let children = if kids_sorted.len() == 0 {
                    None
                } else {
                    Some(kids_sorted)
                };
                FileNode {
                    name: name.clone(),
                    path: path.clone(),
                    is_directory: true,
                    is_comic,
                    is_zip: false,
                    image_count: count,
                    children,
                }
            }
        },
    }
}

/// Scans a snapshot of `root_path` down to `max_depth`, starting at
/// `depth`. `root` is the snapshot of the requested path, or `None`
/// when that path does not exist — the one fatal error of a scan.
pub fn scan_directory(root: Option<&FsTree>, depth: u32, max_depth: u32) -> (r: Result<
    FileNode,
    ScanError,
>)
    requires
        root matches Some(t) ==> tree_ok(tree_view(*t)),
    ensures
        match root {
            None => r == Err::<FileNode, ScanError>(ScanError::NotFound),
            Some(t) => r matches Ok(n) && node_view(n) == scan_spec(
                tree_view(*t),
                depth as int,
                max_depth as int,
            ) && node_ordered(node_view(n)),
        },
{
    match root {
        None => Err(ScanError::NotFound),
        Some(t) => Ok(scan_node(t, depth, max_depth)),
    }
}

/// The shape every index node keeps: a file node has no children, no
/// image count, and is a comic exactly when it is an archive; a
/// directory node is never an archive and is a comic exactly when it
/// directly holds images; a child list, when present, is nonempty and
/// holds such nodes again.
pub open spec fn node_wf(n: NodeModel) -> bool
    decreases n,
{
    &&& (!n.is_directory ==> n.children is None && n.image_count == 0 && n.is_comic == n.is_zip)
    &&& (n.is_directory ==> !n.is_zip && (n.is_comic <==> n.image_count > 0))
    &&& (n.children matches Some(c) ==> n.is_directory && c.len() > 0 && nodes_wf(c))
}

pub open spec fn nodes_wf(c: Seq<NodeModel>) -> bool
    decreases c,
{
    forall|i: int| 0 <= i < c.len() ==> node_wf(#[trigger] c[i])
}

/// Every child list of the node, at every level, stands in sibling
/// order: directories before files, natural order within each kind.
pub open spec fn node_ordered(n: NodeModel) -> bool
    decreases n,
{
    match n.children {
        None => true,
        Some(c) => ordered_by(node_order(), c) && nodes_ordered(c),
    }
}

pub open spec fn nodes_ordered(c: Seq<NodeModel>) -> bool
    decreases c,
{
    forall|i: int| 0 <= i < c.len() ==> node_ordered(#[trigger] c[i])
}

/// A permutation keeps any property its elements carry one by one.
proof fn lemma_permutation_keeps_elts(p: spec_fn(NodeModel) -> bool, a: Seq<NodeModel>, b: Seq<
    NodeModel,
>)
    requires
        a.to_multiset() == b.to_multiset(),
        forall|i: int| 0 <= i < a.len() ==> p(#[trigger] a[i]),
    ensures
        forall|i: int| 0 <= i < b.len() ==> p(#[trigger] b[i]),
{
    broadcast use vstd::seq_lib::group_to_multiset_ensures;

    assert forall|i: int| 0 <= i < b.len() implies p(#[trigger] b[i]) by {
        assert(b.contains(b[i]));
        assert(b.to_multiset().count(b[i]) > 0);
        assert(a.contains(b[i]));
        let j = choose|j: int| 0 <= j < a.len() && a[j] == b[i];
        assert(p(a[j]));
    }
}

proof fn lemma_permutation_keeps_nodes_wf(a: Seq<NodeModel>, b: Seq<NodeModel>)
    requires
        a.to_multiset() == b.to_multiset(),
        nodes_wf(a),
    ensures
        nodes_wf(b),
{
    lemma_permutation_keeps_elts(|n: NodeModel| node_wf(n), a, b);
}

proof fn lemma_child_nodes_wf(es: Seq<TreeModel>, depth: int, max_depth: int)
    requires
        entries_ok(es),
    ensures
        nodes_wf(child_nodes(es, depth, max_depth)),
    decreases es,
{
    if es.len() > 0 {
        lemma_child_nodes_wf(es.drop_last(), depth, max_depth);
        let rest = child_nodes(es.drop_last(), depth, max_depth);
        let whole = child_nodes(es, depth, max_depth);
        let e = es.last();
        if !hidden_name(entry_name(e)) {
            match e {
                TreeModel::Dir { .. } => {
                    lemma_scan_node_wf(e, depth, max_depth);
                    assert(whole == rest.push(scan_spec(e, depth, max_depth)));
                },
                TreeModel::File { name, path } => {
                    if is_zip_path(name) {
                        assert(node_wf(zip_child(name, path)));
                        assert(whole == rest.push(zip_child(name, path)));
                    }
                },
            }
        }
        assert forall|i: int| 0 <= i < whole.len() implies node_wf(#[trigger] whole[i]) by {
            if i < rest.len() {
                assert(whole[i] == rest[i]);
            }
        }
    }
}

/// Every node a scan produces satisfies [`node_wf`]: the scanner can
/// only hand out well-shaped index nodes, whatever the well-formed
/// snapshot.
pub proof fn lemma_scan_node_wf(t: TreeModel, depth: int, max_depth: int)
    requires
        tree_ok(t),
    ensures
        node_wf(scan_spec(t, depth, max_depth)),
    decreases t,
{
    match t {
        TreeModel::File { .. } => {},
        TreeModel::Dir { entries, .. } => {
            lemma_image_count_bounds(entries);
            if depth < max_depth {
                lemma_child_nodes_wf(entries, depth + 1, max_depth);
                let raw = child_nodes(entries, depth + 1, max_depth);
                let kids = sort_by_cmp(node_order(), raw);
                lemma_sort_by_cmp_multiset(node_order(), raw);
                lemma_permutation_keeps_nodes_wf(raw, kids);
            }
        },
    }
}

/// Scanning is deterministic: equal snapshots scanned to the same
/// depth yield the identical node structure and ordering.
pub proof fn lemma_scan_deterministic(t1: TreeModel, t2: TreeModel, depth: int, max_depth: int)
    requires
        t1 == t2,
    ensures
        scan_spec(t1, depth, max_depth) == scan_spec(t2, depth, max_depth),
{
}

/// Whether a directory snapshot directly contains at least one
/// visible image, and how many; hidden entries are not counted at
/// all. A plain file reports `(false, 0)`.
pub fn directory_has_images(t: &FsTree) -> (r: (bool, u32))
    requires
        tree_ok(tree_view(*t)),
    ensures
        r.1 as int == dir_image_count(tree_view(*t)),
        r.0 == (r.1 > 0),
{
    match t {
        FsTree::File { .. } => (false, 0),
        FsTree::Dir { entries, .. } => {
            proof {
                lemma_entries_view_elts(entries@);
            }
            let count = count_images(entries);
            (count > 0, count)
        },
    }
}

/// Order of page paths in a flat listing: natural order over the
/// basename alone (all results are files, so kind never matters).
pub open spec fn path_cmp(a: Seq<char>, b: Seq<char>) -> int {
    natural_cmp(basename_of(a), basename_of(b))
}

pub open spec fn path_order() -> spec_fn(Seq<char>, Seq<char>) -> int {
    |a: Seq<char>, b: Seq<char>| path_cmp(a, b)
}

pub open spec fn strings_view(v: Seq<String>) -> Seq<Seq<char>> {
    v.map_values(|s: String| s@)
}

/// The full paths of the image files lying directly in `es`, in
/// snapshot order.
pub open spec fn image_paths_of(es: Seq<TreeModel>) -> Seq<Seq<char>>
    decreases es,
{
    if es.len() == 0 {
        Seq::empty()
    } else {
        let rest = image_paths_of(es.drop_last());
        match es.last() {
            TreeModel::File { name, path } => if is_image_path(name) {
                rest.push(path)
            } else {
                rest
            },
            TreeModel::Dir { .. } => rest,
        }
    }
}

/// The count badged on a directory node never exceeds what the flat
/// lister returns for the same snapshot level, and matches it exactly
/// when no image there is hidden: the counter skips hidden entries
/// entirely, while the flat listing keeps every image file.
pub proof fn lemma_image_count_matches_listing(es: Seq<TreeModel>)
    ensures
        image_count_of(es) <= image_paths_of(es).len(),
        (forall|i: int|
            0 <= i < es.len() ==> !(is_image_entry(#[trigger] es[i]) && hidden_name(
                entry_name(es[i]),
            ))) ==> image_count_of(es) == image_paths_of(es).len(),
    decreases es,
{
    if es.len() > 0 {
        lemma_image_count_matches_listing(es.drop_last());
        if forall|i: int|
            0 <= i < es.len() ==> !(is_image_entry(#[trigger] es[i]) && hidden_name(
                entry_name(es[i]),
            )) {
            assert forall|i: int|
                0 <= i < es.drop_last().len() implies !(is_image_entry(
                #[trigger] es.drop_last()[i],
            ) && hidden_name(entry_name(es.drop_last()[i]))) by {
                assert(es.drop_last()[i] == es[i]);
            }
        }
    }
}

impl SortOrder for String {
    /// Page paths sort by natural order over their basenames.
    open spec fn cmp_spec(a: String, b: String) -> int {
        path_cmp(a@, b@)
    }

    fn cmp_exec(&self, other: &Self) -> (r: i8)
        ensures
            r as int == Self::cmp_spec(*self, *other),
            Self::cmp_spec(*other, *self) == -(r as int),
    {
        let ba = basename_str(self.as_str());
        let bb = basename_str(other.as_str());
        natord_compare(ba, bb)
    }
}

/// Sorts page paths by natural order over their basenames: the result
/// is the stable insertion sort of the input, hence a permutation of
/// it with adjacent elements in comparator order.
fn sort_paths(paths: Vec<String>) -> (r: Vec<String>)
    ensures
        strings_view(r@) == sort_by_cmp(path_order(), strings_view(paths@)),
        strings_view(r@).to_multiset() == strings_view(paths@).to_multiset(),
        ordered_by(path_order(), strings_view(r@)),
{
    let r = sort_by_order(paths);
    proof {
        let v = |s: String| s@;
        assert forall|a: String, b: String| #[trigger]
            order_of::<String>()(a, b) == path_order()(v(a), v(b)) by {}
        lemma_sort_by_cmp_map(order_of::<String>(), path_order(), v, paths@);
        assert(strings_view(paths@) =~= paths@.map_values(v));
        assert(strings_view(r@) =~= r@.map_values(v));
        lemma_sort_by_cmp_multiset(path_order(), strings_view(paths@));
        assert(ordered_by(path_order(), strings_view(r@))) by {
            assert forall|i: int|
                0 <= i < strings_view(r@).len() - 1 implies #[trigger] path_order()(
                strings_view(r@)[i],
                strings_view(r@)[i + 1],
            ) <= 0 by {
                assert(order_of::<String>()(r@[i], r@[i + 1]) <= 0);
            }
        }
    }
    r
}

/// Lists the image files lying directly inside a directory snapshot,
/// in natural order of their basenames.
///
/// `root` is the snapshot of the requested path, or `None` when that
/// path does not exist. A plain file is rejected with `NotADirectory`.
pub fn get_images_in_directory(root: Option<&FsTree>) -> (r: Result<Vec<String>, ScanError>)
    ensures
        match root {
            None => r == Err::<Vec<String>, ScanError>(ScanError::NotFound),
            Some(t) => match tree_view(*t) {
                TreeModel::File { .. } => r == Err::<Vec<String>, ScanError>(
                    ScanError::NotADirectory,
                ),
                TreeModel::Dir { entries, .. } => r matches Ok(v) && strings_view(v@)
                    == sort_by_cmp(path_order(), image_paths_of(entries)) && ordered_by(
                    path_order(),
                    strings_view(v@),
                ) && strings_view(v@).to_multiset() == image_paths_of(entries).to_multiset(),
            },
        },
{
    match root {
        None => Err(ScanError::NotFound),
        Some(t) => match t {
            FsTree::File { .. } => Err(ScanError::NotADirectory),
            FsTree::Dir { entries, .. } => {
                proof {
                    lemma_entries_view_elts(entries@);
                }
                let mut found: Vec<String> = Vec::new();
                let mut i: usize = 0;
                proof {
                    assert(entries@.take(0) =~= Seq::<FsTree>::empty());
                    assert(strings_view(found@) =~= Seq::<Seq<char>>::empty());
                }
                while i < entries.len()
                    invariant
                        i <= entries@.len(),
                        t is Dir,
                        entries@ == t->Dir_entries@,
                        strings_view(found@) == image_paths_of(
                            entries_view(entries@.take(i as int)),
                        ),
                    decreases entries@.len() - i,
                {
                    proof {
                        lemma_entries_view_elts(entries@);
                        assert(entries@.take(i + 1).drop_last() =~= entries@.take(i as int));
                        assert(entries@.take(i + 1).last() == entries@[i as int]);
                        let grown = entries_view(entries@.take(i + 1));
                        assert(grown == entries_view(entries@.take(i as int)).push(
                            tree_view(entries@[i as int]),
                        ));
                        assert(grown.drop_last() =~= entries_view(entries@.take(i as int)));
                        assert(grown.last() == tree_view(entries@[i as int]));
                    }
                    match &entries[i] {
                        FsTree::File { name, path } => {
                            if is_image_file(name.as_str()) {
                                let ghost pre = strings_view(found@);
                                found.push(path.clone());
                                proof {
                                    assert(strings_view(found@) =~= pre.push(path@));
                                }
                            }
                        },
                        FsTree::Dir { .. } => {},
                    }
                    i = i + 1;
                }
                proof {
                    assert(entries@.take(entries@.len() as int) =~= entries@);
                }
                Ok(sort_paths(found))
            },
        },
    }
}

} // verus!
