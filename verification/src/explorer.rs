//! The rows of the file explorer: a folder tree laid out as a flat list.

use vstd::prelude::*;

verus! {

/// A row of the explorer: a file or a folder of the tree, and how the user sees it.
#[derive(Clone, Debug)]
pub struct ExplorerNode {
    pub id: u64,
    pub name: String,
    pub is_dir: bool,
    pub depth: usize,
    pub size: u64,
    pub tag_bitmask: u64,
    pub parent_id: u64,
    pub child_ids: Vec<u64>,
    pub is_expanded: bool,
    pub is_selected: bool,
    pub is_visible: bool,
}

/// What a row says.
pub struct NodeView {
    pub id: u64,
    pub name: Seq<char>,
    pub is_dir: bool,
    pub depth: int,
    pub size: u64,
    pub tag_bitmask: u64,
    pub parent_id: u64,
    pub child_ids: Seq<u64>,
    pub is_expanded: bool,
    pub is_selected: bool,
    pub is_visible: bool,
}

impl View for ExplorerNode {
    type V = NodeView;

    open spec fn view(&self) -> NodeView {
        NodeView {
            id: self.id,
            name: self.name@,
            is_dir: self.is_dir,
            depth: self.depth as int,
            size: self.size,
            tag_bitmask: self.tag_bitmask,
            parent_id: self.parent_id,
            child_ids: self.child_ids@,
            is_expanded: self.is_expanded,
            is_selected: self.is_selected,
            is_visible: self.is_visible,
        }
    }
}

/// What a list of rows says.
pub open spec fn rows(nodes: Seq<ExplorerNode>) -> Seq<NodeView> {
    nodes.map_values(|n: ExplorerNode| n@)
}

/// A file or a folder with everything below it.
pub struct FolderTreeNode {
    pub id: u64,
    pub name: String,
    pub is_dir: bool,
    pub size: u64,
    pub tag_bitmask: u64,
    pub children: Vec<FolderTreeNode>,
}

/// The ids of the nodes of a list.
pub open spec fn ids_of(children: Seq<FolderTreeNode>) -> Seq<u64> {
    children.map_values(|c: FolderTreeNode| c.id)
}

/// The row of a tree node: collapsed, not selected, visible.
pub open spec fn row_of(node: FolderTreeNode, depth: int, parent_id: u64) -> NodeView {
    NodeView {
        id: node.id,
        name: node.name@,
        is_dir: node.is_dir,
        depth,
        size: node.size,
        tag_bitmask: node.tag_bitmask,
        parent_id,
        child_ids: ids_of(node.children@),
        is_expanded: false,
        is_selected: false,
        is_visible: true,
    }
}

/// The rows of a tree: its root, then those of its subtrees, one subtree after the other.
pub open spec fn tree_rows(node: FolderTreeNode, depth: int, parent_id: u64) -> Seq<NodeView>
    decreases node,
{
    seq![row_of(node, depth, parent_id)] + forest_rows(node.children@, depth + 1, node.id)
}

/// The rows of several trees, one tree after the other.
pub open spec fn forest_rows(trees: Seq<FolderTreeNode>, depth: int, parent_id: u64) -> Seq<
    NodeView,
>
    decreases trees,
{
    if trees.len() == 0 {
        Seq::empty()
    } else {
        forest_rows(trees.drop_last(), depth, parent_id) + tree_rows(trees.last(), depth, parent_id)
    }
}

/// How many levels a tree has below its root.
pub open spec fn tree_height(node: FolderTreeNode) -> nat
    decreases node,
{
    forest_height(node.children@)
}

/// How many levels the highest of the trees has, its root counted.
pub open spec fn forest_height(trees: Seq<FolderTreeNode>) -> nat
    decreases trees,
{
    if trees.len() == 0 {
        0
    } else {
        let others = forest_height(trees.drop_last());
        let last = 1 + tree_height(trees.last());
        if others < last {
            last
        } else {
            others
        }
    }
}

proof fn lemma_height_of_child(trees: Seq<FolderTreeNode>, i: int)
    requires
        0 <= i < trees.len(),
    ensures
        1 + tree_height(trees[i]) <= forest_height(trees),
    decreases trees.len(),
{
    if i < trees.len() - 1 {
        lemma_height_of_child(trees.drop_last(), i);
    }
}

/// The ids of the children of a node.
pub(crate) fn child_ids(node: &FolderTreeNode) -> (res: Vec<u64>)
    ensures
        res@ == ids_of(node.children@),
{
    let mut res: Vec<u64> = Vec::new();
    let mut i: usize = 0;
    while i < node.children.len()
        invariant
            i <= node.children@.len(),
            res@ == ids_of(node.children@).take(i as int),
        decreases node.children.len() - i,
    {
        res.push(node.children[i].id);
        i = i + 1;
    }
    assert(ids_of(node.children@).take(i as int) == ids_of(node.children@));
    res
}

/// Appends the rows of a tree, whose root stands at `depth` below `parent_id`, to a list.
pub fn flatten_explorer_tree(
    node: &FolderTreeNode,
    depth: usize,
    parent_id: u64,
    flat_list: &mut Vec<ExplorerNode>,
)
    requires
        depth + tree_height(*node) <= usize::MAX,
    ensures
        final(flat_list)@.take(old(flat_list)@.len() as int) == old(flat_list)@,
        rows(final(flat_list)@) == rows(old(flat_list)@) + tree_rows(*node, depth as int, parent_id),
    decreases node,
{
    let row = ExplorerNode {
        id: node.id,
        name: node.name.clone(),
        is_dir: node.is_dir,
        depth,
        size: node.size,
        tag_bitmask: node.tag_bitmask,
        parent_id,
        child_ids: child_ids(node),
        is_expanded: false,
        is_selected: false,
        is_visible: true,
    };
    let ghost start = flat_list@;
    flat_list.push(row);
    let ghost trees = node.children@;
    let mut i: usize = 0;
    assert(trees.take(0) == Seq::<FolderTreeNode>::empty());
    assert(rows(flat_list@) == rows(start) + seq![row_of(*node, depth as int, parent_id)]);
    while i < node.children.len()
        invariant
            i <= trees.len(),
            trees == node.children@,
            depth + tree_height(*node) <= usize::MAX,
            flat_list@.len() >= start.len(),
            flat_list@.take(start.len() as int) == start,
            rows(flat_list@) == rows(start) + seq![row_of(*node, depth as int, parent_id)]
                + forest_rows(trees.take(i as int), depth + 1, node.id),
        decreases node.children.len() - i,
    {
        let ghost before = flat_list@;
        proof {
            lemma_height_of_child(trees, i as int);
        }
        flatten_explorer_tree(&node.children[i], depth + 1, node.id, flat_list);
        proof {
            assert(trees.take(i + 1).drop_last() == trees.take(i as int));
            assert(rows(flat_list@).len() == flat_list@.len());
            assert(flat_list@.take(start.len() as int) == before.take(start.len() as int)) by {
                assert(forall|k: int| 0 <= k < before.len() ==> flat_list@.take(before.len() as int)[k] == before[k]);
            }
        }
        i = i + 1;
    }
    assert(trees.take(i as int) == trees);
}

/// Whether the rows of a tree at `depth` all have depths that a machine word holds.
pub fn fits_depth(node: &FolderTreeNode, depth: usize) -> (res: bool)
    ensures
        res == (depth + tree_height(*node) <= usize::MAX),
    decreases node,
{
    let ghost trees = node.children@;
    let mut i: usize = 0;
    assert(trees.take(0) == Seq::<FolderTreeNode>::empty());
    while i < node.children.len()
        invariant
            i <= trees.len(),
            trees == node.children@,
            depth + forest_height(trees.take(i as int)) <= usize::MAX,
        decreases node.children.len() - i,
    {
        proof {
            lemma_height_of_child(trees, i as int);
        }
        assert(trees.take(i + 1).drop_last() == trees.take(i as int));
        if depth == usize::MAX || !fits_depth(&node.children[i], depth + 1) {
            return false;
        }
        i = i + 1;
    }
    assert(trees.take(i as int) == trees);
    true
}

/// What stands below a row follows it directly: of the rows of a tree, the first is at the depth
/// of the tree and all others are deeper.
pub proof fn law_subtree_follows_its_root(
    node: FolderTreeNode,
    depth: int,
    parent_id: u64,
    i: int,
)
    requires
        0 <= i < tree_rows(node, depth, parent_id).len(),
    ensures
        tree_rows(node, depth, parent_id)[i].depth == depth <==> i == 0,
        tree_rows(node, depth, parent_id)[i].depth >= depth,
    decreases node,
{
    if i > 0 {
        lemma_forest_depth(node.children@, depth + 1, node.id, i - 1);
    }
}

proof fn lemma_forest_depth(trees: Seq<FolderTreeNode>, depth: int, parent_id: u64, i: int)
    requires
        0 <= i < forest_rows(trees, depth, parent_id).len(),
    ensures
        forest_rows(trees, depth, parent_id)[i].depth >= depth,
    decreases trees,
{
    let before = forest_rows(trees.drop_last(), depth, parent_id);
    if i < before.len() {
        lemma_forest_depth(trees.drop_last(), depth, parent_id, i);
    } else {
        law_subtree_follows_its_root(trees.last(), depth, parent_id, i - before.len());
    }
}

/// How many nodes a tree has.
pub open spec fn tree_size(node: FolderTreeNode) -> nat
    decreases node,
{
    1 + forest_size(node.children@)
}

/// How many nodes several trees have together.
pub open spec fn forest_size(trees: Seq<FolderTreeNode>) -> nat
    decreases trees,
{
    if trees.len() == 0 {
        0
    } else {
        forest_size(trees.drop_last()) + tree_size(trees.last())
    }
}

/// A tree has one row for each of its nodes.
pub proof fn law_one_row_per_node(node: FolderTreeNode, depth: int, parent_id: u64)
    ensures
        tree_rows(node, depth, parent_id).len() == tree_size(node),
    decreases node,
{
    lemma_forest_len(node.children@, depth + 1, node.id);
}

proof fn lemma_forest_len(trees: Seq<FolderTreeNode>, depth: int, parent_id: u64)
    ensures
        forest_rows(trees, depth, parent_id).len() == forest_size(trees),
    decreases trees,
{
    if trees.len() > 0 {
        lemma_forest_len(trees.drop_last(), depth, parent_id);
        law_one_row_per_node(trees.last(), depth, parent_id);
    }
}

/// The views of rows leave nothing out.
pub proof fn law_row_views_are_faithful(node: ExplorerNode, nodes: Seq<ExplorerNode>)
    ensures
        node@.id == node.id && node@.name == node.name@ && node@.is_dir == node.is_dir,
        node@.depth == node.depth && node@.size == node.size,
        node@.tag_bitmask == node.tag_bitmask && node@.parent_id == node.parent_id,
        node@.child_ids == node.child_ids@ && node@.is_expanded == node.is_expanded,
        node@.is_selected == node.is_selected && node@.is_visible == node.is_visible,
        rows(nodes).len() == nodes.len(),
        forall|i: int| 0 <= i < nodes.len() ==> #[trigger] rows(nodes)[i] == nodes[i]@,
{
}

/// The node that is reached from a tree by going to the child of each number in turn.
pub open spec fn node_at(tree: FolderTreeNode, path: Seq<int>) -> Option<FolderTreeNode>
    decreases path.len(),
{
    if path.len() == 0 {
        Some(tree)
    } else if 0 <= path[0] < tree.children@.len() {
        node_at(tree.children@[path[0]], path.drop_first())
    } else {
        None
    }
}

/// A row carries a node of the tree unchanged: its id, name, kind, size and tags, and the ids of
/// its children in order.
pub open spec fn row_shows(row: NodeView, node: FolderTreeNode) -> bool {
    &&& row.id == node.id
    &&& row.name == node.name@
    &&& row.is_dir == node.is_dir
    &&& row.size == node.size
    &&& row.tag_bitmask == node.tag_bitmask
    &&& row.child_ids.len() == node.children@.len()
    &&& forall|k: int|
        0 <= k < node.children@.len() ==> #[trigger] row.child_ids[k] == node.children@[k].id
}

/// The row stands for the node at the end of the path: it carries the node, is as many levels
/// below the top as the path is long, and its parent is the node where the path was one step
/// shorter.
pub open spec fn row_stands_for(
    row: NodeView,
    tree: FolderTreeNode,
    depth: int,
    parent_id: u64,
    path: Seq<int>,
) -> bool {
    &&& node_at(tree, path) matches Some(node) && row_shows(row, node)
    &&& row.depth == depth + path.len()
    &&& path.len() == 0 ==> row.parent_id == parent_id
    &&& path.len() > 0 ==> (node_at(tree, path.drop_last()) matches Some(above) && row.parent_id
        == above.id)
}

pub(crate) proof fn lemma_path_of_child(
    row: NodeView,
    tree: FolderTreeNode,
    depth: int,
    parent_id: u64,
    k: int,
    path: Seq<int>,
)
    requires
        0 <= k < tree.children@.len(),
    ensures
        node_at(tree, seq![k] + path) == node_at(tree.children@[k], path),
        row_stands_for(row, tree.children@[k], depth + 1, tree.id, path) ==> row_stands_for(
            row,
            tree,
            depth,
            parent_id,
            seq![k] + path,
        ),
{
    let longer = seq![k] + path;
    assert(longer.drop_first() == path);
    if path.len() > 0 {
        assert(longer.drop_last() == seq![k] + path.drop_last());
        assert((seq![k] + path.drop_last()).drop_first() == path.drop_last());
        assert((seq![k] + path.drop_last())[0] == k);
    } else {
        assert(longer.drop_last() == Seq::<int>::empty());
        assert(node_at(tree, Seq::<int>::empty()) == Some(tree));
    }
}

/// Each row of a tree stands for one of its nodes and carries it unchanged.
pub proof fn law_rows_carry_their_nodes(node: FolderTreeNode, depth: int, parent_id: u64, i: int)
    requires
        0 <= i < tree_rows(node, depth, parent_id).len(),
    ensures
        exists|path: Seq<int>|
            #[trigger] row_stands_for(
                tree_rows(node, depth, parent_id)[i],
                node,
                depth,
                parent_id,
                path,
            ),
    decreases node,
{
    let row = tree_rows(node, depth, parent_id)[i];
    if i == 0 {
        assert(row_stands_for(row, node, depth, parent_id, Seq::empty()));
    } else {
        lemma_forest_rows_carry(node.children@, depth + 1, node.id, i - 1);
        let (k, path) = choose|k: int, path: Seq<int>|
            0 <= k < node.children@.len() && #[trigger] row_stands_for(
                row,
                node.children@[k],
                depth + 1,
                node.id,
                path,
            );
        lemma_path_of_child(row, node, depth, parent_id, k, path);
        assert(row_stands_for(row, node, depth, parent_id, seq![k] + path));
    }
}

proof fn lemma_forest_rows_carry(trees: Seq<FolderTreeNode>, depth: int, parent_id: u64, i: int)
    requires
        0 <= i < forest_rows(trees, depth, parent_id).len(),
    ensures
        exists|k: int, path: Seq<int>|
            0 <= k < trees.len() && #[trigger] row_stands_for(
                forest_rows(trees, depth, parent_id)[i],
                trees[k],
                depth,
                parent_id,
                path,
            ),
    decreases trees,
{
    let shorter = trees.drop_last();
    let before = forest_rows(shorter, depth, parent_id);
    let row = forest_rows(trees, depth, parent_id)[i];
    if i < before.len() {
        lemma_forest_rows_carry(shorter, depth, parent_id, i);
        let (k, path) = choose|k: int, path: Seq<int>|
            0 <= k < shorter.len() && #[trigger] row_stands_for(
                before[i],
                shorter[k],
                depth,
                parent_id,
                path,
            );
        assert(trees[k] == shorter[k]);
        assert(row_stands_for(row, trees[k], depth, parent_id, path));
    } else {
        law_rows_carry_their_nodes(trees.last(), depth, parent_id, i - before.len());
        let path = choose|path: Seq<int>|
            #[trigger] row_stands_for(
                tree_rows(trees.last(), depth, parent_id)[i - before.len()],
                trees.last(),
                depth,
                parent_id,
                path,
            );
        assert(row_stands_for(row, trees[trees.len() - 1], depth, parent_id, path));
    }
}

/// Every node of a tree has a row that stands for it.
pub proof fn law_every_node_has_a_row(
    node: FolderTreeNode,
    depth: int,
    parent_id: u64,
    path: Seq<int>,
)
    requires
        node_at(node, path) is Some,
    ensures
        exists|i: int|
            0 <= i < tree_rows(node, depth, parent_id).len() && row_stands_for(
                #[trigger] tree_rows(node, depth, parent_id)[i],
                node,
                depth,
                parent_id,
                path,
            ),
    decreases path.len(),
{
    let list = tree_rows(node, depth, parent_id);
    if path.len() == 0 {
        assert(path == Seq::<int>::empty());
        assert(row_stands_for(list[0], node, depth, parent_id, path));
    } else {
        let k = path[0];
        let rest = path.drop_first();
        let child = node.children@[k];
        law_every_node_has_a_row(child, depth + 1, node.id, rest);
        let below = tree_rows(child, depth + 1, node.id);
        let j = choose|j: int|
            0 <= j < below.len() && row_stands_for(
                #[trigger] below[j],
                child,
                depth + 1,
                node.id,
                rest,
            );
        lemma_path_of_child(below[j], node, depth, parent_id, k, rest);
        assert(seq![k] + rest == path);
        let trees = node.children@;
        law_rows_follow_the_order_of_children(trees.take(k), trees.skip(k), depth + 1, node.id);
        law_rows_follow_the_order_of_children(seq![child], trees.skip(k + 1), depth + 1, node.id);
        assert(trees.take(k) + trees.skip(k) == trees);
        assert(seq![child] + trees.skip(k + 1) == trees.skip(k));
        let at = 1 + forest_rows(trees.take(k), depth + 1, node.id).len() + j;
        assert(list[at] == below[j]);
    }
}

/// The rows of several trees are those of the first of them, then those of the others; the rows
/// of one tree are its root and then those of its children, one level deeper.
pub proof fn law_rows_follow_the_order_of_children(
    a: Seq<FolderTreeNode>,
    b: Seq<FolderTreeNode>,
    depth: int,
    parent_id: u64,
)
    ensures
        forest_rows(a + b, depth, parent_id) == forest_rows(a, depth, parent_id) + forest_rows(
            b,
            depth,
            parent_id,
        ),
        a.len() == 1 ==> forest_rows(a, depth, parent_id) == tree_rows(a[0], depth, parent_id),
        a.len() == 1 ==> tree_rows(a[0], depth, parent_id).skip(1) == forest_rows(
            a[0].children@,
            depth + 1,
            a[0].id,
        ),
    decreases b.len(),
{
    if b.len() > 0 {
        assert((a + b).drop_last() == a + b.drop_last());
        assert((a + b).last() == b.last());
        law_rows_follow_the_order_of_children(a, b.drop_last(), depth, parent_id);
        assert(forest_rows(a + b, depth, parent_id) == forest_rows(a, depth, parent_id)
            + forest_rows(b, depth, parent_id));
    } else {
        assert(a + b == a);
        assert(forest_rows(a, depth, parent_id) + Seq::<NodeView>::empty() == forest_rows(
            a,
            depth,
            parent_id,
        ));
    }
    if a.len() == 1 {
        assert(a.drop_last() == Seq::<FolderTreeNode>::empty());
        assert(forest_rows(a.drop_last(), depth, parent_id) == Seq::<NodeView>::empty());
        assert(forest_rows(a, depth, parent_id) == tree_rows(a[0], depth, parent_id));
        assert(tree_rows(a[0], depth, parent_id).skip(1) == forest_rows(
            a[0].children@,
            depth + 1,
            a[0].id,
        ));
    }
}

} // verus!
