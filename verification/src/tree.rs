//! Laying out a folder tree in which nodes may occur more than once and folders may have no name.

use std::collections::HashSet;

use vstd::prelude::*;

use crate::explorer::{
    child_ids, forest_height, forest_rows, node_at, row_of, row_shows, rows, tree_height, tree_rows,
    ExplorerNode, FolderTreeNode, NodeView,
};
use crate::selection::parents_first;

verus! {

/// The rows of a tree of which the nodes with the ids `seen` were laid out before, and the ids
/// that are known after it. A node that was laid out before gives no row, nor does anything
/// below it; the id 0 stands for no identity. A folder without a name gives no row of its own,
/// and what is in it takes its place.
pub open spec fn outline(
    node: FolderTreeNode,
    depth: int,
    parent_id: u64,
    seen: Set<u64>,
) -> (Seq<NodeView>, Set<u64>)
    decreases node,
{
    if node.id != 0 && seen.contains(node.id) {
        (Seq::empty(), seen)
    } else {
        let known = with_id(seen, node.id);
        if is_unnamed_folder(node) {
            outlines(node.children@, depth, parent_id, known)
        } else {
            let below = outlines(node.children@, depth + 1, node.id, known);
            (seq![row_of(node, depth, parent_id)] + below.0, below.1)
        }
    }
}

/// The rows of several trees, one tree after the other, and the ids that are known after them.
pub open spec fn outlines(
    trees: Seq<FolderTreeNode>,
    depth: int,
    parent_id: u64,
    seen: Set<u64>,
) -> (Seq<NodeView>, Set<u64>)
    decreases trees,
{
    if trees.len() == 0 {
        (Seq::empty(), seen)
    } else {
        let before = outlines(trees.drop_last(), depth, parent_id, seen);
        let last = outline(trees.last(), depth, parent_id, before.1);
        (before.0 + last.0, last.1)
    }
}

/// A folder without a name.
pub open spec fn is_unnamed_folder(node: FolderTreeNode) -> bool {
    node.is_dir && node.name@.len() == 0
}

/// The ids that are known once a node is laid out, before anything below it is.
pub open spec fn with_id(seen: Set<u64>, id: u64) -> Set<u64> {
    if id != 0 {
        seen.insert(id)
    } else {
        seen
    }
}

/// The greatest depth that the layout of a tree comes to. A node that was laid out before is not
/// entered, and what is in a folder without a name stands no deeper than the folder.
pub open spec fn deepest(
    node: FolderTreeNode,
    depth: int,
    parent_id: u64,
    seen: Set<u64>,
) -> int
    decreases node,
{
    if (node.id != 0 && seen.contains(node.id)) || node.children@.len() == 0 {
        depth
    } else if is_unnamed_folder(node) {
        deepest_of(node.children@, depth, parent_id, with_id(seen, node.id))
    } else {
        deepest_of(node.children@, depth + 1, node.id, with_id(seen, node.id))
    }
}

/// The greatest depth that the layout of several trees comes to, at least that of their roots.
pub open spec fn deepest_of(
    trees: Seq<FolderTreeNode>,
    depth: int,
    parent_id: u64,
    seen: Set<u64>,
) -> int
    decreases trees,
{
    if trees.len() == 0 {
        depth
    } else {
        let others = deepest_of(trees.drop_last(), depth, parent_id, seen);
        let known = outlines(trees.drop_last(), depth, parent_id, seen).1;
        let last = deepest(trees.last(), depth, parent_id, known);
        if others < last {
            last
        } else {
            others
        }
    }
}

proof fn lemma_deepest_of_part(
    trees: Seq<FolderTreeNode>,
    depth: int,
    parent_id: u64,
    seen: Set<u64>,
    i: int,
)
    requires
        0 <= i <= trees.len(),
    ensures
        depth <= deepest_of(trees.take(i), depth, parent_id, seen) <= deepest_of(
            trees,
            depth,
            parent_id,
            seen,
        ),
        i < trees.len() ==> deepest(
            trees[i],
            depth,
            parent_id,
            outlines(trees.take(i), depth, parent_id, seen).1,
        ) <= deepest_of(trees, depth, parent_id, seen),
    decreases trees.len(),
{
    if trees.len() > 0 {
        let shorter = trees.drop_last();
        lemma_deepest_of_part(shorter, depth, parent_id, seen, if i < trees.len() { i } else { i - 1 });
        if i < trees.len() {
            assert(shorter.take(i) == trees.take(i));
            if i == shorter.len() {
                assert(shorter.take(i) == shorter);
            }
        } else {
            assert(trees.take(i) == trees);
        }
    } else {
        assert(trees.take(i) == trees);
    }
}

/// Appends the rows of a tree, whose root stands at `depth` below `parent_id`, to a list, but for
/// the nodes in `seen_ids`, and notes what was laid out.
pub fn flatten_explorer_tree(
    node: &FolderTreeNode,
    depth: usize,
    parent_id: u64,
    flat_list: &mut Vec<ExplorerNode>,
    seen_ids: &mut HashSet<u64>,
)
    requires
        deepest(*node, depth as int, parent_id, old(seen_ids)@) <= usize::MAX,
    ensures
        final(flat_list)@.len() >= old(flat_list)@.len(),
        final(flat_list)@.take(old(flat_list)@.len() as int) == old(flat_list)@,
        rows(final(flat_list)@) == rows(old(flat_list)@) + outline(
            *node,
            depth as int,
            parent_id,
            old(seen_ids)@,
        ).0,
        final(seen_ids)@ == outline(*node, depth as int, parent_id, old(seen_ids)@).1,
    decreases node, 1nat,
{
    if node.id != 0 && seen_ids.contains(&node.id) {
        assert(rows(flat_list@) + Seq::<NodeView>::empty() == rows(flat_list@));
        return ;
    }
    if node.id != 0 {
        seen_ids.insert(node.id);
    }
    let ghost start = flat_list@;
    let ghost known = seen_ids@;
    if node.is_dir && node.name.as_str().is_empty() {
        flatten_children(node, depth, parent_id, flat_list, seen_ids);
        return ;
    }
    let row = ExplorerNode {
        id: node.id,
        name: node.name.clone(),
        is_dir: node.is_dir,
        depth,
        size: node.size,
        tag_bitmask: node.tag_bitmask,
        parent_id,
        child_ids: child_ids(node),
        is_expanded: false,
        is_selected: false,
        is_visible: true,
    };
    flat_list.push(row);
    let ghost with_row = flat_list@;
    assert(rows(with_row) == rows(start) + seq![row_of(*node, depth as int, parent_id)]);
    if node.children.len() > 0 {
        proof {
            lemma_deepest_of_part(node.children@, depth + 1, node.id, known, 0);
        }
        flatten_children(node, depth + 1, node.id, flat_list, seen_ids);
    }
    proof {
        let below = outlines(node.children@, depth + 1, node.id, known);
        assert(rows(flat_list@) == rows(with_row) + below.0);
        assert(rows(flat_list@) == rows(start) + (seq![row_of(*node, depth as int, parent_id)]
            + below.0));
        assert(flat_list@.take(start.len() as int) == start) by {
            assert(forall|k: int|
                0 <= k < with_row.len() ==> flat_list@.take(with_row.len() as int)[k]
                    == with_row[k]);
        }
    }
}

/// Appends the rows of the children of a node.
fn flatten_children(
    node: &FolderTreeNode,
    depth: usize,
    parent_id: u64,
    flat_list: &mut Vec<ExplorerNode>,
    seen_ids: &mut HashSet<u64>,
)
    requires
        deepest_of(node.children@, depth as int, parent_id, old(seen_ids)@) <= usize::MAX,
    ensures
        final(flat_list)@.len() >= old(flat_list)@.len(),
        final(flat_list)@.take(old(flat_list)@.len() as int) == old(flat_list)@,
        rows(final(flat_list)@) == rows(old(flat_list)@) + outlines(
            node.children@,
            depth as int,
            parent_id,
            old(seen_ids)@,
        ).0,
        final(seen_ids)@ == outlines(node.children@, depth as int, parent_id, old(seen_ids)@).1,
    decreases node, 0nat,
{
    let ghost start = flat_list@;
    let ghost known = seen_ids@;
    let ghost trees = node.children@;
    let mut i: usize = 0;
    assert(trees.take(0) == Seq::<FolderTreeNode>::empty());
    while i < node.children.len()
        invariant
            i <= trees.len(),
            trees == node.children@,
            deepest_of(trees, depth as int, parent_id, known) <= usize::MAX,
            flat_list@.len() >= start.len(),
            flat_list@.take(start.len() as int) == start,
            rows(flat_list@) == rows(start) + outlines(
                trees.take(i as int),
                depth as int,
                parent_id,
                known,
            ).0,
            seen_ids@ == outlines(trees.take(i as int), depth as int, parent_id, known).1,
        decreases node.children.len() - i,
    {
        let ghost before = flat_list@;
        proof {
            lemma_deepest_of_part(trees, depth as int, parent_id, known, i as int);
        }
        flatten_explorer_tree(&node.children[i], depth, parent_id, flat_list, seen_ids);
        proof {
            assert(trees.take(i + 1).drop_last() == trees.take(i as int));
            assert(flat_list@.take(start.len() as int) == start) by {
                assert(forall|k: int|
                    0 <= k < before.len() ==> flat_list@.take(before.len() as int)[k] == before[k]);
            }
        }
        i = i + 1;
    }
    assert(trees.take(i as int) == trees);
}

/// Whether the depths of a layout fit a machine word. Notes what would be laid out, as far as it
/// looked.
fn fits_layout(
    node: &FolderTreeNode,
    depth: usize,
    parent_id: u64,
    seen_ids: &mut HashSet<u64>,
) -> (res: bool)
    ensures
        res == (deepest(*node, depth as int, parent_id, old(seen_ids)@) <= usize::MAX),
        res ==> final(seen_ids)@ == outline(*node, depth as int, parent_id, old(seen_ids)@).1,
    decreases node, 1nat,
{
    if node.id != 0 && seen_ids.contains(&node.id) {
        return true;
    }
    if node.id != 0 {
        seen_ids.insert(node.id);
    }
    if node.children.len() == 0 {
        return true;
    }
    if node.is_dir && node.name.as_str().is_empty() {
        return fits_children(node, depth, parent_id, seen_ids);
    }
    if depth == usize::MAX {
        proof {
            lemma_deepest_of_part(node.children@, depth + 1, node.id, seen_ids@, 0);
        }
        return false;
    }
    fits_children(node, depth + 1, node.id, seen_ids)
}

fn fits_children(
    node: &FolderTreeNode,
    depth: usize,
    parent_id: u64,
    seen_ids: &mut HashSet<u64>,
) -> (res: bool)
    ensures
        res == (deepest_of(node.children@, depth as int, parent_id, old(seen_ids)@) <= usize::MAX),
        res ==> final(seen_ids)@ == outlines(
            node.children@,
            depth as int,
            parent_id,
            old(seen_ids)@,
        ).1,
    decreases node, 0nat,
{
    let ghost known = seen_ids@;
    let ghost trees = node.children@;
    let mut i: usize = 0;
    assert(trees.take(0) == Seq::<FolderTreeNode>::empty());
    while i < node.children.len()
        invariant
            i <= trees.len(),
            trees == node.children@,
            known == old(seen_ids)@,
            deepest_of(trees.take(i as int), depth as int, parent_id, known) <= usize::MAX,
            seen_ids@ == outlines(trees.take(i as int), depth as int, parent_id, known).1,
        decreases node.children.len() - i,
    {
        proof {
            lemma_deepest_of_part(trees, depth as int, parent_id, known, i as int);
            assert(trees.take(i + 1).drop_last() == trees.take(i as int));
        }
        if !fits_layout(&node.children[i], depth, parent_id, seen_ids) {
            return false;
        }
        i = i + 1;
    }
    assert(trees.take(i as int) == trees);
    true
}

/// Whether the depths of a whole tree, laid out from the top, fit a machine word.
pub fn fits_from_top(node: &FolderTreeNode) -> (res: bool)
    ensures
        res == (deepest(*node, 0, 0, Set::empty()) <= usize::MAX),
{
    let mut seen: HashSet<u64> = HashSet::new();
    fits_layout(node, 0, 0, &mut seen)
}

/// Each row has the given parent and depth, or stands behind its parent, one level deeper.
pub open spec fn rows_hang_together(list: Seq<NodeView>, depth: int, parent_id: u64) -> bool {
    forall|i: int|
        0 <= i < list.len() ==> {
            ||| (#[trigger] list[i]).parent_id == parent_id && list[i].depth == depth
            ||| exists|j: int|
                0 <= j < i && (#[trigger] list[j]).id == list[i].parent_id && list[j].depth + 1
                    == list[i].depth
        }
}

/// No two rows have the same id; the id 0 stands for no identity.
pub open spec fn ids_differ(list: Seq<NodeView>) -> bool {
    forall|i: int, j: int|
        0 <= i < list.len() && 0 <= j < list.len() && i != j && list[i].id != 0 ==> (
        #[trigger] list[i]).id != (#[trigger] list[j]).id
}

/// The ids of the rows are among those known after, and none among those known before.
spec fn ids_are_new(list: Seq<NodeView>, before: Set<u64>, after: Set<u64>) -> bool {
    &&& before.subset_of(after)
    &&& forall|i: int|
        0 <= i < list.len() && (#[trigger] list[i]).id != 0 ==> !before.contains(list[i].id)
            && after.contains(list[i].id)
}

proof fn lemma_hang_together_append(
    a: Seq<NodeView>,
    b: Seq<NodeView>,
    depth: int,
    parent_id: u64,
)
    requires
        rows_hang_together(a, depth, parent_id),
        rows_hang_together(b, depth, parent_id),
    ensures
        rows_hang_together(a + b, depth, parent_id),
{
    let c = a + b;
    assert forall|i: int| 0 <= i < c.len() implies ((#[trigger] c[i]).parent_id == parent_id
        && c[i].depth == depth) || exists|j: int|
        0 <= j < i && (#[trigger] c[j]).id == c[i].parent_id && c[j].depth + 1 == c[i].depth by {
        if i < a.len() {
            assert(c[i] == a[i]);
            if !(a[i].parent_id == parent_id && a[i].depth == depth) {
                let j = choose|j: int|
                    0 <= j < i && (#[trigger] a[j]).id == a[i].parent_id && a[j].depth + 1
                        == a[i].depth;
                assert(c[j] == a[j]);
            }
        } else {
            let m = i - a.len();
            assert(c[i] == b[m]);
            if !(b[m].parent_id == parent_id && b[m].depth == depth) {
                let j = choose|j: int|
                    0 <= j < m && (#[trigger] b[j]).id == b[m].parent_id && b[j].depth + 1
                        == b[m].depth;
                assert(c[j + a.len()] == b[j]);
            }
        }
    }
}

proof fn lemma_hang_together_root(
    root: NodeView,
    below: Seq<NodeView>,
    depth: int,
    parent_id: u64,
)
    requires
        root.depth == depth,
        root.parent_id == parent_id,
        rows_hang_together(below, depth + 1, root.id),
    ensures
        rows_hang_together(seq![root] + below, depth, parent_id),
{
    let c = seq![root] + below;
    assert(c[0] == root);
    assert forall|i: int| 0 <= i < c.len() implies ((#[trigger] c[i]).parent_id == parent_id
        && c[i].depth == depth) || exists|j: int|
        0 <= j < i && (#[trigger] c[j]).id == c[i].parent_id && c[j].depth + 1 == c[i].depth by {
        if i > 0 {
            let m = i - 1;
            assert(c[i] == below[m]);
            if below[m].parent_id == root.id && below[m].depth == depth + 1 {
                assert(c[0].id == c[i].parent_id);
            } else {
                let j = choose|j: int|
                    0 <= j < m && (#[trigger] below[j]).id == below[m].parent_id && below[j].depth
                        + 1 == below[m].depth;
                assert(c[j + 1] == below[j]);
            }
        }
    }
}

proof fn lemma_new_ids_append(
    a: Seq<NodeView>,
    b: Seq<NodeView>,
    first: Set<u64>,
    second: Set<u64>,
    third: Set<u64>,
)
    requires
        ids_differ(a),
        ids_differ(b),
        ids_are_new(a, first, second),
        ids_are_new(b, second, third),
    ensures
        ids_differ(a + b),
        ids_are_new(a + b, first, third),
{
    let c = a + b;
    assert forall|i: int| 0 <= i < c.len() && (#[trigger] c[i]).id != 0 implies !first.contains(
        c[i].id,
    ) && third.contains(c[i].id) by {
        if i < a.len() {
            assert(c[i] == a[i]);
            assert(second.contains(a[i].id));
        } else {
            assert(c[i] == b[i - a.len()]);
            assert(!second.contains(b[i - a.len()].id));
        }
    }
    assert forall|i: int, j: int|
        0 <= i < c.len() && 0 <= j < c.len() && i != j && c[i].id != 0 implies (
    #[trigger] c[i]).id != (#[trigger] c[j]).id by {
        if i < a.len() && j < a.len() {
            assert(a[i].id != a[j].id);
        } else if i >= a.len() && j >= a.len() {
            assert(b[i - a.len()].id != b[j - a.len()].id);
        } else if i < a.len() {
            assert(second.contains(a[i].id));
            assert(b[j - a.len()].id != 0 ==> !second.contains(b[j - a.len()].id));
        } else {
            assert(!second.contains(b[i - a.len()].id));
            assert(a[j].id != 0 ==> second.contains(a[j].id));
        }
    }
}

proof fn lemma_outline(node: FolderTreeNode, depth: int, parent_id: u64, seen: Set<u64>)
    ensures
        ({
            let (list, known) = outline(node, depth, parent_id, seen);
            &&& rows_hang_together(list, depth, parent_id)
            &&& ids_differ(list)
            &&& ids_are_new(list, seen, known)
            &&& node.id != 0 ==> known.contains(node.id)
        }),
    decreases node,
{
    if !(node.id != 0 && seen.contains(node.id)) {
        let known = with_id(seen, node.id);
        if is_unnamed_folder(node) {
            lemma_outlines(node.children@, depth, parent_id, known);
        } else {
            let root = row_of(node, depth, parent_id);
            let below = outlines(node.children@, depth + 1, node.id, known);
            lemma_outlines(node.children@, depth + 1, node.id, known);
            lemma_hang_together_root(root, below.0, depth, parent_id);
            lemma_new_ids_append(seq![root], below.0, seen, known, below.1);
        }
    }
}

proof fn lemma_outlines(trees: Seq<FolderTreeNode>, depth: int, parent_id: u64, seen: Set<u64>)
    ensures
        ({
            let (list, known) = outlines(trees, depth, parent_id, seen);
            &&& rows_hang_together(list, depth, parent_id)
            &&& ids_differ(list)
            &&& ids_are_new(list, seen, known)
        }),
    decreases trees,
{
    if trees.len() > 0 {
        let before = outlines(trees.drop_last(), depth, parent_id, seen);
        let last = outline(trees.last(), depth, parent_id, before.1);
        lemma_outlines(trees.drop_last(), depth, parent_id, seen);
        lemma_outline(trees.last(), depth, parent_id, before.1);
        lemma_hang_together_append(before.0, last.0, depth, parent_id);
        lemma_new_ids_append(before.0, last.0, seen, before.1, last.1);
    }
}

/// No node is laid out twice: the rows of a tree have different ids, and none that was laid out
/// before. All that was known before, and every row, is known after.
pub proof fn law_no_node_twice(
    node: FolderTreeNode,
    depth: int,
    parent_id: u64,
    seen: Set<u64>,
)
    ensures
        ids_differ(outline(node, depth, parent_id, seen).0),
        seen.subset_of(outline(node, depth, parent_id, seen).1),
        forall|i: int|
            0 <= i < outline(node, depth, parent_id, seen).0.len() && (#[trigger] outline(
                node,
                depth,
                parent_id,
                seen,
            ).0[i]).id != 0 ==> !seen.contains(outline(node, depth, parent_id, seen).0[i].id)
                && outline(node, depth, parent_id, seen).1.contains(
                outline(node, depth, parent_id, seen).0[i].id,
            ),
{
    lemma_outline(node, depth, parent_id, seen);
}

/// A node that was laid out before is skipped with everything below it, at whatever depth: no row
/// is added, no id is noted and no level is gone down.
pub proof fn law_seen_node_is_skipped(
    node: FolderTreeNode,
    depth: int,
    parent_id: u64,
    seen: Set<u64>,
)
    requires
        node.id != 0,
        seen.contains(node.id),
    ensures
        outline(node, depth, parent_id, seen) == (Seq::<NodeView>::empty(), seen),
        deepest(node, depth, parent_id, seen) == depth,
{
}

/// Laying out a tree once more, wherever it is put, gives no rows and notes no ids.
pub proof fn law_second_layout_is_empty(
    node: FolderTreeNode,
    depth: int,
    parent_id: u64,
    seen: Set<u64>,
    later_depth: int,
    later_parent_id: u64,
)
    requires
        node.id != 0,
    ensures
        ({
            let known = outline(node, depth, parent_id, seen).1;
            outline(node, later_depth, later_parent_id, known) == (Seq::<NodeView>::empty(), known)
        }),
{
    lemma_outline(node, depth, parent_id, seen);
}

/// In place of a folder without a name that was not laid out before stands what is in it, with
/// the depth and the parent of the folder; the folder has no row, and goes down no level.
pub proof fn law_unnamed_folder_makes_way(
    node: FolderTreeNode,
    depth: int,
    parent_id: u64,
    seen: Set<u64>,
)
    requires
        is_unnamed_folder(node),
        node.id == 0 || !seen.contains(node.id),
    ensures
        outline(node, depth, parent_id, seen) == outlines(
            node.children@,
            depth,
            parent_id,
            with_id(seen, node.id),
        ),
        deepest(node, depth, parent_id, seen) == deepest_of(
            node.children@,
            depth,
            parent_id,
            with_id(seen, node.id),
        ),
{
}

/// No layout of a tree goes deeper than the tree is high.
pub proof fn law_layout_is_no_deeper_than_tree(
    node: FolderTreeNode,
    depth: int,
    parent_id: u64,
    seen: Set<u64>,
)
    ensures
        depth <= deepest(node, depth, parent_id, seen) <= depth + tree_height(node),
    decreases node,
{
    let known = with_id(seen, node.id);
    if is_unnamed_folder(node) {
        lemma_forest_no_deeper(node.children@, depth, parent_id, known);
    } else {
        lemma_forest_no_deeper(node.children@, depth + 1, node.id, known);
    }
}

proof fn lemma_forest_no_deeper(
    trees: Seq<FolderTreeNode>,
    depth: int,
    parent_id: u64,
    seen: Set<u64>,
)
    ensures
        depth <= deepest_of(trees, depth, parent_id, seen),
        trees.len() > 0 ==> deepest_of(trees, depth, parent_id, seen) < depth + forest_height(
            trees,
        ),
    decreases trees,
{
    if trees.len() > 0 {
        let known = outlines(trees.drop_last(), depth, parent_id, seen).1;
        lemma_forest_no_deeper(trees.drop_last(), depth, parent_id, seen);
        law_layout_is_no_deeper_than_tree(trees.last(), depth, parent_id, known);
    }
}

/// Rows stand behind their parents, one level deeper; those at the top have the parent and the
/// depth that the tree was given.
pub proof fn law_rows_stand_behind_parents(
    node: FolderTreeNode,
    depth: int,
    parent_id: u64,
    seen: Set<u64>,
)
    ensures
        rows_hang_together(outline(node, depth, parent_id, seen).0, depth, parent_id),
{
    lemma_outline(node, depth, parent_id, seen);
}

/// A whole tree laid out from the top is a list in which parents stand in front.
pub proof fn law_layout_has_parents_first(node: FolderTreeNode, nodes: Seq<ExplorerNode>)
    requires
        rows(nodes) == outline(node, 0, 0, Set::empty()).0,
    ensures
        parents_first(nodes),
{
    lemma_outline(node, 0, 0, Set::empty());
    let list = rows(nodes);
    assert forall|i: int, j: int|
        0 <= i < nodes.len() && 0 <= j < nodes.len() && i != j && nodes[i].id != 0 implies (
    #[trigger] nodes[i]).id != (#[trigger] nodes[j]).id by {
        assert(list[i].id != list[j].id);
    }
    assert forall|i: int, j: int|
        0 <= i < nodes.len() && 0 <= j < nodes.len() && nodes[i].parent_id != 0 && (
        #[trigger] nodes[j]).id == (#[trigger] nodes[i]).parent_id implies j < i by {
        assert(list[i].parent_id == nodes[i].parent_id);
        let m = choose|m: int|
            0 <= m < i && (#[trigger] list[m]).id == list[i].parent_id && list[m].depth + 1
                == list[i].depth;
        assert(list[m].id == list[i].parent_id);
        if j != m {
            assert(list[j].id == nodes[j].id);
            assert(list[m].id != list[j].id);
        }
    }
}

/// A row that the layout makes: it has a name or is a file, and is visible, collapsed and not
/// selected.
pub open spec fn is_fresh(row: NodeView) -> bool {
    &&& !(row.is_dir && row.name.len() == 0)
    &&& row.is_visible && !row.is_expanded && !row.is_selected
}

/// Folders without a name have no row, and every row starts out visible, collapsed and not
/// selected.
pub proof fn law_rows_are_fresh(
    node: FolderTreeNode,
    depth: int,
    parent_id: u64,
    seen: Set<u64>,
    i: int,
)
    requires
        0 <= i < outline(node, depth, parent_id, seen).0.len(),
    ensures
        is_fresh(outline(node, depth, parent_id, seen).0[i]),
    decreases node,
{
    let known = with_id(seen, node.id);
    if is_unnamed_folder(node) {
        lemma_all_fresh(node.children@, depth, parent_id, known, i);
    } else if i > 0 {
        lemma_all_fresh(node.children@, depth + 1, node.id, known, i - 1);
    }
}

proof fn lemma_all_fresh(
    trees: Seq<FolderTreeNode>,
    depth: int,
    parent_id: u64,
    seen: Set<u64>,
    i: int,
)
    requires
        0 <= i < outlines(trees, depth, parent_id, seen).0.len(),
    ensures
        is_fresh(outlines(trees, depth, parent_id, seen).0[i]),
    decreases trees,
{
    let before = outlines(trees.drop_last(), depth, parent_id, seen);
    if i < before.0.len() {
        lemma_all_fresh(trees.drop_last(), depth, parent_id, seen, i);
    } else {
        law_rows_are_fresh(trees.last(), depth, parent_id, before.1, i - before.0.len());
    }
}

/// The rows have names and different ids, none of them in `seen`.
pub open spec fn all_regular(list: Seq<NodeView>, seen: Set<u64>) -> bool {
    &&& ids_differ(list)
    &&& forall|i: int|
        0 <= i < list.len() ==> !((#[trigger] list[i]).is_dir && list[i].name.len() == 0) && (
        list[i].id != 0 ==> !seen.contains(list[i].id))
}

/// The ids of the rows; 0 is none.
pub open spec fn id_set(list: Seq<NodeView>) -> Set<u64> {
    Set::new(|id: u64| id != 0 && exists|i: int| 0 <= i < list.len() && (#[trigger] list[i]).id == id)
}

proof fn lemma_regular_append(a: Seq<NodeView>, b: Seq<NodeView>, seen: Set<u64>)
    requires
        all_regular(a + b, seen),
    ensures
        all_regular(a, seen),
        all_regular(b, seen.union(id_set(a))),
        id_set(a + b) == id_set(a).union(id_set(b)),
{
    let c = a + b;
    assert forall|i: int| 0 <= i < a.len() implies c[i] == #[trigger] a[i] by {}
    assert forall|i: int| 0 <= i < b.len() implies c[i + a.len()] == #[trigger] b[i] by {}
    assert forall|i: int, j: int|
        0 <= i < a.len() && 0 <= j < a.len() && i != j && a[i].id != 0 implies (
    #[trigger] a[i]).id != (#[trigger] a[j]).id by {
        assert(c[i].id != c[j].id);
    }
    assert forall|i: int, j: int|
        0 <= i < b.len() && 0 <= j < b.len() && i != j && b[i].id != 0 implies (
    #[trigger] b[i]).id != (#[trigger] b[j]).id by {
        assert(c[i + a.len()].id != c[j + a.len()].id);
    }
    assert forall|i: int| 0 <= i < b.len() implies !((#[trigger] b[i]).is_dir && b[i].name.len()
        == 0) && (b[i].id != 0 ==> !seen.union(id_set(a)).contains(b[i].id)) by {
        assert(c[i + a.len()] == b[i]);
        if b[i].id != 0 && id_set(a).contains(b[i].id) {
            let j = choose|j: int| 0 <= j < a.len() && (#[trigger] a[j]).id == b[i].id;
            assert(c[i + a.len()].id != c[j].id);
        }
    }
    assert forall|id: u64| id_set(c).contains(id) == id_set(a).union(id_set(b)).contains(id) by {
        if id_set(c).contains(id) {
            let i = choose|i: int| 0 <= i < c.len() && (#[trigger] c[i]).id == id;
            if i < a.len() {
                assert(a[i].id == id);
            } else {
                assert(b[i - a.len()].id == id);
            }
        }
        if id_set(a).contains(id) {
            let i = choose|i: int| 0 <= i < a.len() && (#[trigger] a[i]).id == id;
            assert(c[i].id == id);
        }
        if id_set(b).contains(id) {
            let i = choose|i: int| 0 <= i < b.len() && (#[trigger] b[i]).id == id;
            assert(c[i + a.len()].id == id);
        }
    }
    assert(id_set(c) =~= id_set(a).union(id_set(b)));
}

/// Where all nodes have names and different ids, none of them laid out before, both ways of
/// laying out a tree give the same rows, and the ids of the rows are known then.
pub proof fn law_layouts_agree(
    node: FolderTreeNode,
    depth: int,
    parent_id: u64,
    seen: Set<u64>,
)
    requires
        all_regular(tree_rows(node, depth, parent_id), seen),
    ensures
        outline(node, depth, parent_id, seen).0 == tree_rows(node, depth, parent_id),
        outline(node, depth, parent_id, seen).1 == seen.union(
            id_set(tree_rows(node, depth, parent_id)),
        ),
{
    lemma_layouts_agree(node, depth, parent_id, seen);
}

proof fn lemma_layouts_agree(node: FolderTreeNode, depth: int, parent_id: u64, seen: Set<u64>)
    requires
        all_regular(tree_rows(node, depth, parent_id), seen),
    ensures
        outline(node, depth, parent_id, seen) == (
            tree_rows(node, depth, parent_id),
            seen.union(id_set(tree_rows(node, depth, parent_id))),
        ),
    decreases node,
{
    let root = seq![row_of(node, depth, parent_id)];
    let below = forest_rows(node.children@, depth + 1, node.id);
    lemma_regular_append(root, below, seen);
    assert(tree_rows(node, depth, parent_id)[0] == root[0]);
    let known = with_id(seen, node.id);
    assert(known =~= seen.union(id_set(root))) by {
        assert forall|id: u64| id_set(root).contains(id) == (id != 0 && id == node.id) by {
            if id != 0 && id == node.id {
                assert(root[0].id == id);
            }
        }
    }
    lemma_forests_agree(node.children@, depth + 1, node.id, known);
    assert(known.union(id_set(below)) =~= seen.union(id_set(root).union(id_set(below))));
}

proof fn lemma_forests_agree(
    trees: Seq<FolderTreeNode>,
    depth: int,
    parent_id: u64,
    seen: Set<u64>,
)
    requires
        all_regular(forest_rows(trees, depth, parent_id), seen),
    ensures
        outlines(trees, depth, parent_id, seen) == (
            forest_rows(trees, depth, parent_id),
            seen.union(id_set(forest_rows(trees, depth, parent_id))),
        ),
    decreases trees,
{
    if trees.len() == 0 {
        assert(seen.union(id_set(Seq::<NodeView>::empty())) =~= seen);
    } else {
        let before = forest_rows(trees.drop_last(), depth, parent_id);
        let last = tree_rows(trees.last(), depth, parent_id);
        lemma_regular_append(before, last, seen);
        lemma_forests_agree(trees.drop_last(), depth, parent_id, seen);
        lemma_layouts_agree(trees.last(), depth, parent_id, seen.union(id_set(before)));
        assert(seen.union(id_set(before)).union(id_set(last)) =~= seen.union(
            id_set(before).union(id_set(last)),
        ));
    }
}

/// The row carries a node of the tree, which is no folder without a name.
pub open spec fn carries_node(row: NodeView, tree: FolderTreeNode, path: Seq<int>) -> bool {
    node_at(tree, path) matches Some(node) && row_shows(row, node) && !(node.is_dir
        && node.name@.len() == 0)
}

proof fn lemma_carries_child(row: NodeView, tree: FolderTreeNode, k: int, path: Seq<int>)
    requires
        0 <= k < tree.children@.len(),
        carries_node(row, tree.children@[k], path),
    ensures
        carries_node(row, tree, seq![k] + path),
{
    assert((seq![k] + path).drop_first() == path);
}

/// Each row of a layout carries a node of the tree unchanged: its id, name, kind, size and tags,
/// and the ids of its children.
pub proof fn law_layout_rows_carry_their_nodes(
    node: FolderTreeNode,
    depth: int,
    parent_id: u64,
    seen: Set<u64>,
    i: int,
)
    requires
        0 <= i < outline(node, depth, parent_id, seen).0.len(),
    ensures
        exists|path: Seq<int>|
            #[trigger] carries_node(outline(node, depth, parent_id, seen).0[i], node, path),
    decreases node,
{
    let row = outline(node, depth, parent_id, seen).0[i];
    let known = with_id(seen, node.id);
    if !is_unnamed_folder(node) && i == 0 {
        assert(carries_node(row, node, Seq::empty()));
    } else {
        let (k, path) = if is_unnamed_folder(node) {
            lemma_layouts_carry(node.children@, depth, parent_id, known, i);
            choose|k: int, path: Seq<int>|
                0 <= k < node.children@.len() && #[trigger] carries_node(
                    row,
                    node.children@[k],
                    path,
                )
        } else {
            lemma_layouts_carry(node.children@, depth + 1, node.id, known, i - 1);
            choose|k: int, path: Seq<int>|
                0 <= k < node.children@.len() && #[trigger] carries_node(
                    row,
                    node.children@[k],
                    path,
                )
        };
        lemma_carries_child(row, node, k, path);
    }
}

proof fn lemma_layouts_carry(
    trees: Seq<FolderTreeNode>,
    depth: int,
    parent_id: u64,
    seen: Set<u64>,
    i: int,
)
    requires
        0 <= i < outlines(trees, depth, parent_id, seen).0.len(),
    ensures
        exists|k: int, path: Seq<int>|
            0 <= k < trees.len() && #[trigger] carries_node(
                outlines(trees, depth, parent_id, seen).0[i],
                trees[k],
                path,
            ),
    decreases trees,
{
    let shorter = trees.drop_last();
    let before = outlines(shorter, depth, parent_id, seen);
    let row = outlines(trees, depth, parent_id, seen).0[i];
    if i < before.0.len() {
        lemma_layouts_carry(shorter, depth, parent_id, seen, i);
        let (k, path) = choose|k: int, path: Seq<int>|
            0 <= k < shorter.len() && #[trigger] carries_node(before.0[i], shorter[k], path);
        assert(trees[k] == shorter[k]);
        assert(carries_node(row, trees[k], path));
    } else {
        let at = i - before.0.len();
        law_layout_rows_carry_their_nodes(trees.last(), depth, parent_id, before.1, at);
        let path = choose|path: Seq<int>|
            #[trigger] carries_node(
                outline(trees.last(), depth, parent_id, before.1).0[at],
                trees.last(),
                path,
            );
        assert(carries_node(row, trees[trees.len() - 1], path));
    }
}

/// A node with a name, or a file, that was not laid out before has the first row, with the depth
/// and the parent that it was given; then come its children in turn, one level deeper below it.
pub proof fn law_root_comes_first(
    node: FolderTreeNode,
    depth: int,
    parent_id: u64,
    seen: Set<u64>,
)
    requires
        node.id == 0 || !seen.contains(node.id),
        !node.is_dir || node.name@.len() > 0,
    ensures
        ({
            let list = outline(node, depth, parent_id, seen).0;
            let known = if node.id != 0 { seen.insert(node.id) } else { seen };
            let below = outlines(node.children@, depth + 1, node.id, known);
            &&& list.len() > 0
            &&& row_shows(list[0], node)
            &&& list[0].depth == depth
            &&& list[0].parent_id == parent_id
            &&& list.skip(1) == below.0
            &&& outline(node, depth, parent_id, seen).1 == below.1
        }),
{
    let list = outline(node, depth, parent_id, seen).0;
    let below = outlines(node.children@, depth + 1, node.id, with_id(seen, node.id));
    assert(list.skip(1) =~= below.0);
}

/// Trees are laid out in turn, each knowing what those in front of it laid out.
pub proof fn law_trees_are_laid_out_in_turn(
    a: Seq<FolderTreeNode>,
    b: Seq<FolderTreeNode>,
    depth: int,
    parent_id: u64,
    seen: Set<u64>,
)
    ensures
        ({
            let first = outlines(a, depth, parent_id, seen);
            let second = outlines(b, depth, parent_id, first.1);
            outlines(a + b, depth, parent_id, seen) == (first.0 + second.0, second.1)
        }),
        a.len() == 1 ==> outlines(a, depth, parent_id, seen) == outline(
            a[0],
            depth,
            parent_id,
            seen,
        ),
        a.len() == 0 ==> outlines(a, depth, parent_id, seen) == (Seq::<NodeView>::empty(), seen),
    decreases b.len(),
{
    let first = outlines(a, depth, parent_id, seen);
    let second = outlines(b, depth, parent_id, first.1);
    if b.len() > 0 {
        assert((a + b).drop_last() == a + b.drop_last());
        assert((a + b).last() == b.last());
        law_trees_are_laid_out_in_turn(a, b.drop_last(), depth, parent_id, seen);
        assert(outlines(a + b, depth, parent_id, seen).0 =~= first.0 + second.0);
    } else {
        assert(a + b == a);
        assert(first.0 + second.0 =~= first.0);
    }
    if a.len() == 1 {
        assert(a.drop_last() == Seq::<FolderTreeNode>::empty());
        assert(outlines(a.drop_last(), depth, parent_id, seen) == (Seq::<NodeView>::empty(), seen));
        assert(outlines(a, depth, parent_id, seen).0 =~= outline(a[0], depth, parent_id, seen).0);
    }
}

proof fn lemma_tree_ids_known(
    trees: Seq<FolderTreeNode>,
    depth: int,
    parent_id: u64,
    seen: Set<u64>,
    k: int,
)
    requires
        0 <= k < trees.len(),
        trees[k].id != 0,
    ensures
        outlines(trees, depth, parent_id, seen).1.contains(trees[k].id),
    decreases trees.len(),
{
    let before = outlines(trees.drop_last(), depth, parent_id, seen);
    lemma_outline(trees.last(), depth, parent_id, before.1);
    if k < trees.len() - 1 {
        lemma_tree_ids_known(trees.drop_last(), depth, parent_id, seen, k);
    }
}

/// Nothing below a row is forgotten: after the layout, the id of each child of each row is known,
/// so the child was laid out then or before.
pub proof fn law_children_of_rows_are_known(
    node: FolderTreeNode,
    depth: int,
    parent_id: u64,
    seen: Set<u64>,
    i: int,
    k: int,
)
    requires
        0 <= i < outline(node, depth, parent_id, seen).0.len(),
        0 <= k < outline(node, depth, parent_id, seen).0[i].child_ids.len(),
        outline(node, depth, parent_id, seen).0[i].child_ids[k] != 0,
    ensures
        outline(node, depth, parent_id, seen).1.contains(
            outline(node, depth, parent_id, seen).0[i].child_ids[k],
        ),
    decreases node,
{
    let known = with_id(seen, node.id);
    if is_unnamed_folder(node) {
        lemma_children_known(node.children@, depth, parent_id, known, i, k);
    } else if i == 0 {
        lemma_tree_ids_known(node.children@, depth + 1, node.id, known, k);
    } else {
        lemma_children_known(node.children@, depth + 1, node.id, known, i - 1, k);
    }
}

proof fn lemma_children_known(
    trees: Seq<FolderTreeNode>,
    depth: int,
    parent_id: u64,
    seen: Set<u64>,
    i: int,
    k: int,
)
    requires
        0 <= i < outlines(trees, depth, parent_id, seen).0.len(),
        0 <= k < outlines(trees, depth, parent_id, seen).0[i].child_ids.len(),
        outlines(trees, depth, parent_id, seen).0[i].child_ids[k] != 0,
    ensures
        outlines(trees, depth, parent_id, seen).1.contains(
            outlines(trees, depth, parent_id, seen).0[i].child_ids[k],
        ),
    decreases trees,
{
    let before = outlines(trees.drop_last(), depth, parent_id, seen);
    lemma_outline(trees.last(), depth, parent_id, before.1);
    if i < before.0.len() {
        lemma_children_known(trees.drop_last(), depth, parent_id, seen, i, k);
    } else {
        law_children_of_rows_are_known(
            trees.last(),
            depth,
            parent_id,
            before.1,
            i - before.0.len(),
            k,
        );
    }
}

/// The id is that of a row, or of a folder without a name in the tree.
pub open spec fn accounted_for(id: u64, list: Seq<NodeView>, tree: FolderTreeNode) -> bool {
    ||| exists|i: int| 0 <= i < list.len() && (#[trigger] list[i]).id == id
    ||| exists|path: Seq<int>|
        (#[trigger] node_at(tree, path) matches Some(node) && node.id == id && node.is_dir
            && node.name@.len() == 0)
}

/// Every id that a layout adds to the known ones is that of one of its rows, or of a folder
/// without a name.
pub proof fn law_known_ids_were_laid_out(
    node: FolderTreeNode,
    depth: int,
    parent_id: u64,
    seen: Set<u64>,
    id: u64,
)
    requires
        outline(node, depth, parent_id, seen).1.contains(id),
        !seen.contains(id),
    ensures
        accounted_for(id, outline(node, depth, parent_id, seen).0, node),
    decreases node,
{
    let list = outline(node, depth, parent_id, seen).0;
    let known = with_id(seen, node.id);
    if id == node.id {
        if is_unnamed_folder(node) {
            assert(node_at(node, Seq::<int>::empty()) == Some(node));
        } else {
            assert(list[0].id == id);
        }
    } else {
        let inner = if is_unnamed_folder(node) {
            outlines(node.children@, depth, parent_id, known).0
        } else {
            outlines(node.children@, depth + 1, node.id, known).0
        };
        let k = if is_unnamed_folder(node) {
            lemma_known_laid_out(node.children@, depth, parent_id, known, id)
        } else {
            lemma_known_laid_out(node.children@, depth + 1, node.id, known, id)
        };
        let child = node.children@[k];
        if exists|i: int| 0 <= i < inner.len() && (#[trigger] inner[i]).id == id {
            let i = choose|i: int| 0 <= i < inner.len() && (#[trigger] inner[i]).id == id;
            if is_unnamed_folder(node) {
                assert(list[i].id == id);
            } else {
                assert(list[i + 1].id == id);
            }
        } else {
            let path = choose|path: Seq<int>|
                (#[trigger] node_at(child, path) matches Some(n) && n.id == id && n.is_dir
                    && n.name@.len() == 0);
            assert((seq![k] + path).drop_first() == path);
            assert(node_at(node, seq![k] + path) == node_at(child, path));
        }
    }
}

proof fn lemma_known_laid_out(
    trees: Seq<FolderTreeNode>,
    depth: int,
    parent_id: u64,
    seen: Set<u64>,
    id: u64,
) -> (k: int)
    requires
        outlines(trees, depth, parent_id, seen).1.contains(id),
        !seen.contains(id),
    ensures
        0 <= k < trees.len(),
        accounted_for(id, outlines(trees, depth, parent_id, seen).0, trees[k]),
    decreases trees,
{
    let shorter = trees.drop_last();
    let before = outlines(shorter, depth, parent_id, seen);
    let last = outline(trees.last(), depth, parent_id, before.1);
    let list = outlines(trees, depth, parent_id, seen).0;
    if before.1.contains(id) {
        let k = lemma_known_laid_out(shorter, depth, parent_id, seen, id);
        assert(trees[k] == shorter[k]);
        if exists|i: int| 0 <= i < before.0.len() && (#[trigger] before.0[i]).id == id {
            let i = choose|i: int| 0 <= i < before.0.len() && (#[trigger] before.0[i]).id == id;
            assert(list[i].id == id);
        }
        k
    } else {
        law_known_ids_were_laid_out(trees.last(), depth, parent_id, before.1, id);
        if exists|i: int| 0 <= i < last.0.len() && (#[trigger] last.0[i]).id == id {
            let i = choose|i: int| 0 <= i < last.0.len() && (#[trigger] last.0[i]).id == id;
            assert(list[before.0.len() + i].id == id);
        }
        trees.len() - 1
    }
}

} // verus!
