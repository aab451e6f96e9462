//! Selecting rows of the explorer for extraction.

use std::collections::HashSet;

use vstd::prelude::*;

use crate::explorer::ExplorerNode;
use crate::visibility::{
    climb, lemma_climb_adds, lemma_climb_in_list, lemma_place_of, parent_place, place_of,
};

verus! {

/// Row `i` is a visible row of the folder: its parent is the folder itself, or a row in front of
/// it that is a visible row of the folder.
pub open spec fn in_folder(nodes: Seq<ExplorerNode>, dir_id: u64, i: int) -> bool
    decreases i,
{
    nodes[i].is_visible && (nodes[i].parent_id == dir_id || exists|j: int|
        0 <= j < i && (#[trigger] nodes[j]).id == nodes[i].parent_id && in_folder(nodes, dir_id, j))
}

/// Row `i` is the folder, or a visible row of it.
pub open spec fn is_member(nodes: Seq<ExplorerNode>, dir_id: u64, i: int) -> bool {
    nodes[i].id == dir_id || in_folder(nodes, dir_id, i)
}

/// The rows with the members of a folder selected or not, and all else as it was.
pub open spec fn with_members(nodes: Seq<ExplorerNode>, dir_id: u64, select: bool) -> Seq<
    ExplorerNode,
> {
    Seq::new(
        nodes.len(),
        |i: int|
            if is_member(nodes, dir_id, i) {
                ExplorerNode { is_selected: select, ..nodes[i] }
            } else {
                nodes[i]
            },
    )
}

/// The rows with the visible ones selected or not, and all else as it was.
pub open spec fn with_visible(nodes: Seq<ExplorerNode>, select: bool) -> Seq<ExplorerNode> {
    nodes.map_values(
        |n: ExplorerNode|
            if n.is_visible {
                ExplorerNode { is_selected: select, ..n }
            } else {
                n
            },
    )
}

/// Selects or deselects a folder and all its visible rows.
pub fn select_visible_folder_members(nodes: &mut [ExplorerNode], dir_id: u64, select: bool)
    ensures
        final(nodes)@ == with_members(old(nodes)@, dir_id, select),
{
    let ghost start = nodes@;
    let mut targets: HashSet<u64> = HashSet::new();
    targets.insert(dir_id);
    let mut i: usize = 0;
    while i < nodes.len()
        invariant
            i <= nodes@.len(),
            nodes@.len() == start.len(),
            forall|id: u64|
                #[trigger] targets@.contains(id) <==> (id == dir_id || exists|j: int|
                    0 <= j < i && (#[trigger] start[j]).id == id && in_folder(start, dir_id, j)),
            forall|k: int|
                0 <= k < i ==> #[trigger] nodes@[k] == with_members(start, dir_id, select)[k],
            forall|k: int| i <= k < start.len() ==> #[trigger] nodes@[k] == start[k],
        decreases nodes.len() - i,
    {
        let ghost before = targets@;
        let id: u64 = nodes[i].id;
        let parent_id: u64 = nodes[i].parent_id;
        let inside = targets.contains(&parent_id) && nodes[i].is_visible;
        assert(inside == in_folder(start, dir_id, i as int));
        if inside {
            targets.insert(id);
            nodes[i].is_selected = select;
        }
        if id == dir_id {
            nodes[i].is_selected = select;
        }
        proof {
            assert forall|t: u64|
                #[trigger] targets@.contains(t) <==> (t == dir_id || exists|j: int|
                    0 <= j < i + 1 && (#[trigger] start[j]).id == t && in_folder(
                        start,
                        dir_id,
                        j,
                    )) by {
                assert(before.contains(t) <==> (t == dir_id || exists|j: int|
                    0 <= j < i && (#[trigger] start[j]).id == t && in_folder(start, dir_id, j)));
                if inside && t == id {
                    assert(start[i as int].id == t && in_folder(start, dir_id, i as int));
                }
            }
        }
        i = i + 1;
    }
    assert(nodes@ == with_members(start, dir_id, select));
}

/// Selects or deselects every visible row.
pub fn select_all_visible_rows(nodes: &mut [ExplorerNode], select: bool)
    ensures
        final(nodes)@ == with_visible(old(nodes)@, select),
{
    let ghost start = nodes@;
    let mut i: usize = 0;
    while i < nodes.len()
        invariant
            i <= nodes@.len(),
            nodes@.len() == start.len(),
            forall|k: int| 0 <= k < i ==> #[trigger] nodes@[k] == with_visible(start, select)[k],
            forall|k: int| i <= k < start.len() ==> #[trigger] nodes@[k] == start[k],
        decreases nodes.len() - i,
    {
        if nodes[i].is_visible {
            nodes[i].is_selected = select;
        }
        i = i + 1;
    }
    assert(nodes@ == with_visible(start, select));
}

/// The ids of the selected files, in the order of the rows.
pub open spec fn chosen_files(nodes: Seq<ExplorerNode>) -> Seq<u64>
    decreases nodes.len(),
{
    if nodes.len() == 0 {
        Seq::empty()
    } else {
        let before = chosen_files(nodes.drop_last());
        if !nodes.last().is_dir && nodes.last().is_selected {
            before.push(nodes.last().id)
        } else {
            before
        }
    }
}

/// The ids of the selected files, in the order of the rows.
pub fn selected_file_ids(nodes: &[ExplorerNode]) -> (ids: Vec<u64>)
    ensures
        ids@ == chosen_files(nodes@),
{
    let mut ids: Vec<u64> = Vec::new();
    let mut i: usize = 0;
    assert(nodes@.take(0) == Seq::<ExplorerNode>::empty());
    while i < nodes.len()
        invariant
            i <= nodes@.len(),
            ids@ == chosen_files(nodes@.take(i as int)),
        decreases nodes.len() - i,
    {
        assert(nodes@.take(i + 1).drop_last() == nodes@.take(i as int));
        if !nodes[i].is_dir && nodes[i].is_selected {
            ids.push(nodes[i].id);
        }
        i = i + 1;
    }
    assert(nodes@.take(i as int) == nodes@);
    ids
}

/// An id is chosen exactly if it is that of a selected file.
pub proof fn law_chosen_are_selected_files(nodes: Seq<ExplorerNode>, id: u64)
    ensures
        chosen_files(nodes).contains(id) <==> exists|i: int|
            0 <= i < nodes.len() && (#[trigger] nodes[i]).id == id && !nodes[i].is_dir
                && nodes[i].is_selected,
    decreases nodes.len(),
{
    if nodes.len() > 0 {
        let shorter = nodes.drop_last();
        let last = nodes.last();
        law_chosen_are_selected_files(shorter, id);
        let before = chosen_files(shorter);
        assert(before.push(last.id)[before.len() as int] == last.id);
        if before.contains(id) {
            let k = choose|k: int| 0 <= k < before.len() && before[k] == id;
            assert(before.push(last.id)[k] == id);
            let i = choose|i: int|
                0 <= i < shorter.len() && (#[trigger] shorter[i]).id == id && !shorter[i].is_dir
                    && shorter[i].is_selected;
            assert(nodes[i] == shorter[i]);
        }
        if exists|i: int|
            0 <= i < nodes.len() && (#[trigger] nodes[i]).id == id && !nodes[i].is_dir
                && nodes[i].is_selected {
            let i = choose|i: int|
                0 <= i < nodes.len() && (#[trigger] nodes[i]).id == id && !nodes[i].is_dir
                    && nodes[i].is_selected;
            if i < shorter.len() {
                assert(shorter[i] == nodes[i]);
            } else {
                assert(nodes[i] == last);
            }
        }
    }
}

proof fn lemma_in_folder_ignores_selection(
    a: Seq<ExplorerNode>,
    b: Seq<ExplorerNode>,
    dir_id: u64,
    i: int,
)
    requires
        a.len() == b.len(),
        0 <= i < a.len(),
        forall|k: int|
            0 <= k < a.len() ==> (#[trigger] a[k]).id == b[k].id && a[k].parent_id == b[k].parent_id
                && a[k].is_visible == b[k].is_visible,
    ensures
        in_folder(a, dir_id, i) == in_folder(b, dir_id, i),
    decreases i,
{
    assert(a[i].id == b[i].id);
    assert forall|j: int| 0 <= j < i implies in_folder(a, dir_id, j) == in_folder(b, dir_id, j) && (
    #[trigger] a[j]).id == (#[trigger] b[j]).id by {
        lemma_in_folder_ignores_selection(a, b, dir_id, j);
    }
    if in_folder(a, dir_id, i) && a[i].parent_id != dir_id {
        let j = choose|j: int|
            0 <= j < i && (#[trigger] a[j]).id == a[i].parent_id && in_folder(a, dir_id, j);
        assert(b[j].id == b[i].parent_id && in_folder(b, dir_id, j));
    }
    if in_folder(b, dir_id, i) && b[i].parent_id != dir_id {
        let j = choose|j: int|
            0 <= j < i && (#[trigger] b[j]).id == b[i].parent_id && in_folder(b, dir_id, j);
        assert(a[j].id == a[i].parent_id && in_folder(a, dir_id, j));
    }
}

/// Of two selections of the same folder the later one counts.
pub proof fn law_last_folder_selection_counts(
    nodes: Seq<ExplorerNode>,
    dir_id: u64,
    first: bool,
    second: bool,
)
    ensures
        with_members(with_members(nodes, dir_id, first), dir_id, second) == with_members(
            nodes,
            dir_id,
            second,
        ),
{
    let once = with_members(nodes, dir_id, first);
    assert forall|i: int| 0 <= i < nodes.len() implies is_member(once, dir_id, i) == is_member(
        nodes,
        dir_id,
        i,
    ) by {
        lemma_in_folder_ignores_selection(once, nodes, dir_id, i);
    }
    assert(with_members(once, dir_id, second) == with_members(nodes, dir_id, second));
}

/// Of two selections of all visible rows the later one counts.
pub proof fn law_last_selection_of_all_counts(
    nodes: Seq<ExplorerNode>,
    first: bool,
    second: bool,
)
    ensures
        with_visible(with_visible(nodes, first), second) == with_visible(nodes, second),
{
}

/// Selecting all visible rows leaves the hidden ones as they were, and of the visible ones none
/// out.
pub proof fn law_select_all(nodes: Seq<ExplorerNode>, select: bool, i: int)
    requires
        0 <= i < nodes.len(),
    ensures
        nodes[i].is_visible ==> with_visible(nodes, select)[i].is_selected == select,
        !nodes[i].is_visible ==> with_visible(nodes, select)[i] == nodes[i],
{
}

/// No row stands in front of its parent, and no two rows have the same id. The id 0 stands for
/// no identity, and as that of a parent for none.
pub open spec fn parents_first(nodes: Seq<ExplorerNode>) -> bool {
    &&& forall|i: int, j: int|
        0 <= i < nodes.len() && 0 <= j < nodes.len() && nodes[i].parent_id != 0 && (
        #[trigger] nodes[j]).id == (#[trigger] nodes[i]).parent_id ==> j < i
    &&& forall|i: int, j: int|
        0 <= i < nodes.len() && 0 <= j < nodes.len() && i != j && nodes[i].id != 0 ==> (
        #[trigger] nodes[i]).id != (#[trigger] nodes[j]).id
}

/// Row `i` is `k` levels below `top`, and it and all rows between the two are visible.
pub open spec fn visibly_below(nodes: Seq<ExplorerNode>, top: int, i: int, k: nat) -> bool {
    &&& k >= 1
    &&& climb(nodes, i, k) == Some(top)
    &&& forall|m: nat|
        m < k ==> (#[trigger] climb(nodes, i, m) matches Some(r) && nodes[r].is_visible)
}

proof fn lemma_place(nodes: Seq<ExplorerNode>, p: int)
    requires
        0 <= p < nodes.len(),
        forall|i: int| 0 <= i < nodes.len() && i != p ==> (#[trigger] nodes[i]).id != nodes[p].id,
    ensures
        place_of(nodes, nodes[p].id) == Some(p),
    decreases nodes.len(),
{
    if p < nodes.len() - 1 {
        let shorter = nodes.drop_last();
        assert(nodes[nodes.len() - 1].id != nodes[p].id);
        assert(shorter[p] == nodes[p]);
        assert forall|i: int| 0 <= i < shorter.len() && i != p implies (#[trigger] shorter[i]).id
            != shorter[p].id by {
            assert(nodes[i].id != nodes[p].id);
        }
        lemma_place(shorter, p);
    }
}

/// In a list where parents stand in front, what is selected with a folder is the folder and what
/// is visible below it, down to where something is hidden. (A row without a parent is no child of
/// a row without an identity.)
pub proof fn law_members_are_visible_descendants(nodes: Seq<ExplorerNode>, top: int, i: int)
    requires
        parents_first(nodes),
        0 <= top < nodes.len(),
        0 <= i < nodes.len(),
        forall|r: int, j: int|
            0 <= r < nodes.len() && 0 <= j < nodes.len() && (#[trigger] nodes[r]).is_visible
                && nodes[r].parent_id == 0 && (j == top || (j < r && in_folder(
                nodes,
                nodes[top].id,
                j,
            ))) ==> (#[trigger] nodes[j]).id != 0,
    ensures
        in_folder(nodes, nodes[top].id, i) <==> exists|k: nat| visibly_below(nodes, top, i, k),
    decreases i,
{
    let dir_id = nodes[top].id;
    if in_folder(nodes, dir_id, i) {
        if nodes[i].parent_id == dir_id {
            assert(dir_id != 0) by {
                if dir_id == 0 {
                    assert(nodes[i].is_visible && nodes[top].id == 0);
                }
            }
            lemma_place(nodes, top);
            assert(climb(nodes, i, 0) == Some(i));
            assert(climb(nodes, i, 1) == Some(top));
            assert(visibly_below(nodes, top, i, 1));
        } else {
            let j = choose|j: int|
                0 <= j < i && (#[trigger] nodes[j]).id == nodes[i].parent_id && in_folder(
                    nodes,
                    dir_id,
                    j,
                );
            law_members_are_visible_descendants(nodes, top, j);
            let k = choose|k: nat| visibly_below(nodes, top, j, k);
            assert(nodes[j].id != 0) by {
                if nodes[j].id == 0 {
                    assert(nodes[i].is_visible && nodes[i].parent_id == 0);
                }
            }
            lemma_place(nodes, j);
            assert(climb(nodes, i, 0) == Some(i));
            assert(climb(nodes, i, 1) == Some(j));
            lemma_climb_adds(nodes, i, 1, k);
            assert forall|m: nat| m < k + 1 implies (#[trigger] climb(nodes, i, m) matches Some(r)
                && nodes[r].is_visible) by {
                if m > 0 {
                    lemma_climb_adds(nodes, i, 1, (m - 1) as nat);
                    assert(climb(nodes, j, (m - 1) as nat) is Some);
                }
            }
            assert(visibly_below(nodes, top, i, k + 1));
        }
    }
    if exists|k: nat| visibly_below(nodes, top, i, k) {
        let k = choose|k: nat| visibly_below(nodes, top, i, k);
        assert(climb(nodes, i, 0) == Some(i));
        assert(nodes[i].is_visible);
        lemma_climb_adds(nodes, i, 1, (k - 1) as nat);
        lemma_climb_in_list(nodes, i, 1);
        assert(climb(nodes, i, 1) == parent_place(nodes, i));
        let j = parent_place(nodes, i)->0;
        lemma_place_of(nodes, nodes[i].parent_id);
        assert(nodes[j].id == nodes[i].parent_id);
        assert(j < i);
        if k > 1 {
            assert forall|m: nat| m < k - 1 implies (#[trigger] climb(nodes, j, m) matches Some(r)
                && nodes[r].is_visible) by {
                lemma_climb_adds(nodes, i, 1, m);
                assert(climb(nodes, i, 1 + m) is Some);
            }
            assert(visibly_below(nodes, top, j, (k - 1) as nat));
            law_members_are_visible_descendants(nodes, top, j);
            assert(in_folder(nodes, dir_id, j));
        } else {
            assert(j == top);
        }
    }
}

/// In a list where parents stand in front, checking the box of a folder sets the folder and what
/// is visibly below it, and changes no other row.
pub proof fn law_folder_box_sets_what_is_below(
    nodes: Seq<ExplorerNode>,
    top: int,
    i: int,
    select: bool,
)
    requires
        parents_first(nodes),
        0 <= top < nodes.len(),
        0 <= i < nodes.len(),
        nodes[top].id != 0,
        forall|r: int, j: int|
            0 <= r < nodes.len() && 0 <= j < nodes.len() && (#[trigger] nodes[r]).is_visible
                && nodes[r].parent_id == 0 && j < r && in_folder(nodes, nodes[top].id, j) ==> (
            #[trigger] nodes[j]).id != 0,
    ensures
        with_members(nodes, nodes[top].id, select).len() == nodes.len(),
        i == top || (exists|k: nat| visibly_below(nodes, top, i, k)) ==> with_members(
            nodes,
            nodes[top].id,
            select,
        )[i] == (ExplorerNode { is_selected: select, ..nodes[i] }),
        i != top && !(exists|k: nat| visibly_below(nodes, top, i, k)) ==> with_members(
            nodes,
            nodes[top].id,
            select,
        )[i] == nodes[i],
{
    law_members_are_visible_descendants(nodes, top, i);
    if i != top {
        assert(nodes[top].id != nodes[i].id);
    }
}

/// In any list, checking the box of a folder sets the folder itself and its visible children, and
/// of the rows that are hidden none but the folder.
pub proof fn law_folder_box_sets_visible_children(
    nodes: Seq<ExplorerNode>,
    dir_id: u64,
    i: int,
    select: bool,
)
    requires
        0 <= i < nodes.len(),
    ensures
        nodes[i].id == dir_id ==> with_members(nodes, dir_id, select)[i].is_selected == select,
        nodes[i].is_visible && nodes[i].parent_id == dir_id ==> with_members(
            nodes,
            dir_id,
            select,
        )[i].is_selected == select,
        !nodes[i].is_visible && nodes[i].id != dir_id ==> with_members(nodes, dir_id, select)[i]
            == nodes[i],
{
}

/// The files to extract are those of the rows that are selected and no folders, in order.
pub proof fn law_files_to_extract_are_in_order(nodes: Seq<ExplorerNode>)
    ensures
        chosen_files(nodes) == nodes.filter(
            |n: ExplorerNode| !n.is_dir && n.is_selected,
        ).map_values(|n: ExplorerNode| n.id),
    decreases nodes.len(),
{
    reveal(Seq::filter);
    let wanted = |n: ExplorerNode| !n.is_dir && n.is_selected;
    let id = |n: ExplorerNode| n.id;
    if nodes.len() > 0 {
        law_files_to_extract_are_in_order(nodes.drop_last());
        let before = nodes.drop_last().filter(wanted);
        assert(before.push(nodes.last()).map_values(id) =~= before.map_values(id).push(
            nodes.last().id,
        ));
    }
    assert(chosen_files(nodes) =~= nodes.filter(wanted).map_values(id));
}

} // verus!
