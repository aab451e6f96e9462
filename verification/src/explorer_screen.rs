//! The screen on which the files of a release are browsed: its rows, the search, the language
//! filter, and what is expanded and selected.

use std::collections::HashSet;

use vstd::prelude::*;

use crate::catalog_screen::{pill_views, FilterPill};
use crate::explorer::{rows, ExplorerNode, FolderTreeNode};
use crate::number::{decimal, decimal_text, format_size, parse, parsed, size_text};
use crate::selection::{
    chosen_files, parents_first, select_all_visible_rows, select_visible_folder_members, selected_file_ids,
    with_members, with_visible,
};
use crate::text::same_text;
use crate::tree::{deepest, flatten_explorer_tree, outline};
use crate::visibility::{
    filter_of, tags_fit, tags_in_range, update_explorer_visibility, with_visibility, Filter,
};

verus! {

/// A language tag of a release.
pub struct LocaleTag {
    pub id: u8,
    pub name: Option<String>,
}

impl LocaleTag {
    /// The name of the tag; without one, the empty text.
    pub open spec fn label(self) -> Seq<char> {
        match self.name {
            Some(n) => n@,
            None => Seq::empty(),
        }
    }
}

/// The first tag that is called `name`.
pub open spec fn tag_called(tags: Seq<LocaleTag>, name: Seq<char>) -> Option<u8>
    decreases tags.len(),
{
    if tags.len() == 0 {
        None
    } else {
        match tag_called(tags.drop_last(), name) {
            Some(id) => Some(id),
            None => if tags.last().label() == name {
                Some(tags.last().id)
            } else {
                None
            },
        }
    }
}

/// The tags chosen after the tag called `name` was clicked; a name that no tag has changes none.
pub open spec fn tags_after_click(
    tags: Seq<LocaleTag>,
    chosen: Set<u8>,
    name: Seq<char>,
) -> Set<u8> {
    match tag_called(tags, name) {
        Some(id) => if chosen.contains(id) {
            chosen.remove(id)
        } else {
            chosen.insert(id)
        },
        None => chosen,
    }
}

/// The tags chosen, and whether untagged files are asked for, after the pill called `name` was
/// clicked.
pub open spec fn languages_after_click(
    tags: Seq<LocaleTag>,
    chosen: Set<u8>,
    untagged: bool,
    name: Seq<char>,
) -> (Set<u8>, bool) {
    if name == "none"@ {
        (chosen, !untagged)
    } else {
        (tags_after_click(tags, chosen, name), untagged)
    }
}

/// The pills of the tags that have names.
pub open spec fn tag_pills(tags: Seq<LocaleTag>, chosen: Set<u8>) -> Seq<(Seq<char>, bool)>
    decreases tags.len(),
{
    if tags.len() == 0 {
        Seq::empty()
    } else {
        let before = tag_pills(tags.drop_last(), chosen);
        match tags.last().name {
            Some(n) => before.push((n@, chosen.contains(tags.last().id))),
            None => before,
        }
    }
}

/// The pills of the language filter: one for files without tags, and those of the tags.
pub open spec fn language_pills_of(tags: Seq<LocaleTag>, chosen: Set<u8>, untagged: bool) -> Seq<
    (Seq<char>, bool),
> {
    seq![("none"@, untagged)] + tag_pills(tags, chosen)
}

/// A visible row as the screen draws it.
pub struct ExplorerRow {
    pub id: String,
    pub name: String,
    pub is_dir: bool,
    pub depth: i32,
    pub is_expanded: bool,
    pub is_selected: bool,
    pub size_str: String,
}

/// What a drawn row says.
pub struct RowView {
    pub id: Seq<char>,
    pub name: Seq<char>,
    pub is_dir: bool,
    pub depth: i32,
    pub is_expanded: bool,
    pub is_selected: bool,
    pub size_str: Seq<char>,
}

impl View for ExplorerRow {
    type V = RowView;

    open spec fn view(&self) -> RowView {
        RowView {
            id: self.id@,
            name: self.name@,
            is_dir: self.is_dir,
            depth: self.depth,
            is_expanded: self.is_expanded,
            is_selected: self.is_selected,
            size_str: self.size_str@,
        }
    }
}

/// What drawn rows say.
pub open spec fn row_views(drawn: Seq<ExplorerRow>) -> Seq<RowView> {
    drawn.map_values(|r: ExplorerRow| r@)
}

/// How a row is drawn: the id in decimal digits, the size for display.
pub open spec fn drawn(node: ExplorerNode) -> RowView {
    RowView {
        id: decimal_text(node.id as nat),
        name: node.name@,
        is_dir: node.is_dir,
        depth: node.depth as i32,
        is_expanded: node.is_expanded,
        is_selected: node.is_selected,
        size_str: size_text(node.size as nat),
    }
}

/// The drawn rows: the visible ones, in order.
pub open spec fn visible_rows(nodes: Seq<ExplorerNode>) -> Seq<RowView>
    decreases nodes.len(),
{
    if nodes.len() == 0 {
        Seq::empty()
    } else {
        let before = visible_rows(nodes.drop_last());
        if nodes.last().is_visible {
            before.push(drawn(nodes.last()))
        } else {
            before
        }
    }
}

/// The place of the first row with the given id.
pub open spec fn first_place(nodes: Seq<ExplorerNode>, id: u64) -> Option<int>
    decreases nodes.len(),
{
    if nodes.len() == 0 {
        None
    } else {
        match first_place(nodes.drop_last(), id) {
            Some(p) => Some(p),
            None => if nodes.last().id == id {
                Some(nodes.len() - 1)
            } else {
                None
            },
        }
    }
}

/// The id that a text of decimal digits names; 0 for anything else.
pub open spec fn row_id(text: Seq<char>) -> u64 {
    match parsed(text, 10) {
        Some(n) => n,
        None => 0,
    }
}

/// The rows with the first row of an id expanded if it was collapsed, and collapsed if it was
/// expanded.
pub open spec fn with_expansion_toggled(nodes: Seq<ExplorerNode>, id: u64) -> Seq<ExplorerNode> {
    match first_place(nodes, id) {
        Some(p) => nodes.update(
            p,
            ExplorerNode { is_expanded: !nodes[p].is_expanded, ..nodes[p] },
        ),
        None => nodes,
    }
}

/// The rows with the first row of an id selected or not, and with it, if it is a folder, its
/// visible rows.
pub open spec fn with_row_selected(nodes: Seq<ExplorerNode>, id: u64, select: bool) -> Seq<
    ExplorerNode,
> {
    match first_place(nodes, id) {
        Some(p) => if nodes[p].is_dir {
            with_members(nodes, id, select)
        } else {
            nodes.update(p, ExplorerNode { is_selected: select, ..nodes[p] })
        },
        None => nodes,
    }
}

proof fn lemma_first_place(nodes: Seq<ExplorerNode>, id: u64)
    ensures
        match first_place(nodes, id) {
            Some(p) => {
                &&& 0 <= p < nodes.len()
                &&& nodes[p].id == id
                &&& forall|q: int| 0 <= q < p ==> (#[trigger] nodes[q]).id != id
            },
            None => forall|q: int| 0 <= q < nodes.len() ==> (#[trigger] nodes[q]).id != id,
        },
    decreases nodes.len(),
{
    if nodes.len() > 0 {
        let shorter = nodes.drop_last();
        lemma_first_place(shorter, id);
        assert forall|q: int|
            0 <= q < nodes.len() && (first_place(nodes, id) matches Some(p) ==> q < p) implies (
        #[trigger] nodes[q]).id != id by {
            if q < shorter.len() {
                assert(shorter[q] == nodes[q]);
            }
        }
    }
}

/// The place of the first row with the given id.
fn find_row(nodes: &Vec<ExplorerNode>, id: u64) -> (res: Option<usize>)
    ensures
        match res {
            Some(p) => first_place(nodes@, id) == Some(p as int) && p < nodes@.len(),
            None => first_place(nodes@, id) is None,
        },
{
    proof {
        lemma_first_place(nodes@, id);
    }
    let mut i: usize = 0;
    while i < nodes.len()
        invariant
            i <= nodes@.len(),
            forall|q: int| 0 <= q < i ==> (#[trigger] nodes@[q]).id != id,
            first_place(nodes@, id) matches Some(p) ==> 0 <= p < nodes@.len() && nodes@[p].id == id
                && forall|q: int| 0 <= q < p ==> (#[trigger] nodes@[q]).id != id,
            first_place(nodes@, id) is None ==> forall|q: int|
                0 <= q < nodes@.len() ==> (#[trigger] nodes@[q]).id != id,
        decreases nodes.len() - i,
    {
        if nodes[i].id == id {
            assert(nodes@[i as int].id == id);
            return Some(i);
        }
        i = i + 1;
    }
    None
}

/// The state of the screen.
pub struct ExplorerScreen {
    pub nodes: Vec<ExplorerNode>,
    pub search: String,
    pub is_regex: bool,
    pub selected_tags: HashSet<u8>,
    pub none_tag: bool,
    pub tags: Vec<LocaleTag>,
}

impl ExplorerScreen {
    /// What decides which rows are shown.
    pub open spec fn filter(self) -> Filter {
        filter_of(
            self.nodes@,
            self.search@,
            self.is_regex,
            self.selected_tags@,
            self.none_tag,
        )
    }

    /// The screen before a release is opened.
    pub fn new() -> (res: Self)
        ensures
            res.nodes@.len() == 0,
            res.search@.len() == 0,
            !res.is_regex,
            res.selected_tags@ == Set::<u8>::empty(),
            !res.none_tag,
            res.tags@.len() == 0,
    {
        ExplorerScreen {
            nodes: Vec::new(),
            search: String::new(),
            is_regex: false,
            selected_tags: HashSet::new(),
            none_tag: false,
            tags: Vec::new(),
        }
    }

    /// Opens a release: its tree is laid out, and nothing is searched or filtered for.
    pub fn open(&mut self, tree: &FolderTreeNode, tags: Vec<LocaleTag>)
        requires
            deepest(*tree, 0, 0, Set::empty()) <= usize::MAX,
        ensures
            rows(final(self).nodes@) == outline(*tree, 0, 0, Set::empty()).0,
            final(self).search@.len() == 0,
            !final(self).is_regex,
            final(self).selected_tags@ == Set::<u8>::empty(),
            !final(self).none_tag,
            final(self).tags == tags,
    {
        let mut nodes: Vec<ExplorerNode> = Vec::new();
        let mut seen: HashSet<u64> = HashSet::new();
        assert(rows(nodes@) == Seq::<crate::explorer::NodeView>::empty());
        flatten_explorer_tree(tree, 0, 0, &mut nodes, &mut seen);
        self.nodes = nodes;
        self.search = String::new();
        self.is_regex = false;
        self.selected_tags = HashSet::new();
        self.none_tag = false;
        self.tags = tags;
    }

    /// Sets which rows are shown under the search and the language filter.
    pub fn run_visibility_update(&mut self)
        requires
            tags_fit(old(self).nodes@, old(self).selected_tags@),
        ensures
            final(self).nodes@ == with_visibility(old(self).nodes@, old(self).filter()),
            *final(self) == (ExplorerScreen { nodes: final(self).nodes, ..*old(self) }),
    {
        update_explorer_visibility(
            self.nodes.as_mut_slice(),
            self.search.as_str(),
            self.is_regex,
            &self.selected_tags,
            self.none_tag,
        );
    }

    /// Whether which rows are shown can be set: no tag is chosen that has no bit in a mask.
    pub fn can_update_visibility(&self) -> (res: bool)
        ensures
            res == tags_fit(self.nodes@, self.selected_tags@),
    {
        tags_in_range(self.nodes.as_slice(), &self.selected_tags)
    }

    /// Changes what is searched for.
    pub fn set_search(&mut self, text: &str)
        ensures
            final(self).search@ == text@,
            *final(self) == (ExplorerScreen { search: final(self).search, ..*old(self) }),
    {
        self.search = text.to_owned();
    }

    /// Searches for regular expressions if it did not, and for plain text if it did; returns
    /// which.
    pub fn toggle_regex(&mut self) -> (now: bool)
        ensures
            now == !old(self).is_regex,
            *final(self) == (ExplorerScreen { is_regex: now, ..*old(self) }),
    {
        self.is_regex = !self.is_regex;
        self.is_regex
    }

    /// A pill of the language filter was clicked.
    pub fn toggle_language(&mut self, name: &str)
        ensures
            (final(self).selected_tags@, final(self).none_tag) == languages_after_click(
                old(self).tags@,
                old(self).selected_tags@,
                old(self).none_tag,
                name@,
            ),
            *final(self) == (ExplorerScreen {
                none_tag: final(self).none_tag,
                selected_tags: final(self).selected_tags,
                ..*old(self)
            }),
    {
        if same_text(name, "none") {
            self.none_tag = !self.none_tag;
            return ;
        }
        let id = match find_tag(&self.tags, name) {
            Some(id) => id,
            None => {
                return ;
            },
        };
        if self.selected_tags.contains(&id) {
            self.selected_tags.remove(&id);
        } else {
            self.selected_tags.insert(id);
        }
    }

    /// The pills of the language filter.
    pub fn language_pills(&self) -> (pills: Vec<FilterPill>)
        ensures
            pill_views(pills@) == language_pills_of(
                self.tags@,
                self.selected_tags@,
                self.none_tag,
            ),
    {
        let mut pills: Vec<FilterPill> = Vec::new();
        pills.push(FilterPill { name: "none".to_owned(), selected: self.none_tag });
        let mut i: usize = 0;
        assert(self.tags@.take(0) == Seq::<LocaleTag>::empty());
        assert(pill_views(pills@) == language_pills_of(
            self.tags@.take(0),
            self.selected_tags@,
            self.none_tag,
        ));
        while i < self.tags.len()
            invariant
                i <= self.tags@.len(),
                pill_views(pills@) == language_pills_of(
                    self.tags@.take(i as int),
                    self.selected_tags@,
                    self.none_tag,
                ),
            decreases self.tags.len() - i,
        {
            assert(self.tags@.take(i + 1).drop_last() == self.tags@.take(i as int));
            let ghost before = pill_views(pills@);
            if let Some(name) = &self.tags[i].name {
                let pill = FilterPill {
                    name: name.clone(),
                    selected: self.selected_tags.contains(&self.tags[i].id),
                };
                pills.push(pill);
                assert(pill_views(pills@) == before.push((pill.name@, pill.selected)));
            }
            assert(pill_views(pills@) == language_pills_of(
                self.tags@.take(i + 1),
                self.selected_tags@,
                self.none_tag,
            ));
            i = i + 1;
        }
        assert(self.tags@.take(i as int) == self.tags@);
        pills
    }

    /// The folder with the id that the text names was clicked.
    pub fn toggle_expansion(&mut self, id_text: &str)
        ensures
            final(self).nodes@ == with_expansion_toggled(old(self).nodes@, row_id(id_text@)),
            *final(self) == (ExplorerScreen { nodes: final(self).nodes, ..*old(self) }),
    {
        let id = parse_row_id(id_text);
        if let Some(p) = find_row(&self.nodes, id) {
            let expanded = self.nodes[p].is_expanded;
            self.nodes[p].is_expanded = !expanded;
        }
    }

    /// The box of the row with the id that the text names was checked or unchecked.
    pub fn toggle_selection(&mut self, id_text: &str, select: bool)
        ensures
            final(self).nodes@ == with_row_selected(old(self).nodes@, row_id(id_text@), select),
            *final(self) == (ExplorerScreen { nodes: final(self).nodes, ..*old(self) }),
    {
        let id = parse_row_id(id_text);
        if let Some(p) = find_row(&self.nodes, id) {
            if self.nodes[p].is_dir {
                select_visible_folder_members(self.nodes.as_mut_slice(), id, select);
            } else {
                self.nodes[p].is_selected = select;
            }
        }
    }

    /// All visible rows are selected or deselected.
    pub fn select_all(&mut self, select: bool)
        ensures
            final(self).nodes@ == with_visible(old(self).nodes@, select),
            *final(self) == (ExplorerScreen { nodes: final(self).nodes, ..*old(self) }),
    {
        select_all_visible_rows(self.nodes.as_mut_slice(), select);
    }

    /// The ids of the files to extract.
    pub fn files_to_extract(&self) -> (ids: Vec<u64>)
        ensures
            ids@ == chosen_files(self.nodes@),
    {
        selected_file_ids(self.nodes.as_slice())
    }

    /// The rows as the screen draws them.
    pub fn drawn_rows(&self) -> (res: Vec<ExplorerRow>)
        ensures
            row_views(res@) == visible_rows(self.nodes@),
    {
        let mut res: Vec<ExplorerRow> = Vec::new();
        let mut i: usize = 0;
        assert(self.nodes@.take(0) == Seq::<ExplorerNode>::empty());
        assert(row_views(res@) == visible_rows(self.nodes@.take(0)));
        while i < self.nodes.len()
            invariant
                i <= self.nodes@.len(),
                row_views(res@) == visible_rows(self.nodes@.take(i as int)),
            decreases self.nodes.len() - i,
        {
            assert(self.nodes@.take(i + 1).drop_last() == self.nodes@.take(i as int));
            let ghost before = row_views(res@);
            let node = &self.nodes[i];
            if node.is_visible {
                let row = ExplorerRow {
                    id: decimal(node.id),
                    name: node.name.clone(),
                    is_dir: node.is_dir,
                    depth: #[verifier::truncate]
                    (node.depth as i32),
                    is_expanded: node.is_expanded,
                    is_selected: node.is_selected,
                    size_str: format_size(node.size),
                };
                assert(row@ == drawn(*node));
                res.push(row);
                assert(row_views(res@) == before.push(row@));
            }
            i = i + 1;
        }
        assert(self.nodes@.take(i as int) == self.nodes@);
        res
    }
}

/// The id that a text of decimal digits names; 0 for anything else.
pub fn parse_row_id(text: &str) -> (id: u64)
    ensures
        id == row_id(text@),
{
    match parse(text, 10) {
        Some(n) => n,
        None => 0,
    }
}

/// The first tag that is called `name`.
fn find_tag(tags: &Vec<LocaleTag>, name: &str) -> (res: Option<u8>)
    ensures
        res == tag_called(tags@, name@),
{
    let mut i: usize = 0;
    assert(tags@.take(0) == Seq::<LocaleTag>::empty());
    while i < tags.len()
        invariant
            i <= tags@.len(),
            tag_called(tags@.take(i as int), name@) is None,
        decreases tags.len() - i,
    {
        assert(tags@.take(i + 1).drop_last() == tags@.take(i as int));
        let called = match &tags[i].name {
            Some(n) => same_text(n.as_str(), name),
            None => {
                assert(name@.len() == 0 ==> name@ == Seq::<char>::empty());
                name.is_empty()
            },
        };
        if called {
            proof {
                lemma_tag_found(tags@, i + 1, name@);
            }
            return Some(tags[i].id);
        }
        i = i + 1;
    }
    assert(tags@.take(i as int) == tags@);
    None
}

proof fn lemma_tag_found(tags: Seq<LocaleTag>, n: int, name: Seq<char>)
    requires
        0 <= n <= tags.len(),
        tag_called(tags.take(n), name) is Some,
    ensures
        tag_called(tags, name) == tag_called(tags.take(n), name),
    decreases tags.len() - n,
{
    if n < tags.len() {
        assert(tags.take(n + 1).drop_last() == tags.take(n));
        lemma_tag_found(tags, n + 1, name);
    } else {
        assert(tags.take(n) == tags);
    }
}

proof fn lemma_same_first_place(a: Seq<ExplorerNode>, b: Seq<ExplorerNode>, id: u64)
    requires
        a.len() == b.len(),
        forall|i: int| 0 <= i < a.len() ==> (#[trigger] a[i]).id == b[i].id,
    ensures
        first_place(a, id) == first_place(b, id),
{
    lemma_first_place(a, id);
    lemma_first_place(b, id);
    if let Some(p) = first_place(a, id) {
        assert(b[p].id == id);
    }
    if let Some(q) = first_place(b, id) {
        assert(a[q].id == id);
    }
}

/// A folder clicked twice is as it was.
pub proof fn law_second_click_collapses_again(nodes: Seq<ExplorerNode>, id: u64)
    ensures
        with_expansion_toggled(with_expansion_toggled(nodes, id), id) == nodes,
{
    let once = with_expansion_toggled(nodes, id);
    lemma_first_place(nodes, id);
    lemma_same_first_place(nodes, once, id);
    assert(with_expansion_toggled(once, id) == nodes);
}

/// A language clicked twice leaves the filter as it was.
pub proof fn law_second_click_undoes_language(
    tags: Seq<LocaleTag>,
    chosen: Set<u8>,
    name: Seq<char>,
)
    ensures
        tags_after_click(tags, tags_after_click(tags, chosen, name), name) == chosen,
{
    assert(tags_after_click(tags, tags_after_click(tags, chosen, name), name) =~= chosen);
}

/// A drawn row names its node: the digits of its id are read back as that id.
pub proof fn law_drawn_rows_name_their_nodes(node: ExplorerNode)
    ensures
        row_id(drawn(node).id) == node.id,
{
    crate::number::lemma_decimal_round_trip(node.id);
}

/// The rows of two lists are the same but for what is expanded, selected and visible.
pub open spec fn same_rows(a: Seq<ExplorerNode>, b: Seq<ExplorerNode>) -> bool {
    &&& a.len() == b.len()
    &&& forall|i: int|
        0 <= i < a.len() ==> #[trigger] b[i] == (ExplorerNode {
            is_expanded: b[i].is_expanded,
            is_selected: b[i].is_selected,
            is_visible: b[i].is_visible,
            ..a[i]
        })
}

/// Whatever is searched, filtered, expanded or selected, the rows stay what and where they are.
pub proof fn law_rows_stay_the_same(
    nodes: Seq<ExplorerNode>,
    filter: Filter,
    id: u64,
    select: bool,
)
    ensures
        same_rows(nodes, with_visibility(nodes, filter)),
        same_rows(nodes, with_expansion_toggled(nodes, id)),
        same_rows(nodes, with_row_selected(nodes, id, select)),
        same_rows(nodes, with_visible(nodes, select)),
{
    lemma_first_place(nodes, id);
}

/// A list in which parents stand in front remains one as long as its rows stay the same.
pub proof fn law_parents_stay_in_front(a: Seq<ExplorerNode>, b: Seq<ExplorerNode>)
    requires
        same_rows(a, b),
        parents_first(a),
    ensures
        parents_first(b),
{
    assert forall|i: int| 0 <= i < b.len() implies (#[trigger] b[i]).id == a[i].id && b[i].parent_id
        == a[i].parent_id by {}
    assert forall|i: int, j: int|
        0 <= i < b.len() && 0 <= j < b.len() && b[i].parent_id != 0 && (#[trigger] b[j]).id == (
        #[trigger] b[i]).parent_id implies j < i by {
        assert(a[j].id == a[i].parent_id);
    }
    assert forall|i: int, j: int|
        0 <= i < b.len() && 0 <= j < b.len() && i != j && b[i].id != 0 implies (#[trigger] b[i]).id
        != (#[trigger] b[j]).id by {
        assert(a[i].id != a[j].id);
    }
}

/// After the box of a row was set, the first row with that id is as the box says, be it a file or
/// a folder; where it is a file, every other row is as it was, and without such a row all are.
pub proof fn law_box_sets_its_row(nodes: Seq<ExplorerNode>, id: u64, select: bool, p: int)
    requires
        0 <= p <= nodes.len(),
        p < nodes.len() ==> nodes[p].id == id,
        forall|q: int| 0 <= q < p ==> (#[trigger] nodes[q]).id != id,
    ensures
        with_row_selected(nodes, id, select).len() == nodes.len(),
        p < nodes.len() ==> with_row_selected(nodes, id, select)[p].is_selected == select,
        p < nodes.len() && !nodes[p].is_dir ==> forall|j: int|
            0 <= j < nodes.len() && j != p ==> #[trigger] with_row_selected(nodes, id, select)[j]
                == nodes[j],
        p < nodes.len() && nodes[p].is_dir ==> with_row_selected(nodes, id, select) == with_members(
            nodes,
            id,
            select,
        ),
        p == nodes.len() ==> with_row_selected(nodes, id, select) == nodes,
{
    lemma_first_place(nodes, id);
    if let Some(q) = first_place(nodes, id) {
        assert(nodes[q].id == id);
    } else if p < nodes.len() {
        assert(nodes[p].id == id);
    }
}

/// A click on a row changes whether it is expanded, of the first row with that id and of no other.
pub proof fn law_click_expands_its_row(nodes: Seq<ExplorerNode>, id: u64, p: int)
    requires
        0 <= p <= nodes.len(),
        p < nodes.len() ==> nodes[p].id == id,
        forall|q: int| 0 <= q < p ==> (#[trigger] nodes[q]).id != id,
    ensures
        with_expansion_toggled(nodes, id).len() == nodes.len(),
        p < nodes.len() ==> with_expansion_toggled(nodes, id)[p].is_expanded
            != nodes[p].is_expanded,
        forall|j: int|
            0 <= j < nodes.len() && j != p ==> #[trigger] with_expansion_toggled(nodes, id)[j]
                == nodes[j],
{
    lemma_first_place(nodes, id);
    if let Some(q) = first_place(nodes, id) {
        assert(nodes[q].id == id);
    } else if p < nodes.len() {
        assert(nodes[p].id == id);
    }
}

/// A text that names no number names the row 0, and any other the row of that number.
pub proof fn law_row_id_is_read(text: Seq<char>)
    ensures
        parsed(text, 10) matches Some(n) ==> row_id(text) == n,
        parsed(text, 10) is None ==> row_id(text) == 0,
{
}

/// The tag that is found is the first with that name, where a tag without a name is called by the
/// empty text, and none is found only if none is called so.
pub proof fn law_found_tag_is_the_first(tags: Seq<LocaleTag>, name: Seq<char>)
    ensures
        match tag_called(tags, name) {
            Some(id) => exists|k: int|
                0 <= k < tags.len() && (#[trigger] tags[k]).label() == name && tags[k].id == id
                    && forall|j: int| 0 <= j < k ==> (#[trigger] tags[j]).label() != name,
            None => forall|j: int| 0 <= j < tags.len() ==> (#[trigger] tags[j]).label() != name,
        },
        forall|j: int|
            0 <= j < tags.len() ==> ((#[trigger] tags[j]).name matches Some(n) ==> tags[j].label()
                == n@),
        forall|j: int|
            0 <= j < tags.len() && (#[trigger] tags[j]).name is None ==> tags[j].label().len() == 0,
    decreases tags.len(),
{
    if tags.len() > 0 {
        let shorter = tags.drop_last();
        law_found_tag_is_the_first(shorter, name);
        assert forall|j: int| 0 <= j < shorter.len() implies #[trigger] tags[j] == shorter[j] by {}
        if let Some(id) = tag_called(shorter, name) {
            let k = choose|k: int|
                0 <= k < shorter.len() && (#[trigger] shorter[k]).label() == name && shorter[k].id
                    == id && forall|j: int| 0 <= j < k ==> (#[trigger] shorter[j]).label() != name;
            assert(tags[k] == shorter[k]);
        } else {
            assert(tags[tags.len() - 1] == tags.last());
        }
    }
}

/// A click on a language changes whether the first tag with that name is chosen, and of no other
/// tag.
pub proof fn law_click_changes_one_language(
    tags: Seq<LocaleTag>,
    chosen: Set<u8>,
    name: Seq<char>,
    p: int,
    other: u8,
)
    requires
        0 <= p <= tags.len(),
        p < tags.len() ==> tags[p].label() == name,
        forall|q: int| 0 <= q < p ==> (#[trigger] tags[q]).label() != name,
    ensures
        p < tags.len() ==> tags_after_click(tags, chosen, name).contains(tags[p].id)
            != chosen.contains(tags[p].id),
        p < tags.len() && other != tags[p].id ==> tags_after_click(tags, chosen, name).contains(
            other,
        ) == chosen.contains(other),
        p == tags.len() ==> tags_after_click(tags, chosen, name) == chosen,
{
    law_found_tag_is_the_first(tags, name);
    if let Some(id) = tag_called(tags, name) {
        let k = choose|k: int|
            0 <= k < tags.len() && (#[trigger] tags[k]).label() == name && tags[k].id == id
                && forall|j: int| 0 <= j < k ==> (#[trigger] tags[j]).label() != name;
        assert(tags[k].label() == name);
        assert(p <= k);
    } else if p < tags.len() {
        assert(tags[p].label() == name);
    }
}

proof fn lemma_tag_pills(tags: Seq<LocaleTag>, chosen: Set<u8>)
    ensures
        tag_pills(tags, chosen) == tags.filter(|t: LocaleTag| t.name is Some).map_values(
            |t: LocaleTag| (t.name->0@, chosen.contains(t.id)),
        ),
    decreases tags.len(),
{
    reveal(Seq::filter);
    let named = |t: LocaleTag| t.name is Some;
    let pill = |t: LocaleTag| (t.name->0@, chosen.contains(t.id));
    if tags.len() > 0 {
        lemma_tag_pills(tags.drop_last(), chosen);
        let before = tags.drop_last().filter(named);
        assert(before.push(tags.last()).map_values(pill) =~= before.map_values(pill).push(
            pill(tags.last()),
        ));
    }
    assert(tag_pills(tags, chosen) =~= tags.filter(named).map_values(pill));
}

/// The first language pill stands for files without tags; behind it stands one for each tag with
/// a name, in order, marked exactly if the tag is chosen.
pub proof fn law_language_pills_show_each_tag(
    tags: Seq<LocaleTag>,
    chosen: Set<u8>,
    untagged: bool,
)
    ensures
        language_pills_of(tags, chosen, untagged).len() > 0,
        language_pills_of(tags, chosen, untagged)[0] == (seq!['n', 'o', 'n', 'e'], untagged),
        language_pills_of(tags, chosen, untagged).skip(1) == tags.filter(
            |t: LocaleTag| t.name is Some,
        ).map_values(|t: LocaleTag| (t.name->0@, chosen.contains(t.id))),
{
    lemma_tag_pills(tags, chosen);
    reveal_strlit("none");
    assert("none"@ =~= seq!['n', 'o', 'n', 'e']);
    assert(language_pills_of(tags, chosen, untagged).skip(1) =~= tag_pills(tags, chosen));
}

/// A drawn row shows its node: the id in digits that are read back, the name, the size, the depth
/// as far as the screen can hold it, and whether it is a folder, expanded and selected.
pub proof fn law_drawn_row_shows_its_node(node: ExplorerNode, row: ExplorerRow)
    ensures
        parsed(drawn(node).id, 10) == Some(node.id),
        drawn(node).name == node.name@,
        drawn(node).size_str == size_text(node.size as nat),
        node.depth <= i32::MAX ==> drawn(node).depth == node.depth,
        drawn(node).is_dir == node.is_dir,
        drawn(node).is_expanded == node.is_expanded,
        drawn(node).is_selected == node.is_selected,
        row@.id == row.id@ && row@.name == row.name@ && row@.size_str == row.size_str@,
        row@.is_dir == row.is_dir && row@.depth == row.depth,
        row@.is_expanded == row.is_expanded && row@.is_selected == row.is_selected,
{
    crate::number::lemma_decimal_round_trip(node.id);
}

/// Exactly the visible rows are drawn, each once, in order.
pub proof fn law_visible_rows_are_drawn(nodes: Seq<ExplorerNode>, drawn_rows: Seq<ExplorerRow>)
    ensures
        visible_rows(nodes) == nodes.filter(|n: ExplorerNode| n.is_visible).map_values(
            |n: ExplorerNode| drawn(n),
        ),
        row_views(drawn_rows).len() == drawn_rows.len(),
        forall|i: int|
            0 <= i < drawn_rows.len() ==> #[trigger] row_views(drawn_rows)[i] == drawn_rows[i]@,
    decreases nodes.len(),
{
    reveal(Seq::filter);
    let visible = |n: ExplorerNode| n.is_visible;
    let draw = |n: ExplorerNode| drawn(n);
    if nodes.len() > 0 {
        law_visible_rows_are_drawn(nodes.drop_last(), drawn_rows);
        let before = nodes.drop_last().filter(visible);
        assert(before.push(nodes.last()).map_values(draw) =~= before.map_values(draw).push(
            drawn(nodes.last()),
        ));
    }
    assert(visible_rows(nodes) =~= nodes.filter(visible).map_values(draw));
}

/// The filter is made of what was typed and chosen: the k-th row is a hit exactly if its name
/// fits the search.
pub proof fn law_filter_is_what_was_chosen(screen: ExplorerScreen, k: int)
    ensures
        screen.filter().searching <==> screen.search@.len() > 0,
        screen.filter().tags == screen.selected_tags@,
        screen.filter().untagged == screen.none_tag,
        screen.filter().hits.len() == screen.nodes@.len(),
        0 <= k < screen.nodes@.len() ==> screen.filter().hits[k] == crate::search::fits_query(
            screen.nodes@[k].name@,
            screen.search@,
            screen.is_regex,
        ),
{
}

/// The pill for untagged files changes only whether those are asked for, and any other pill only
/// which tags are chosen.
pub proof fn law_none_pill_stands_apart(
    tags: Seq<LocaleTag>,
    chosen: Set<u8>,
    untagged: bool,
    name: Seq<char>,
)
    ensures
        languages_after_click(tags, chosen, untagged, seq!['n', 'o', 'n', 'e']) == (
            chosen,
            !untagged,
        ),
        name != seq!['n', 'o', 'n', 'e'] ==> languages_after_click(tags, chosen, untagged, name)
            == (tags_after_click(tags, chosen, name), untagged),
{
    reveal_strlit("none");
    assert("none"@ =~= seq!['n', 'o', 'n', 'e']);
}

} // verus!
