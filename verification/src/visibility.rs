//! Which rows of the explorer are shown: search, tag filters and collapsed folders.

use std::collections::{HashMap, HashSet};

use vstd::prelude::*;

use crate::explorer::ExplorerNode;
use crate::search::{fits_query, Query};

verus! {

/// The place of the row with the given id, the last of them if there are several.
pub open spec fn place_of(nodes: Seq<ExplorerNode>, id: u64) -> Option<int>
    decreases nodes.len(),
{
    if nodes.len() == 0 {
        None
    } else if nodes.last().id == id {
        Some(nodes.len() - 1)
    } else {
        place_of(nodes.drop_last(), id)
    }
}

/// The place of the parent of row `i`. A row with the parent id 0, or with one that no row has,
/// has none.
pub open spec fn parent_place(nodes: Seq<ExplorerNode>, i: int) -> Option<int> {
    if nodes[i].parent_id == 0 {
        None
    } else {
        place_of(nodes, nodes[i].parent_id)
    }
}

/// The place that is `k` levels above row `i`.
pub open spec fn climb(nodes: Seq<ExplorerNode>, i: int, k: nat) -> Option<int>
    decreases k,
{
    if k == 0 {
        Some(i)
    } else {
        match climb(nodes, i, (k - 1) as nat) {
            Some(j) => parent_place(nodes, j),
            None => None,
        }
    }
}

/// Row `a` is the parent of row `i`, or the parent of its parent, and so on.
pub open spec fn is_above(nodes: Seq<ExplorerNode>, a: int, i: int) -> bool {
    exists|k: nat| k >= 1 && #[trigger] climb(nodes, i, k) == Some(a)
}

/// The bit of a tag in a mask is set. Tags count from one; 0 stands for the first tag too.
pub open spec fn has_tag(mask: u64, tag: u8) -> bool {
    let bit: u8 = if tag == 0 {
        0
    } else {
        (tag - 1) as u8
    };
    mask & (1u64 << bit) != 0
}

/// A file with these tags passes the tag filter: every file does while no tag is asked for; an
/// untagged one does if those are asked for; any other does if it has one of the tags asked for.
pub open spec fn passes_tags(mask: u64, tags: Set<u8>, untagged: bool) -> bool {
    if tags.is_empty() && !untagged {
        true
    } else if mask == 0 {
        untagged
    } else {
        exists|t: u8| tags.contains(t) && #[trigger] has_tag(mask, t)
    }
}

/// A mask has bits for sixty-four tags: where a file has tags, no tag beyond is asked for.
pub open spec fn tags_fit(nodes: Seq<ExplorerNode>, tags: Set<u8>) -> bool {
    forall|i: int, t: u8|
        0 <= i < nodes.len() && !(#[trigger] nodes[i]).is_dir && nodes[i].tag_bitmask != 0
            && #[trigger] tags.contains(t) ==> t <= 64
}

/// What decides which rows are shown.
pub struct Filter {
    /// For each row, whether its name fits the search.
    pub hits: Seq<bool>,
    /// Something is searched for.
    pub searching: bool,
    pub tags: Set<u8>,
    pub untagged: bool,
}

impl Filter {
    /// Something is searched or filtered for.
    pub open spec fn is_active(self) -> bool {
        self.searching || !self.tags.is_empty() || self.untagged
    }

    /// Row `i` is a file that passes the search and the tag filter.
    pub open spec fn matches(self, nodes: Seq<ExplorerNode>, i: int) -> bool {
        !nodes[i].is_dir && passes_tags(nodes[i].tag_bitmask, self.tags, self.untagged)
            && self.hits[i]
    }

    /// Row `i` matches, or is above one that does.
    pub open spec fn keeps(self, nodes: Seq<ExplorerNode>, i: int) -> bool {
        self.matches(nodes, i) || exists|j: int|
            0 <= j < nodes.len() && self.matches(nodes, j) && #[trigger] is_above(nodes, i, j)
    }

    /// Row `i` is shown: while something is filtered for, if it is kept, collapsed folders or
    /// not; else if every folder above it is expanded.
    pub open spec fn shows(self, nodes: Seq<ExplorerNode>, i: int) -> bool {
        if self.is_active() {
            self.keeps(nodes, i)
        } else {
            forall|a: int| #[trigger] is_above(nodes, a, i) ==> nodes[a].is_expanded
        }
    }
}

/// The filter that a query and the chosen tags make.
pub open spec fn filter_of(
    nodes: Seq<ExplorerNode>,
    query: Seq<char>,
    is_regex: bool,
    tags: Set<u8>,
    untagged: bool,
) -> Filter {
    Filter {
        hits: nodes.map_values(|n: ExplorerNode| fits_query(n.name@, query, is_regex)),
        searching: query.len() > 0,
        tags,
        untagged,
    }
}

/// The rows with their visibility set by the filter and all else as it was.
pub open spec fn with_visibility(nodes: Seq<ExplorerNode>, filter: Filter) -> Seq<ExplorerNode> {
    Seq::new(
        nodes.len(),
        |i: int| ExplorerNode { is_visible: filter.shows(nodes, i), ..nodes[i] },
    )
}

pub(crate) proof fn lemma_place_of(nodes: Seq<ExplorerNode>, id: u64)
    ensures
        match place_of(nodes, id) {
            Some(p) => {
                &&& 0 <= p < nodes.len()
                &&& nodes[p].id == id
                &&& forall|q: int| p < q < nodes.len() ==> (#[trigger] nodes[q]).id != id
            },
            None => forall|q: int| 0 <= q < nodes.len() ==> (#[trigger] nodes[q]).id != id,
        },
    decreases nodes.len(),
{
    if nodes.len() > 0 && nodes.last().id != id {
        lemma_place_of(nodes.drop_last(), id);
        let shorter = nodes.drop_last();
        assert forall|q: int|
            0 <= q < nodes.len() && (place_of(shorter, id) matches Some(p) ==> p < q) implies (
        #[trigger] nodes[q]).id != id by {
            if q < shorter.len() {
                assert(shorter[q].id != id);
            }
        }
    }
}

/// A climb ends at a row of the list, or nowhere.
pub proof fn lemma_climb_in_list(nodes: Seq<ExplorerNode>, i: int, k: nat)
    requires
        0 <= i < nodes.len(),
    ensures
        climb(nodes, i, k) matches Some(j) ==> 0 <= j < nodes.len(),
    decreases k,
{
    if k > 0 {
        lemma_climb_in_list(nodes, i, (k - 1) as nat);
        if let Some(j) = climb(nodes, i, (k - 1) as nat) {
            lemma_place_of(nodes, nodes[j].parent_id);
        }
    }
}

/// To climb `a + b` levels is to climb `a` levels and then `b`.
pub proof fn lemma_climb_adds(nodes: Seq<ExplorerNode>, i: int, a: nat, b: nat)
    ensures
        climb(nodes, i, a + b) == match climb(nodes, i, a) {
            Some(j) => climb(nodes, j, b),
            None => None,
        },
    decreases b,
{
    if b > 0 {
        lemma_climb_adds(nodes, i, a, (b - 1) as nat);
        assert((a + b - 1) as nat == a + (b - 1) as nat);
    }
}

/// Numbers below `n` without repetition are at most `n`.
proof fn lemma_pigeons(s: Seq<int>, n: nat)
    requires
        s.no_duplicates(),
        forall|m: int| 0 <= m < s.len() ==> 0 <= #[trigger] s[m] < n,
    ensures
        s.len() <= n,
{
    s.unique_seq_to_set();
    vstd::set_lib::lemma_int_range(0, n as int);
    assert(s.to_set().subset_of(vstd::set_lib::set_int_range(0, n as int)));
    vstd::set_lib::lemma_len_subset(s.to_set(), vstd::set_lib::set_int_range(0, n as int));
}

/// Whatever is above a row is above it by no more levels than there are rows.
proof fn lemma_short_climb(nodes: Seq<ExplorerNode>, i: int, k: nat, a: int)
    requires
        0 <= i < nodes.len(),
        k >= 1,
        climb(nodes, i, k) == Some(a),
    ensures
        exists|m: nat| 1 <= m <= nodes.len() && #[trigger] climb(nodes, i, m) == Some(a),
    decreases k,
{
    if k > nodes.len() {
        let s = Seq::new(k, |m: int| climb(nodes, i, (m + 1) as nat)->0);
        assert forall|m: int| 0 <= m < s.len() implies 0 <= #[trigger] s[m] < nodes.len()
            && climb(nodes, i, (m + 1) as nat) is Some by {
            lemma_climb_adds(nodes, i, (m + 1) as nat, (k - m - 1) as nat);
            lemma_climb_in_list(nodes, i, (m + 1) as nat);
        }
        if s.no_duplicates() {
            lemma_pigeons(s, nodes.len());
        }
        let (p, q) = choose|p: int, q: int| 0 <= p < q < s.len() && s[p] == s[q];
        assert(0 <= p < q < s.len() && s[p] == s[q]);
        let rest = (k - q - 1) as nat;
        lemma_climb_adds(nodes, i, (q + 1) as nat, rest);
        lemma_climb_adds(nodes, i, (p + 1) as nat, rest);
        lemma_short_climb(nodes, i, ((p + 1) + rest) as nat, a);
    }
}

/// Once a climb has left the list it stays out.
proof fn lemma_climb_ends(nodes: Seq<ExplorerNode>, i: int, k: nat, m: nat)
    requires
        climb(nodes, i, k) is None,
        k <= m,
    ensures
        climb(nodes, i, m) is None,
{
    lemma_climb_adds(nodes, i, k, (m - k) as nat);
}

/// `index` holds the place of each id.
spec fn indexes(index: Map<u64, usize>, nodes: Seq<ExplorerNode>) -> bool {
    forall|id: u64|
        match #[trigger] place_of(nodes, id) {
            Some(p) => index.contains_key(id) && index[id] == p,
            None => !index.contains_key(id),
        }
}

/// The place of each id.
fn index_ids(nodes: &[ExplorerNode]) -> (index: HashMap<u64, usize>)
    ensures
        indexes(index@, nodes@),
{
    let mut index: HashMap<u64, usize> = HashMap::new();
    let mut i: usize = 0;
    while i < nodes.len()
        invariant
            i <= nodes@.len(),
            indexes(index@, nodes@.take(i as int)),
        decreases nodes.len() - i,
    {
        let ghost before = index@;
        index.insert(nodes[i].id, i);
        proof {
            let longer = nodes@.take(i + 1);
            assert(longer.drop_last() == nodes@.take(i as int));
            assert forall|id: u64|
                match #[trigger] place_of(longer, id) {
                    Some(p) => index@.contains_key(id) && index@[id] == p,
                    None => !index@.contains_key(id),
                } by {
                assert(place_of(nodes@.take(i as int), id) is Some == before.contains_key(id));
                assert(longer.last() == nodes@[i as int]);
            }
        }
        i = i + 1;
    }
    assert(nodes@.take(i as int) == nodes@);
    index
}

/// The places of the rows above row `i`. Where rows are in a circle above one another, each of
/// them is listed.
fn places_above(nodes: &[ExplorerNode], index: &HashMap<u64, usize>, i: usize) -> (above: Vec<
    usize,
>)
    requires
        i < nodes@.len(),
        indexes(index@, nodes@),
    ensures
        forall|k: int|
            0 <= k < above@.len() ==> (#[trigger] above@[k]) < nodes@.len() && is_above(
                nodes@,
                above@[k] as int,
                i as int,
            ),
        forall|a: int|
            #[trigger] is_above(nodes@, a, i as int) ==> exists|k: int|
                0 <= k < above@.len() && #[trigger] above@[k] == a,
{
    let mut above: Vec<usize> = Vec::new();
    let mut at: usize = i;
    let mut ended = false;
    while !ended && above.len() < nodes.len()
        invariant
            i < nodes@.len(),
            at < nodes@.len(),
            climb(nodes@, i as int, above@.len()) == Some(at as int),
            ended ==> climb(nodes@, i as int, above@.len() + 1) is None,
            forall|k: int|
                0 <= k < above@.len() ==> (#[trigger] above@[k]) < nodes@.len() && climb(
                    nodes@,
                    i as int,
                    (k + 1) as nat,
                ) == Some(above@[k] as int),
            indexes(index@, nodes@),
        decreases nodes.len() - above.len(), if ended { 0int } else { 1int },
    {
        let parent_id: u64 = nodes[at].parent_id;
        assert(climb(nodes@, i as int, above@.len() + 1) == parent_place(nodes@, at as int));
        if parent_id == 0 {
            ended = true;
        } else {
            proof {
                lemma_place_of(nodes@, parent_id);
            }
            match index.get(&parent_id) {
                Some(p) => {
                    at = *p;
                    above.push(at);
                },
                None => {
                    ended = true;
                },
            }
        }
    }
    proof {
        assert forall|k: int| 0 <= k < above@.len() implies is_above(
            nodes@,
            (#[trigger] above@[k]) as int,
            i as int,
        ) by {
            assert(climb(nodes@, i as int, (k + 1) as nat) == Some(above@[k] as int));
        }
        assert forall|a: int| #[trigger] is_above(nodes@, a, i as int) implies exists|k: int|
            0 <= k < above@.len() && #[trigger] above@[k] == a by {
            let k = choose|k: nat| k >= 1 && #[trigger] climb(nodes@, i as int, k) == Some(a);
            lemma_short_climb(nodes@, i as int, k, a);
            let m = choose|m: nat|
                1 <= m <= nodes@.len() && #[trigger] climb(nodes@, i as int, m) == Some(a);
            if m > above@.len() {
                lemma_climb_ends(nodes@, i as int, above@.len() + 1, m);
            }
            assert(above@[m - 1] == a);
        }
    }
    above
}

/// Whether a file with these tags passes the tag filter.
fn tags_pass(mask: u64, tags: &HashSet<u8>, untagged: bool) -> (res: bool)
    requires
        mask != 0 ==> forall|t: u8| #[trigger] tags@.contains(t) ==> t <= 64,
    ensures
        res == passes_tags(mask, tags@, untagged),
{
    if tags.is_empty() && !untagged {
        return true;
    }
    if mask == 0 {
        return untagged;
    }
    let mut tag: u8 = 0;
    while tag <= 64
        invariant
            tag <= 65,
            mask != 0,
            !tags@.is_empty() || untagged,
            forall|t: u8| t < tag && #[trigger] tags@.contains(t) ==> !has_tag(mask, t),
        decreases 65 - tag,
    {
        if tags.contains(&tag) {
            let bit: u8 = tag.saturating_sub(1);
            if mask & (1u64 << bit) != 0 {
                assert(has_tag(mask, tag));
                return true;
            }
        }
        tag = tag + 1;
    }
    false
}

/// Whether no tag is asked for that a mask has no bit for, or no file has tags.
pub fn tags_in_range(nodes: &[ExplorerNode], tags: &HashSet<u8>) -> (res: bool)
    ensures
        res == tags_fit(nodes@, tags@),
{
    let mut beyond = false;
    let mut tag: u8 = 65;
    let mut last = false;
    while !last
        invariant
            65 <= tag,
            beyond ==> exists|t: u8| t > 64 && #[trigger] tags@.contains(t),
            !beyond ==> forall|t: u8|
                64 < t && (t < tag || (last && t == tag)) ==> !#[trigger] tags@.contains(t),
            last ==> tag == 255,
        decreases 255 - tag, if last { 0int } else { 1int },
    {
        if tags.contains(&tag) {
            beyond = true;
        }
        if tag == 255 {
            last = true;
        } else {
            tag = tag + 1;
        }
    }
    if !beyond {
        return true;
    }
    let ghost t = choose|t: u8| t > 64 && #[trigger] tags@.contains(t);
    let mut i: usize = 0;
    while i < nodes.len()
        invariant
            i <= nodes@.len(),
            forall|k: int|
                0 <= k < i ==> (#[trigger] nodes@[k]).is_dir || nodes@[k].tag_bitmask == 0,
            t > 64,
            tags@.contains(t),
        decreases nodes.len() - i,
    {
        if !nodes[i].is_dir && nodes[i].tag_bitmask != 0 {
            assert(!nodes@[i as int].is_dir && tags@.contains(t));
            return false;
        }
        i = i + 1;
    }
    true
}

/// The filter that a list of hits and the chosen tags make.
pub open spec fn filter_with(
    hits: Seq<bool>,
    searching: bool,
    tags: Set<u8>,
    untagged: bool,
) -> Filter {
    Filter { hits, searching, tags, untagged }
}

/// For each row, whether it matches or is above one that does.
fn kept_rows(
    nodes: &[ExplorerNode],
    hits: &Vec<bool>,
    searching: bool,
    selected_tags: &HashSet<u8>,
    select_none_tag: bool,
    index: &HashMap<u64, usize>,
) -> (kept: Vec<bool>)
    requires
        hits@.len() == nodes@.len(),
        tags_fit(nodes@, selected_tags@),
        indexes(index@, nodes@),
    ensures
        kept@.len() == nodes@.len(),
        forall|i: int|
            0 <= i < nodes@.len() ==> #[trigger] kept@[i] == filter_with(
                hits@,
                searching,
                selected_tags@,
                select_none_tag,
            ).keeps(nodes@, i),
{
    let ghost filter = filter_with(hits@, searching, selected_tags@, select_none_tag);
    let mut kept: Vec<bool> = vec![false; nodes.len()];
    let mut i: usize = 0;
    while i < nodes.len()
        invariant
            i <= nodes@.len(),
            hits@.len() == nodes@.len(),
            kept@.len() == nodes@.len(),
            tags_fit(nodes@, selected_tags@),
            filter == filter_with(hits@, searching, selected_tags@, select_none_tag),
            indexes(index@, nodes@),
            forall|r: int|
                0 <= r < nodes@.len() ==> #[trigger] kept@[r] == ((r < i && filter.matches(
                    nodes@,
                    r,
                )) || exists|j: int|
                    0 <= j < i && filter.matches(nodes@, j) && #[trigger] is_above(nodes@, r, j)),
        decreases nodes.len() - i,
    {
        let node = &nodes[i];
        let matched = if node.is_dir {
            false
        } else {
            tags_pass(node.tag_bitmask, selected_tags, select_none_tag) && hits[i]
        };
        assert(matched == filter.matches(nodes@, i as int));
        let ghost before = kept@;
        if matched {
            kept[i] = true;
            let above = places_above(nodes, index, i);
            let mut k: usize = 0;
            while k < above.len()
                invariant
                    i < nodes@.len(),
                    k <= above@.len(),
                    kept@.len() == nodes@.len(),
                    before.len() == nodes@.len(),
                    forall|m: int| 0 <= m < above@.len() ==> (#[trigger] above@[m]) < nodes@.len(),
                    forall|r: int|
                        0 <= r < nodes@.len() ==> #[trigger] kept@[r] == (before[r] || r == i
                            || exists|m: int| 0 <= m < k && #[trigger] above@[m] == r),
                decreases above.len() - k,
            {
                let ghost earlier = kept@;
                let place = above[k];
                kept[place] = true;
                proof {
                    assert forall|r: int| 0 <= r < nodes@.len() implies #[trigger] kept@[r] == (
                    before[r] || r == i || exists|m: int|
                        0 <= m < k + 1 && #[trigger] above@[m] == r) by {
                        assert(earlier[r] == (before[r] || r == i || exists|m: int|
                            0 <= m < k && #[trigger] above@[m] == r));
                        if r == place {
                            assert(above@[k as int] == r);
                        }
                    }
                }
                k = k + 1;
            }
        }
        proof {
            assert forall|r: int| 0 <= r < nodes@.len() implies #[trigger] kept@[r] == ((r < i + 1
                && filter.matches(nodes@, r)) || exists|j: int|
                0 <= j < i + 1 && filter.matches(nodes@, j) && #[trigger] is_above(
                    nodes@,
                    r,
                    j,
                )) by {
                assert(before[r] == ((r < i && filter.matches(nodes@, r)) || exists|j: int|
                    0 <= j < i && filter.matches(nodes@, j) && #[trigger] is_above(
                        nodes@,
                        r,
                        j,
                    )));
                if matched && is_above(nodes@, r, i as int) {
                    assert(filter.matches(nodes@, i as int) && is_above(nodes@, r, i as int));
                }
            }
        }
        i = i + 1;
    }
    kept
}

/// For each row, whether it is shown.
fn shown_rows(
    nodes: &[ExplorerNode],
    hits: &Vec<bool>,
    searching: bool,
    selected_tags: &HashSet<u8>,
    select_none_tag: bool,
) -> (shown: Vec<bool>)
    requires
        hits@.len() == nodes@.len(),
        tags_fit(nodes@, selected_tags@),
    ensures
        shown@.len() == nodes@.len(),
        forall|i: int|
            0 <= i < nodes@.len() ==> #[trigger] shown@[i] == filter_with(
                hits@,
                searching,
                selected_tags@,
                select_none_tag,
            ).shows(nodes@, i),
{
    let index = index_ids(nodes);
    if searching || !selected_tags.is_empty() || select_none_tag {
        return kept_rows(nodes, hits, searching, selected_tags, select_none_tag, &index);
    }
    let ghost filter = filter_with(hits@, searching, selected_tags@, select_none_tag);
    let mut shown: Vec<bool> = Vec::new();
    let mut i: usize = 0;
    while i < nodes.len()
        invariant
            i <= nodes@.len(),
            shown@.len() == i,
            filter == filter_with(hits@, searching, selected_tags@, select_none_tag),
            !filter.is_active(),
            indexes(index@, nodes@),
            forall|r: int| 0 <= r < i ==> #[trigger] shown@[r] == filter.shows(nodes@, r),
        decreases nodes.len() - i,
    {
        let above = places_above(nodes, &index, i);
        let mut all_expanded = true;
        let mut k: usize = 0;
        while k < above.len()
            invariant
                k <= above@.len(),
                forall|m: int| 0 <= m < above@.len() ==> (#[trigger] above@[m]) < nodes@.len(),
                all_expanded == forall|m: int|
                    0 <= m < k ==> nodes@[(#[trigger] above@[m]) as int].is_expanded,
            decreases above.len() - k,
        {
            let place = above[k];
            if !nodes[place].is_expanded {
                assert(!nodes@[above@[k as int] as int].is_expanded);
                all_expanded = false;
            }
            k = k + 1;
        }
        proof {
            if all_expanded {
                assert forall|a: int| #[trigger] is_above(nodes@, a, i as int) implies nodes@[a].is_expanded by {
                    let m = choose|m: int| 0 <= m < above@.len() && #[trigger] above@[m] == a;
                    assert(nodes@[above@[m] as int].is_expanded);
                }
            } else {
                let m = choose|m: int|
                    0 <= m < k && !nodes@[(#[trigger] above@[m]) as int].is_expanded;
                assert(is_above(nodes@, above@[m] as int, i as int));
            }
            assert(all_expanded == filter.shows(nodes@, i as int));
        }
        shown.push(all_expanded);
        i = i + 1;
    }
    shown
}

/// Sets which rows are shown, given for each row whether its name fits the search, and whether
/// anything is searched for.
pub fn apply_visibility(
    nodes: &mut [ExplorerNode],
    hits: &Vec<bool>,
    searching: bool,
    selected_tags: &HashSet<u8>,
    select_none_tag: bool,
)
    requires
        hits@.len() == old(nodes)@.len(),
        tags_fit(old(nodes)@, selected_tags@),
    ensures
        final(nodes)@ == with_visibility(
            old(nodes)@,
            filter_with(hits@, searching, selected_tags@, select_none_tag),
        ),
{
    let ghost start = nodes@;
    let shown = shown_rows(nodes, hits, searching, selected_tags, select_none_tag);
    let ghost goal = with_visibility(
        start,
        filter_with(hits@, searching, selected_tags@, select_none_tag),
    );
    let mut i: usize = 0;
    while i < nodes.len()
        invariant
            i <= nodes@.len(),
            nodes@.len() == start.len(),
            goal.len() == start.len(),
            shown@.len() == start.len(),
            forall|k: int|
                0 <= k < start.len() ==> #[trigger] goal[k] == (ExplorerNode {
                    is_visible: shown@[k],
                    ..start[k]
                }),
            forall|k: int| 0 <= k < i ==> #[trigger] nodes@[k] == goal[k],
            forall|k: int| i <= k < start.len() ==> #[trigger] nodes@[k] == start[k],
        decreases nodes.len() - i,
    {
        nodes[i].is_visible = shown[i];
        i = i + 1;
    }
    assert(nodes@ == goal);
}

/// Sets which rows are shown under a search and the chosen tags.
pub fn update_explorer_visibility(
    nodes: &mut [ExplorerNode],
    query: &str,
    is_regex: bool,
    selected_tags: &HashSet<u8>,
    select_none_tag: bool,
)
    requires
        tags_fit(old(nodes)@, selected_tags@),
    ensures
        final(nodes)@ == with_visibility(
            old(nodes)@,
            filter_of(old(nodes)@, query@, is_regex, selected_tags@, select_none_tag),
        ),
{
    let prepared = Query::new(query, is_regex);
    let mut hits: Vec<bool> = Vec::new();
    let mut i: usize = 0;
    while i < nodes.len()
        invariant
            i <= nodes@.len(),
            nodes@ == old(nodes)@,
            hits@.len() == i,
            prepared.text() == query@,
            prepared.is_regex() == is_regex,
            forall|k: int|
                0 <= k < i ==> #[trigger] hits@[k] == fits_query(nodes@[k].name@, query@, is_regex),
        decreases nodes.len() - i,
    {
        let hit = prepared.fits(nodes[i].name.as_str());
        hits.push(hit);
        i = i + 1;
    }
    assert(hits@ == filter_of(
        nodes@,
        query@,
        is_regex,
        selected_tags@,
        select_none_tag,
    ).hits);
    apply_visibility(nodes, &hits, !query.is_empty(), selected_tags, select_none_tag);
}

/// What is above something above a row is above the row.
pub proof fn lemma_above_transitive(nodes: Seq<ExplorerNode>, a: int, b: int, c: int)
    requires
        is_above(nodes, a, b),
        is_above(nodes, b, c),
    ensures
        is_above(nodes, a, c),
{
    let k = choose|k: nat| k >= 1 && #[trigger] climb(nodes, b, k) == Some(a);
    let m = choose|m: nat| m >= 1 && #[trigger] climb(nodes, c, m) == Some(b);
    lemma_climb_adds(nodes, c, m, k);
    assert(climb(nodes, c, m + k) == Some(a));
}

/// What is above a row of the list is a row of the list.
pub proof fn lemma_above_in_list(nodes: Seq<ExplorerNode>, a: int, i: int)
    requires
        0 <= i < nodes.len(),
        is_above(nodes, a, i),
    ensures
        0 <= a < nodes.len(),
{
    let k = choose|k: nat| k >= 1 && #[trigger] climb(nodes, i, k) == Some(a);
    lemma_climb_in_list(nodes, i, k);
}

/// Whatever is shown can be reached from the top: all folders above a shown row are shown.
pub proof fn law_folders_above_shown_rows_are_shown(
    nodes: Seq<ExplorerNode>,
    filter: Filter,
    a: int,
    i: int,
)
    requires
        0 <= i < nodes.len(),
        filter.shows(nodes, i),
        is_above(nodes, a, i),
    ensures
        filter.shows(nodes, a),
{
    lemma_above_in_list(nodes, a, i);
    if filter.is_active() {
        if filter.matches(nodes, i) {
            assert(filter.matches(nodes, i) && is_above(nodes, a, i));
        } else {
            let j = choose|j: int|
                0 <= j < nodes.len() && filter.matches(nodes, j) && #[trigger] is_above(
                    nodes,
                    i,
                    j,
                );
            lemma_above_transitive(nodes, a, i, j);
        }
    } else {
        assert forall|b: int| #[trigger] is_above(nodes, b, a) implies nodes[b].is_expanded by {
            lemma_above_transitive(nodes, b, a, i);
        }
    }
}

/// While something is filtered for, a shown file matches, and a shown folder has a matching file
/// below it.
pub proof fn law_shown_under_filter(nodes: Seq<ExplorerNode>, filter: Filter, i: int)
    requires
        0 <= i < nodes.len(),
        filter.is_active(),
        filter.shows(nodes, i),
    ensures
        filter.matches(nodes, i) || exists|j: int|
            0 <= j < nodes.len() && filter.matches(nodes, j) && #[trigger] is_above(nodes, i, j),
        nodes[i].is_dir ==> exists|j: int|
            0 <= j < nodes.len() && filter.matches(nodes, j) && #[trigger] is_above(nodes, i, j),
{
}

/// While something is filtered for, every matching file is shown.
pub proof fn law_matching_files_are_shown(nodes: Seq<ExplorerNode>, filter: Filter, i: int)
    requires
        0 <= i < nodes.len(),
        filter.is_active(),
        filter.matches(nodes, i),
    ensures
        filter.shows(nodes, i),
{
}

/// The rows of two lists are the same but for what the user did to them.
pub open spec fn same_tree(a: Seq<ExplorerNode>, b: Seq<ExplorerNode>) -> bool {
    &&& a.len() == b.len()
    &&& forall|i: int|
        0 <= i < a.len() ==> {
            &&& (#[trigger] a[i]).id == b[i].id
            &&& a[i].parent_id == b[i].parent_id
            &&& a[i].is_dir == b[i].is_dir
            &&& a[i].tag_bitmask == b[i].tag_bitmask
            &&& a[i].name == b[i].name
        }
}

proof fn lemma_same_place(a: Seq<ExplorerNode>, b: Seq<ExplorerNode>, id: u64)
    requires
        same_tree(a, b),
    ensures
        place_of(a, id) == place_of(b, id),
    decreases a.len(),
{
    if a.len() > 0 {
        assert(a[a.len() - 1].id == b[b.len() - 1].id);
        assert forall|i: int| 0 <= i < a.drop_last().len() implies (#[trigger] a.drop_last()[i]).id
            == b.drop_last()[i].id && a.drop_last()[i].parent_id == b.drop_last()[i].parent_id
            && a.drop_last()[i].is_dir == b.drop_last()[i].is_dir && a.drop_last()[i].tag_bitmask
            == b.drop_last()[i].tag_bitmask && a.drop_last()[i].name == b.drop_last()[i].name by {
            assert(a[i].id == b[i].id);
        }
        lemma_same_place(a.drop_last(), b.drop_last(), id);
    }
}

proof fn lemma_same_climb(a: Seq<ExplorerNode>, b: Seq<ExplorerNode>, i: int, k: nat)
    requires
        same_tree(a, b),
        0 <= i < a.len(),
    ensures
        climb(a, i, k) == climb(b, i, k),
    decreases k,
{
    if k > 0 {
        lemma_same_climb(a, b, i, (k - 1) as nat);
        lemma_climb_in_list(a, i, (k - 1) as nat);
        if let Some(j) = climb(a, i, (k - 1) as nat) {
            assert(a[j].parent_id == b[j].parent_id);
            lemma_same_place(a, b, a[j].parent_id);
        }
    }
}

proof fn lemma_same_above(a: Seq<ExplorerNode>, b: Seq<ExplorerNode>, p: int, i: int)
    requires
        same_tree(a, b),
        0 <= i < a.len(),
    ensures
        is_above(a, p, i) == is_above(b, p, i),
{
    if is_above(a, p, i) {
        let k = choose|k: nat| k >= 1 && #[trigger] climb(a, i, k) == Some(p);
        lemma_same_climb(a, b, i, k);
        assert(climb(b, i, k) == Some(p));
    }
    if is_above(b, p, i) {
        let k = choose|k: nat| k >= 1 && #[trigger] climb(b, i, k) == Some(p);
        lemma_same_climb(a, b, i, k);
        assert(climb(a, i, k) == Some(p));
    }
}

proof fn lemma_same_keeps(a: Seq<ExplorerNode>, b: Seq<ExplorerNode>, filter: Filter, i: int)
    requires
        same_tree(a, b),
        0 <= i < a.len(),
        filter.keeps(a, i),
    ensures
        filter.keeps(b, i),
{
    assert(a[i].is_dir == b[i].is_dir);
    if !filter.matches(a, i) {
        let j = choose|j: int|
            0 <= j < a.len() && filter.matches(a, j) && #[trigger] is_above(a, i, j);
        assert(a[j].is_dir == b[j].is_dir);
        lemma_same_above(a, b, i, j);
        assert(filter.matches(b, j) && is_above(b, i, j));
    }
}

/// While something is filtered for, it does not matter which folders are expanded, nor what was
/// shown or selected before.
pub proof fn law_filter_ignores_collapsed_folders(
    a: Seq<ExplorerNode>,
    b: Seq<ExplorerNode>,
    filter: Filter,
    i: int,
)
    requires
        same_tree(a, b),
        filter.is_active(),
        0 <= i < a.len(),
    ensures
        filter.shows(a, i) == filter.shows(b, i),
{
    if filter.keeps(a, i) {
        lemma_same_keeps(a, b, filter, i);
    }
    if filter.keeps(b, i) {
        assert(same_tree(b, a)) by {
            assert forall|k: int| 0 <= k < b.len() implies (#[trigger] b[k]).id == a[k].id
                && b[k].parent_id == a[k].parent_id && b[k].is_dir == a[k].is_dir
                && b[k].tag_bitmask == a[k].tag_bitmask && b[k].name == a[k].name by {
                assert(a[k].id == b[k].id);
            }
        }
        lemma_same_keeps(b, a, filter, i);
    }
}

/// To set the visibility twice is to set it once.
pub proof fn law_visibility_is_stable(
    nodes: Seq<ExplorerNode>,
    query: Seq<char>,
    is_regex: bool,
    tags: Set<u8>,
    untagged: bool,
)
    ensures
        ({
            let once = with_visibility(nodes, filter_of(nodes, query, is_regex, tags, untagged));
            with_visibility(once, filter_of(once, query, is_regex, tags, untagged)) == once
        }),
{
    let filter = filter_of(nodes, query, is_regex, tags, untagged);
    let once = with_visibility(nodes, filter);
    assert(filter_of(once, query, is_regex, tags, untagged).hits == filter.hits);
    assert(same_tree(nodes, once));
    assert forall|i: int| 0 <= i < nodes.len() implies filter.shows(once, i) == filter.shows(
        nodes,
        i,
    ) by {
        if filter.is_active() {
            law_filter_ignores_collapsed_folders(nodes, once, filter, i);
        } else {
            assert forall|a: int|
                #[trigger] is_above(nodes, a, i) == is_above(once, a, i) && (is_above(nodes, a, i)
                    ==> nodes[a].is_expanded == once[a].is_expanded) by {
                lemma_same_above(nodes, once, a, i);
                if is_above(nodes, a, i) {
                    lemma_above_in_list(nodes, a, i);
                }
            }
            assert forall|a: int| #[trigger] is_above(once, a, i) implies is_above(nodes, a, i) by {
                lemma_same_above(nodes, once, a, i);
            }
        }
    }
    assert(with_visibility(once, filter) == once);
}

/// With nothing filtered for, a collapsed folder hides everything below it.
pub proof fn law_collapsed_folder_hides(
    nodes: Seq<ExplorerNode>,
    filter: Filter,
    folder: int,
    i: int,
)
    requires
        0 <= i < nodes.len(),
        !filter.is_active(),
        is_above(nodes, folder, i),
        !nodes[folder].is_expanded,
    ensures
        !filter.shows(nodes, i),
{
}

/// With nothing filtered for, rows without a parent are shown, and so is everything else once
/// every folder is expanded.
pub proof fn law_unfiltered_rows(nodes: Seq<ExplorerNode>, filter: Filter, i: int)
    requires
        0 <= i < nodes.len(),
        !filter.is_active(),
    ensures
        parent_place(nodes, i) is None ==> filter.shows(nodes, i),
        (forall|a: int| 0 <= a < nodes.len() ==> (#[trigger] nodes[a]).is_expanded)
            ==> filter.shows(nodes, i),
{
    if parent_place(nodes, i) is None {
        assert forall|a: int| #[trigger] is_above(nodes, a, i) implies false by {
            let k = choose|k: nat| k >= 1 && #[trigger] climb(nodes, i, k) == Some(a);
            assert(climb(nodes, i, 0) == Some(i));
            assert(climb(nodes, i, 1) is None);
            lemma_climb_ends(nodes, i, 1, k);
        }
    }
    if forall|a: int| 0 <= a < nodes.len() ==> (#[trigger] nodes[a]).is_expanded {
        assert forall|a: int| #[trigger] is_above(nodes, a, i) implies nodes[a].is_expanded by {
            lemma_above_in_list(nodes, a, i);
        }
    }
}

/// An empty query without tags filters for nothing.
pub proof fn law_nothing_asked_for(nodes: Seq<ExplorerNode>, is_regex: bool)
    ensures
        !filter_of(nodes, Seq::empty(), is_regex, Set::empty(), false).is_active(),
{
}

/// A file passes by any tag that is chosen and whose bit it has, whatever other tags it has: tag
/// `t` has bit `t - 1`, and the tag 0 the first bit too.
pub proof fn law_chosen_tag_passes(mask: u64, t: u8, tags: Set<u8>, untagged: bool)
    requires
        tags.contains(t),
        t <= 64,
    ensures
        t >= 1 ==> passes_tags(mask | (1u64 << ((t - 1) as u8)), tags, untagged),
        t == 0 ==> passes_tags(mask | 1, tags, untagged),
{
    let bit: u8 = if t == 0 { 0 } else { (t - 1) as u8 };
    let with_bit = mask | (1u64 << bit);
    assert(with_bit & (1u64 << bit) != 0 && with_bit != 0) by (bit_vector)
        requires
            with_bit == mask | (1u64 << bit),
            bit < 64,
    ;
    assert(1u64 << 0u8 == 1) by (bit_vector);
    assert(has_tag(with_bit, t));
}

/// More tags on a tagged file that passes never make it fail.
pub proof fn law_more_tags_pass_too(mask: u64, more: u64, tags: Set<u8>, untagged: bool)
    requires
        mask != 0,
        passes_tags(mask, tags, untagged),
    ensures
        passes_tags(mask | more, tags, untagged),
{
    assert(mask | more != 0) by (bit_vector)
        requires
            mask != 0,
    ;
    if !(tags.is_empty() && !untagged) {
        let t = choose|t: u8| tags.contains(t) && #[trigger] has_tag(mask, t);
        let bit: u8 = if t == 0 { 0 } else { (t - 1) as u8 };
        let flag = 1u64 << bit;
        assert((mask | more) & flag != 0) by (bit_vector)
            requires
                mask & flag != 0,
        ;
        assert(has_tag(mask | more, t));
    }
}

/// A tagged file that passes a filter has the bit of a tag that is chosen.
pub proof fn law_passing_file_has_a_chosen_tag(mask: u64, tags: Set<u8>, untagged: bool)
    requires
        mask != 0,
        !tags.is_empty() || untagged,
        passes_tags(mask, tags, untagged),
    ensures
        exists|t: u8|
            #[trigger] tags.contains(t) && (mask & (1u64 << ((if t == 0 { 0int } else { t - 1 }) as u8)))
                != 0,
{
    let t = choose|t: u8| tags.contains(t) && #[trigger] has_tag(mask, t);
    assert(tags.contains(t));
}

/// While no tag is asked for every file passes; else an untagged file passes exactly if those are
/// asked for, and of two choices of tags together a file passes exactly if it does of one.
pub proof fn law_tag_choices_are_joined_by_or(mask: u64, a: Set<u8>, b: Set<u8>, untagged: bool)
    ensures
        passes_tags(mask, Set::empty(), false),
        !a.is_empty() ==> passes_tags(0, a, untagged) == untagged,
        passes_tags(0, a, true),
        !a.is_empty() && !b.is_empty() ==> passes_tags(mask, a.union(b), untagged) == (passes_tags(
            mask,
            a,
            untagged,
        ) || passes_tags(mask, b, untagged)),
{
    let both = a.union(b);
    if !a.is_empty() && !b.is_empty() {
        let x = choose|x: u8| a.contains(x);
        assert(a.contains(x)) by {
            if forall|y: u8| !a.contains(y) {
                assert(a =~= Set::empty());
            }
        }
        assert(both.contains(x));
        assert(!both.is_empty());
        if mask != 0 {
            if passes_tags(mask, both, untagged) {
                let t = choose|t: u8| both.contains(t) && #[trigger] has_tag(mask, t);
                assert(a.contains(t) || b.contains(t));
                assert(has_tag(mask, t));
            }
            if passes_tags(mask, a, untagged) {
                let t = choose|t: u8| a.contains(t) && #[trigger] has_tag(mask, t);
                assert(both.contains(t) && has_tag(mask, t));
            }
            if passes_tags(mask, b, untagged) {
                let t = choose|t: u8| b.contains(t) && #[trigger] has_tag(mask, t);
                assert(both.contains(t) && has_tag(mask, t));
            }
        }
    }
}

/// The last row that has the id which another row names as its parent is above that row.
pub proof fn law_parent_is_above(nodes: Seq<ExplorerNode>, p: int, i: int)
    requires
        0 <= p < nodes.len(),
        0 <= i < nodes.len(),
        nodes[i].parent_id != 0,
        nodes[p].id == nodes[i].parent_id,
        forall|q: int| p < q < nodes.len() ==> (#[trigger] nodes[q]).id != nodes[i].parent_id,
    ensures
        is_above(nodes, p, i),
{
    lemma_place_of(nodes, nodes[i].parent_id);
    if let Some(q) = place_of(nodes, nodes[i].parent_id) {
        assert(nodes[q].id == nodes[i].parent_id);
        assert(nodes[p].id == nodes[i].parent_id);
    }
    assert(climb(nodes, i, 0) == Some(i));
    assert(climb(nodes, i, 1) == Some(p));
}

/// What is above a row is the row that it names as its parent, the last with that id, or above
/// that one. A row that names 0 has nothing above it.
pub proof fn law_above_goes_through_the_parent(nodes: Seq<ExplorerNode>, a: int, i: int)
    requires
        0 <= i < nodes.len(),
        is_above(nodes, a, i),
    ensures
        nodes[i].parent_id != 0,
        exists|p: int|
            0 <= p < nodes.len() && (#[trigger] nodes[p]).id == nodes[i].parent_id && (a == p
                || is_above(nodes, a, p)) && forall|q: int|
                p < q < nodes.len() ==> (#[trigger] nodes[q]).id != nodes[i].parent_id,
{
    let k = choose|k: nat| k >= 1 && #[trigger] climb(nodes, i, k) == Some(a);
    assert(climb(nodes, i, 0) == Some(i));
    lemma_climb_adds(nodes, i, 1, (k - 1) as nat);
    assert(climb(nodes, i, 1) == parent_place(nodes, i));
    lemma_place_of(nodes, nodes[i].parent_id);
    let p = parent_place(nodes, i)->0;
    assert(nodes[p].id == nodes[i].parent_id);
    if k > 1 {
        assert(climb(nodes, p, (k - 1) as nat) == Some(a));
    } else {
        assert(climb(nodes, p, 0) == Some(p));
    }
}

/// While something is searched or filtered for, a file whose name fits and whose tags pass is
/// visible, and so is everything above it.
pub proof fn law_fitting_files_become_visible(
    nodes: Seq<ExplorerNode>,
    query: Seq<char>,
    is_regex: bool,
    tags: Set<u8>,
    untagged: bool,
    i: int,
    a: int,
)
    requires
        query.len() > 0 || !tags.is_empty() || untagged,
        0 <= i < nodes.len(),
        !nodes[i].is_dir,
        fits_query(nodes[i].name@, query, is_regex),
        passes_tags(nodes[i].tag_bitmask, tags, untagged),
    ensures
        with_visibility(nodes, filter_of(nodes, query, is_regex, tags, untagged))[i].is_visible,
        is_above(nodes, a, i) ==> with_visibility(
            nodes,
            filter_of(nodes, query, is_regex, tags, untagged),
        )[a].is_visible,
{
    let filter = filter_of(nodes, query, is_regex, tags, untagged);
    assert(filter.matches(nodes, i));
    if is_above(nodes, a, i) {
        lemma_above_in_list(nodes, a, i);
        law_folders_above_shown_rows_are_shown(nodes, filter, a, i);
    }
}

/// While something is searched or filtered for, a row is visible only if it, or a row below it,
/// is a file whose name fits and whose tags pass.
pub proof fn law_visible_rows_fit(
    nodes: Seq<ExplorerNode>,
    query: Seq<char>,
    is_regex: bool,
    tags: Set<u8>,
    untagged: bool,
    i: int,
)
    requires
        query.len() > 0 || !tags.is_empty() || untagged,
        0 <= i < nodes.len(),
        with_visibility(nodes, filter_of(nodes, query, is_regex, tags, untagged))[i].is_visible,
    ensures
        exists|j: int|
            0 <= j < nodes.len() && (j == i || is_above(nodes, i, j)) && !(
            #[trigger] nodes[j]).is_dir && fits_query(nodes[j].name@, query, is_regex)
                && passes_tags(nodes[j].tag_bitmask, tags, untagged),
{
    let filter = filter_of(nodes, query, is_regex, tags, untagged);
    assert(filter.shows(nodes, i));
    if filter.matches(nodes, i) {
        assert(!nodes[i].is_dir);
    } else {
        let j = choose|j: int|
            0 <= j < nodes.len() && filter.matches(nodes, j) && #[trigger] is_above(nodes, i, j);
        assert(!nodes[j].is_dir);
    }
}

/// While nothing is searched or filtered for, a row is visible exactly if each row above it is
/// expanded.
pub proof fn law_expanded_folders_show_their_rows(
    nodes: Seq<ExplorerNode>,
    is_regex: bool,
    i: int,
)
    requires
        0 <= i < nodes.len(),
    ensures
        with_visibility(
            nodes,
            filter_of(nodes, Seq::empty(), is_regex, Set::empty(), false),
        )[i].is_visible <==> forall|a: int| #[trigger] is_above(nodes, a, i) ==> nodes[a].is_expanded,
{
}

/// The tags fit if none beyond the sixty-fourth is chosen, or if no file has tags; they do not if
/// one is and one has.
pub proof fn law_tags_that_fit(nodes: Seq<ExplorerNode>, tags: Set<u8>, t: u8, i: int)
    ensures
        (forall|x: u8| #[trigger] tags.contains(x) ==> x <= 64) ==> tags_fit(nodes, tags),
        (forall|k: int|
            0 <= k < nodes.len() ==> (#[trigger] nodes[k]).is_dir || nodes[k].tag_bitmask == 0)
            ==> tags_fit(nodes, tags),
        tags.contains(t) && t > 64 && 0 <= i < nodes.len() && !nodes[i].is_dir
            && nodes[i].tag_bitmask != 0 ==> !tags_fit(nodes, tags),
{
}

} // verus!
