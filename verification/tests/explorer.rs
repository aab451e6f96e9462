use std::collections::HashSet;

use manifest_browser::explorer::{fits_depth, ExplorerNode, FolderTreeNode};
use manifest_browser::explorer_screen::{parse_row_id, ExplorerScreen, LocaleTag};
use manifest_browser::search::{fits_given, Query};
use manifest_browser::selection::{
    select_all_visible_rows, select_visible_folder_members, selected_file_ids,
};
use manifest_browser::tree::fits_from_top;
use manifest_browser::visibility::{apply_visibility, tags_in_range, update_explorer_visibility};

fn file(id: u64, name: &str, mask: u64) -> FolderTreeNode {
    FolderTreeNode {
        id,
        name: name.to_string(),
        is_dir: false,
        size: id * 1000,
        tag_bitmask: mask,
        children: Vec::new(),
    }
}

fn folder(id: u64, name: &str, children: Vec<FolderTreeNode>) -> FolderTreeNode {
    FolderTreeNode { id, name: name.to_string(), is_dir: true, size: 0, tag_bitmask: 0, children }
}

/// game/{data/{Map.wad, Map.en_US.wad}, Game.exe}, readme.txt
fn sample_tree() -> FolderTreeNode {
    folder(
        0,
        "",
        vec![
            folder(
                1,
                "game",
                vec![
                    folder(2, "data", vec![file(3, "Map.wad", 0), file(4, "Map.en_US.wad", 1)]),
                    file(5, "Game.exe", 0),
                ],
            ),
            file(6, "readme.txt", 2),
        ],
    )
}

fn sample_rows() -> Vec<ExplorerNode> {
    let mut list = Vec::new();
    let mut seen = HashSet::new();
    manifest_browser::tree::flatten_explorer_tree(&sample_tree(), 0, 0, &mut list, &mut seen);
    list
}

fn ids(list: &[ExplorerNode]) -> Vec<u64> {
    list.iter().map(|n| n.id).collect()
}

fn visible(list: &[ExplorerNode]) -> Vec<u64> {
    list.iter().filter(|n| n.is_visible).map(|n| n.id).collect()
}

fn selected(list: &[ExplorerNode]) -> Vec<u64> {
    list.iter().filter(|n| n.is_selected).map(|n| n.id).collect()
}

fn tags(list: &[u8]) -> HashSet<u8> {
    list.iter().copied().collect()
}

#[test]
fn plain_layout_has_one_row_per_node() {
    let mut list = Vec::new();
    manifest_browser::explorer::flatten_explorer_tree(&sample_tree(), 0, 9, &mut list);
    assert_eq!(ids(&list), vec![0, 1, 2, 3, 4, 5, 6]);
    assert_eq!(list.iter().map(|n| n.depth).collect::<Vec<_>>(), vec![0, 1, 2, 3, 3, 2, 1]);
    assert_eq!(list.iter().map(|n| n.parent_id).collect::<Vec<_>>(), vec![9, 0, 1, 2, 2, 1, 0]);
    assert_eq!(list[1].child_ids, vec![2, 5]);
    assert_eq!(list[3].name, "Map.wad");
    assert_eq!(list[3].size, 3000);
    assert_eq!(list[4].tag_bitmask, 1);
    assert!(list.iter().all(|n| n.is_visible && !n.is_expanded && !n.is_selected));
}

#[test]
fn plain_layout_appends() {
    let mut list = Vec::new();
    manifest_browser::explorer::flatten_explorer_tree(&file(7, "a", 0), 4, 8, &mut list);
    manifest_browser::explorer::flatten_explorer_tree(&file(7, "a", 0), 5, 8, &mut list);
    assert_eq!(ids(&list), vec![7, 7]);
    assert_eq!(list[1].depth, 5);
}

#[test]
fn unnamed_folders_make_room_for_what_is_in_them() {
    let list = sample_rows();
    assert_eq!(ids(&list), vec![1, 2, 3, 4, 5, 6]);
    assert_eq!(list.iter().map(|n| n.depth).collect::<Vec<_>>(), vec![0, 1, 2, 2, 1, 0]);
    assert_eq!(list.iter().map(|n| n.parent_id).collect::<Vec<_>>(), vec![0, 1, 2, 2, 1, 0]);
    assert_eq!(list[0].child_ids, vec![2, 5]);
}

#[test]
fn nodes_are_laid_out_once() {
    let tree = folder(
        1,
        "a",
        vec![
            file(2, "x", 0),
            file(2, "x again", 0),
            folder(1, "a again", vec![file(9, "lost", 0)]),
            file(0, "no id", 0),
            file(0, "no id", 0),
        ],
    );
    let mut list = Vec::new();
    let mut seen = HashSet::new();
    manifest_browser::tree::flatten_explorer_tree(&tree, 0, 0, &mut list, &mut seen);
    assert_eq!(ids(&list), vec![1, 2, 0, 0]);
    let mut known: Vec<u64> = seen.iter().copied().collect();
    known.sort();
    assert_eq!(known, vec![1, 2]);
    manifest_browser::tree::flatten_explorer_tree(&tree, 0, 0, &mut list, &mut seen);
    assert_eq!(list.len(), 4);
}

#[test]
fn layouts_agree_on_regular_trees() {
    let tree = folder(1, "a", vec![folder(2, "b", vec![file(3, "c", 0)]), file(4, "d", 7)]);
    let mut plain = Vec::new();
    manifest_browser::explorer::flatten_explorer_tree(&tree, 0, 0, &mut plain);
    let mut list = Vec::new();
    let mut seen = HashSet::new();
    manifest_browser::tree::flatten_explorer_tree(&tree, 0, 0, &mut list, &mut seen);
    assert_eq!(format!("{:?}", plain), format!("{:?}", list));
}

#[test]
fn depths_must_fit() {
    let tree = sample_tree();
    assert!(fits_depth(&tree, usize::MAX - 3));
    assert!(!fits_depth(&tree, usize::MAX - 2));
}

#[test]
fn seen_nodes_are_skipped_at_any_depth() {
    let tree = folder(1, "a", vec![file(2, "b", 0)]);
    let mut list = Vec::new();
    let mut seen = HashSet::from([1u64]);
    manifest_browser::tree::flatten_explorer_tree(&tree, usize::MAX, 5, &mut list, &mut seen);
    assert!(list.is_empty());
    assert_eq!(seen, HashSet::from([1u64]));
}

#[test]
fn unnamed_folders_go_down_no_level() {
    let tree = folder(3, "", vec![file(1, "a", 0), folder(0, "", vec![file(2, "b", 0)])]);
    let mut list = Vec::new();
    let mut seen = HashSet::new();
    manifest_browser::tree::flatten_explorer_tree(&tree, usize::MAX, 5, &mut list, &mut seen);
    assert_eq!(ids(&list), vec![1, 2]);
    assert!(list.iter().all(|n| n.depth == usize::MAX && n.parent_id == 5));
    assert_eq!(seen, HashSet::from([1u64, 2, 3]));
    assert!(fits_from_top(&tree) && fits_from_top(&sample_tree()));
}

#[test]
fn collapsed_folders_hide_what_is_in_them() {
    let mut list = sample_rows();
    update_explorer_visibility(&mut list, "", false, &tags(&[]), false);
    assert_eq!(visible(&list), vec![1, 6]);
    list[0].is_expanded = true;
    update_explorer_visibility(&mut list, "", false, &tags(&[]), false);
    assert_eq!(visible(&list), vec![1, 2, 5, 6]);
    list[1].is_expanded = true;
    update_explorer_visibility(&mut list, "", false, &tags(&[]), false);
    assert_eq!(visible(&list), vec![1, 2, 3, 4, 5, 6]);
    list[0].is_expanded = false;
    update_explorer_visibility(&mut list, "", false, &tags(&[]), false);
    assert_eq!(visible(&list), vec![1, 6]);
}

#[test]
fn search_keeps_the_folders_above() {
    let mut list = sample_rows();
    update_explorer_visibility(&mut list, "map.WAD", false, &tags(&[]), false);
    assert_eq!(visible(&list), vec![1, 2, 3]);
    update_explorer_visibility(&mut list, "data", false, &tags(&[]), false);
    assert!(visible(&list).is_empty());
    update_explorer_visibility(&mut list, "EXE", false, &tags(&[]), false);
    assert_eq!(visible(&list), vec![1, 5]);
}

#[test]
fn search_ignores_expansion() {
    let mut open = sample_rows();
    for n in open.iter_mut() {
        n.is_expanded = true;
    }
    let mut closed = sample_rows();
    update_explorer_visibility(&mut open, "map", false, &tags(&[]), false);
    update_explorer_visibility(&mut closed, "map", false, &tags(&[]), false);
    assert_eq!(visible(&open), visible(&closed));
    let again = format!("{:?}", closed);
    update_explorer_visibility(&mut closed, "map", false, &tags(&[]), false);
    assert_eq!(format!("{:?}", closed), again);
}

#[test]
fn regular_expressions_ignore_case() {
    let mut list = sample_rows();
    update_explorer_visibility(&mut list, "^map\\..*_us", true, &tags(&[]), false);
    assert_eq!(visible(&list), vec![1, 2, 4]);
    update_explorer_visibility(&mut list, "^map\\..*_us", false, &tags(&[]), false);
    assert!(visible(&list).is_empty());
}

#[test]
fn malformed_expressions_are_plain_text() {
    let mut list = sample_rows();
    list[2].name = "weird(name".to_string();
    update_explorer_visibility(&mut list, "(NAME", true, &tags(&[]), false);
    assert_eq!(visible(&list), vec![1, 2, 3]);
}

#[test]
fn tags_are_joined_by_or() {
    let mut list = sample_rows();
    update_explorer_visibility(&mut list, "", false, &tags(&[1]), false);
    assert_eq!(visible(&list), vec![1, 2, 4]);
    update_explorer_visibility(&mut list, "", false, &tags(&[2]), false);
    assert_eq!(visible(&list), vec![6]);
    update_explorer_visibility(&mut list, "", false, &tags(&[1, 2]), false);
    assert_eq!(visible(&list), vec![1, 2, 4, 6]);
    update_explorer_visibility(&mut list, "", false, &tags(&[]), true);
    assert_eq!(visible(&list), vec![1, 2, 3, 5]);
    update_explorer_visibility(&mut list, "", false, &tags(&[2]), true);
    assert_eq!(visible(&list), vec![1, 2, 3, 5, 6]);
    update_explorer_visibility(&mut list, "txt", false, &tags(&[1]), false);
    assert!(visible(&list).is_empty());
    update_explorer_visibility(&mut list, "", false, &tags(&[0]), false);
    assert_eq!(visible(&list), vec![1, 2, 4]);
}

#[test]
fn highest_tag_has_a_bit() {
    let mut list = sample_rows();
    list[5].tag_bitmask = 1 << 63;
    update_explorer_visibility(&mut list, "", false, &tags(&[64]), false);
    assert_eq!(visible(&list), vec![6]);
    assert!(tags_in_range(&list, &tags(&[64])));
    assert!(!tags_in_range(&list, &tags(&[65])));
    assert!(!tags_in_range(&list, &tags(&[1, 255])));
    assert!(tags_in_range(&list[..3], &tags(&[255])));
}

#[test]
fn circles_of_parents_come_to_an_end() {
    let mut list = sample_rows();
    list[0].parent_id = 2;
    update_explorer_visibility(&mut list, "map.wad", false, &tags(&[]), false);
    assert_eq!(visible(&list), vec![1, 2, 3]);
    update_explorer_visibility(&mut list, "", false, &tags(&[]), false);
    assert_eq!(visible(&list), vec![6]);
}

#[test]
fn given_hits_decide() {
    let mut list = sample_rows();
    apply_visibility(&mut list, &vec![true, false, false, true, false, false], true, &tags(&[]), false);
    assert_eq!(visible(&list), vec![1, 2, 4]);
}

#[test]
fn queries_fit_names() {
    assert!(Query::new("", true).fits("x"));
    assert!(Query::new("ÄB", false).fits("xäby"));
    assert!(!Query::new("b+", false).fits("bbb"));
    assert!(Query::new("B+", true).fits("bbb"));
    assert!(!Query::new("^c", true).fits("bc"));
    assert!(fits_given(true, Some(false), "", ""));
    assert!(!fits_given(false, Some(false), "a", "a"));
    assert!(fits_given(false, None, "abc", "b"));
}

#[test]
fn folder_selection_reaches_what_is_visible() {
    let mut list = sample_rows();
    list[1].is_visible = false;
    select_visible_folder_members(&mut list, 1, true);
    assert_eq!(selected(&list), vec![1, 5]);
    let mut list = sample_rows();
    select_visible_folder_members(&mut list, 1, true);
    assert_eq!(selected(&list), vec![1, 2, 3, 4, 5]);
    select_visible_folder_members(&mut list, 2, false);
    assert_eq!(selected(&list), vec![1, 5]);
    assert_eq!(selected_file_ids(&list), vec![5]);
}

#[test]
fn later_folder_selection_counts() {
    let mut twice = sample_rows();
    select_visible_folder_members(&mut twice, 2, true);
    select_visible_folder_members(&mut twice, 2, false);
    assert!(selected(&twice).is_empty());
}

#[test]
fn selecting_all_leaves_hidden_rows() {
    let mut list = sample_rows();
    list[3].is_visible = false;
    list[4].is_visible = false;
    list[4].is_selected = true;
    select_all_visible_rows(&mut list, true);
    assert_eq!(selected(&list), vec![1, 2, 3, 5, 6]);
    select_all_visible_rows(&mut list, false);
    assert_eq!(selected(&list), vec![5]);
    assert_eq!(selected_file_ids(&list), vec![5]);
}

fn sample_tags() -> Vec<LocaleTag> {
    vec![
        LocaleTag { id: 1, name: Some("en_US".to_string()) },
        LocaleTag { id: 9, name: None },
        LocaleTag { id: 2, name: Some("de_DE".to_string()) },
        LocaleTag { id: 3, name: Some("de_DE".to_string()) },
    ]
}

fn sample_explorer() -> ExplorerScreen {
    let mut screen = ExplorerScreen::new();
    screen.set_search("left over");
    screen.toggle_regex();
    screen.toggle_language("none");
    screen.open(&sample_tree(), sample_tags());
    screen
}

fn pills(screen: &ExplorerScreen) -> Vec<(String, bool)> {
    screen.language_pills().into_iter().map(|p| (p.name, p.selected)).collect()
}

#[test]
fn opening_a_release_starts_afresh() {
    let screen = sample_explorer();
    assert_eq!(screen.search, "");
    assert!(!screen.is_regex && !screen.none_tag);
    assert!(screen.selected_tags.is_empty());
    assert_eq!(ids(&screen.nodes), vec![1, 2, 3, 4, 5, 6]);
    assert_eq!(screen.drawn_rows().len(), 6);
}

#[test]
fn languages_are_toggled_by_name() {
    let mut screen = sample_explorer();
    assert_eq!(
        pills(&screen),
        vec![
            ("none".to_string(), false),
            ("en_US".to_string(), false),
            ("de_DE".to_string(), false),
            ("de_DE".to_string(), false)
        ]
    );
    screen.toggle_language("de_DE");
    assert_eq!(screen.selected_tags, tags(&[2]));
    assert!(pills(&screen)[2].1 && !pills(&screen)[3].1);
    screen.toggle_language("unknown");
    assert_eq!(screen.selected_tags, tags(&[2]));
    screen.toggle_language("");
    assert_eq!(screen.selected_tags, tags(&[2, 9]));
    screen.toggle_language("");
    screen.toggle_language("de_DE");
    assert!(screen.selected_tags.is_empty());
    screen.toggle_language("none");
    assert!(screen.none_tag && pills(&screen)[0].1);
}

#[test]
fn screen_updates_what_is_shown() {
    let mut screen = sample_explorer();
    assert!(screen.can_update_visibility());
    screen.run_visibility_update();
    assert_eq!(visible(&screen.nodes), vec![1, 6]);
    screen.toggle_expansion("1");
    screen.run_visibility_update();
    assert_eq!(visible(&screen.nodes), vec![1, 2, 5, 6]);
    screen.toggle_expansion("nonsense");
    screen.toggle_expansion("1");
    screen.run_visibility_update();
    assert_eq!(visible(&screen.nodes), vec![1, 6]);
    screen.set_search("\\.exe$");
    assert!(screen.toggle_regex());
    screen.run_visibility_update();
    assert_eq!(visible(&screen.nodes), vec![1, 5]);
    assert!(!screen.toggle_regex());
    screen.run_visibility_update();
    assert!(visible(&screen.nodes).is_empty());
}

#[test]
fn screen_selects_rows_for_extraction() {
    let mut screen = sample_explorer();
    screen.toggle_selection("2", true);
    assert_eq!(screen.files_to_extract(), vec![3, 4]);
    screen.toggle_selection("4", false);
    assert_eq!(screen.files_to_extract(), vec![3]);
    screen.toggle_selection("77", true);
    assert_eq!(screen.files_to_extract(), vec![3]);
    screen.select_all(true);
    assert_eq!(screen.files_to_extract(), vec![3, 4, 5, 6]);
    screen.select_all(false);
    assert!(screen.files_to_extract().is_empty());
}

#[test]
fn rows_are_drawn_with_id_and_size() {
    let mut screen = sample_explorer();
    screen.run_visibility_update();
    let rows = screen.drawn_rows();
    assert_eq!(rows.len(), 2);
    assert_eq!(rows[0].id, "1");
    assert!(rows[0].is_dir && !rows[0].is_expanded && !rows[0].is_selected);
    assert_eq!(rows[1].id, "6");
    assert_eq!(rows[1].name, "readme.txt");
    assert_eq!(rows[1].depth, 0);
    assert_eq!(rows[1].size_str, "5.9 KB");
    assert_eq!(parse_row_id(&rows[1].id), 6);
    assert_eq!(parse_row_id("x"), 0);
}

#[test]
fn rows_stay_what_they_are() {
    let mut screen = sample_explorer();
    screen.toggle_expansion("1");
    screen.set_search("map");
    screen.run_visibility_update();
    screen.toggle_selection("2", true);
    screen.select_all(true);
    let mut expected = sample_rows();
    for (row, now) in expected.iter_mut().zip(screen.nodes.iter()) {
        row.is_expanded = now.is_expanded;
        row.is_selected = now.is_selected;
        row.is_visible = now.is_visible;
    }
    assert_eq!(format!("{:?}", expected), format!("{:?}", screen.nodes));
}

#[test]
fn second_click_on_a_folder_collapses_it_again() {
    let mut screen = sample_explorer();
    let before = format!("{:?}", screen.nodes);
    screen.toggle_expansion("2");
    assert!(screen.nodes[1].is_expanded);
    screen.toggle_expansion("2");
    assert_eq!(format!("{:?}", screen.nodes), before);
}
