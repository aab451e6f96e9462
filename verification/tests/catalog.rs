use manifest_browser::catalog::{
    build_game_cache, build_manifest_cache, cache_manifest, catalog_is_displayable, format_date,
    is_datable, is_shortenable, shorten_realms, shorten_version, CatalogEntry, CatalogManager, GameCache,
};
use manifest_browser::catalog_screen::{
    make_pills, matches_lowered, toggle_choice, CatalogScreen, Click, MAX_DISPLAY_ROWS,
};
use manifest_browser::text::includes;

fn strings(list: &[&str]) -> Vec<String> {
    list.iter().map(|s| s.to_string()).collect()
}

fn entry(version: &str, realms: &[&str], timestamp: &str) -> CatalogEntry {
    CatalogEntry {
        version: version.to_string(),
        realms: strings(realms),
        platform: None,
        platforms: None,
        artifact_type: None,
        timestamp: timestamp.to_string(),
        size: 2048,
    }
}

fn sample_game() -> Vec<(String, CatalogEntry)> {
    let mut first = entry("14.1.1", &["EUW1", "NA1"], "2024-01-10T00:00:00+00:00");
    first.platforms = Some(strings(&["windows", "macos"]));
    let mut second = entry("14.10.600.1234567", &["KR", "EUW1", "NA1", "BR1"], "2024-05-15T00:00:00+00:00");
    second.platform = Some("windows".to_string());
    second.artifact_type = Some("lol-standalone-client-content".to_string());
    let mut third = entry("13.24", &["PBE1"], "2023-12-06T00:00:00+00:00");
    third.artifact_type = Some("default".to_string());
    vec![
        ("AAAA000000000001".to_string(), first),
        ("BBBB000000000002".to_string(), second),
        ("CCCC000000000003".to_string(), third),
    ]
}

fn sample_screen() -> CatalogScreen {
    let mut screen = CatalogScreen::new();
    screen.set_games(build_manifest_cache(&vec![
        ("valorant".to_string(), Vec::new()),
        ("lol".to_string(), sample_game()),
    ]));
    screen
}

fn row_ids(screen: &CatalogScreen) -> Vec<String> {
    screen.rows().into_iter().map(|r| r.id).collect()
}

#[test]
fn platforms_fall_back_to_neutral() {
    let mut e = entry("1", &[], "");
    assert_eq!(e.get_platforms(), vec!["neutral"]);
    e.platform = Some("windows".to_string());
    assert_eq!(e.get_platforms(), vec!["windows"]);
    e.platforms = Some(strings(&["macos", "ios"]));
    assert_eq!(e.get_platforms(), vec!["macos", "ios"]);
    e.platforms = Some(Vec::new());
    assert!(e.get_platforms().is_empty());
}

#[test]
fn dates_are_day_month_year() {
    assert_eq!(format_date("2026-01-15T03:20:21+00:00"), "15/01/26");
    assert_eq!(format_date("2026-01-15"), "15/01/26");
    assert_eq!(format_date("2026-01-1"), "??/??/??");
    assert_eq!(format_date(""), "??/??/??");
    assert_eq!(format_date("2026/01/15T"), "??/??/??");
    assert_eq!(format_date("20-26-01-15"), "??/??/??");
    assert_eq!(format_date("123456-7-8"), "8/7/3456");
    assert_eq!(format_date("äöü-1-2567"), "2/1/öü");
}

#[test]
fn versions_are_shortened_after_sixteen_bytes() {
    assert_eq!(shorten_version("1234567890123456"), "1234567890123456");
    assert_eq!(shorten_version("12345678901234567"), "12345678901234...");
    assert_eq!(shorten_version(""), "");
}

#[test]
fn realms_are_shortened_after_three() {
    assert_eq!(shorten_realms(&strings(&[])), "");
    assert_eq!(shorten_realms(&strings(&["a", "b", "c"])), "a, b, c");
    assert_eq!(shorten_realms(&strings(&["a", "b", "c", "d"])), "a, b (+2)");
}

#[test]
fn manifests_are_made_ready_for_display() {
    let game = sample_game();
    let m = cache_manifest(&game[1].0, &game[1].1);
    assert_eq!(m.id, "BBBB000000000002");
    assert_eq!(m.version, "14.10.600.1234567");
    assert_eq!(m.version_short, "14.10.600.1234...");
    assert_eq!(m.realms, vec!["KR", "EUW1", "NA1", "BR1"]);
    assert_eq!(m.realms_short, "KR, EUW1 (+2)");
    assert_eq!(m.platforms, vec!["windows"]);
    assert_eq!(m.artifact_type, "lol-standalone-client-content");
    assert_eq!(m.date_str, "15/05/24");
    assert_eq!(m.size_str, "2.0 KB");
    assert_eq!(m.size, 2048);
    assert_eq!(m.timestamp, "2024-05-15T00:00:00+00:00");
    assert_eq!(cache_manifest(&game[0].0, &game[0].1).artifact_type, "default");
}

#[test]
fn caches_are_newest_first_with_sorted_filters() {
    let cache: GameCache = build_game_cache(&sample_game());
    let ids: Vec<&str> = cache.manifests.iter().map(|m| m.id.as_str()).collect();
    assert_eq!(ids, vec!["BBBB000000000002", "AAAA000000000001", "CCCC000000000003"]);
    assert_eq!(cache.unique_platforms, vec!["macos", "neutral", "windows"]);
    assert_eq!(cache.unique_realms, vec!["BR1", "EUW1", "KR", "NA1", "PBE1"]);
    assert_eq!(cache.unique_artifacts, vec!["lol-standalone-client-content"]);
}

#[test]
fn caches_do_not_depend_on_the_listing_order() {
    let mut reversed = sample_game();
    reversed.reverse();
    let a = build_game_cache(&sample_game());
    let b = build_game_cache(&reversed);
    assert_eq!(format!("{:?}", a), format!("{:?}", b));
}

#[test]
fn games_are_cached_one_by_one() {
    let catalog = vec![("lol".to_string(), sample_game()), ("bacon".to_string(), Vec::new())];
    assert!(catalog_is_displayable(&catalog));
    let caches = build_manifest_cache(&catalog);
    assert_eq!(caches.len(), 2);
    assert_eq!(caches[0].0, "lol");
    assert_eq!(caches[0].1.manifests.len(), 3);
    assert_eq!(caches[1].0, "bacon");
    assert!(caches[1].1.manifests.is_empty());
}

#[test]
fn entries_that_cannot_be_cut_are_recognised() {
    let cases = [
        ("1234567890123é567", "2026-01-15", false),
        ("123456789012é4567", "2026-01-15", true),
        ("1", "2026-01-1é", false),
        ("1", "1-2-345678", false),
        ("1", "12-3-45678", true),
        ("1", "1é-2-345678", false),
        ("1", "short", true),
    ];
    for (version, stamp, fine) in cases {
        let e = entry(version, &[], stamp);
        assert_eq!(e.is_displayable(), fine);
        let catalog = vec![("g".to_string(), vec![("x".to_string(), e)])];
        assert_eq!(catalog_is_displayable(&catalog), fine);
    }
}

#[test]
fn catalog_has_its_place() {
    let m = CatalogManager::new();
    assert_eq!(m.local_path, "catalog.json");
    assert_eq!(
        m.url,
        "https://raw.githubusercontent.com/RiotArchiveProject/catalog-download-script/refs/heads/main/catalog.json"
    );
}

#[test]
fn screen_starts_with_league_of_legends() {
    let screen = CatalogScreen::new();
    assert_eq!(screen.active_game, "lol");
    assert!(screen.rows().is_empty());
    assert!(screen.pills().is_none());
}

#[test]
fn search_looks_at_id_version_and_realms_without_case() {
    let mut screen = sample_screen();
    assert_eq!(row_ids(&screen).len(), 3);
    screen.set_search("bbbb");
    assert_eq!(row_ids(&screen), vec!["BBBB000000000002"]);
    screen.set_search("14.1");
    assert_eq!(row_ids(&screen), vec!["BBBB000000000002", "AAAA000000000001"]);
    screen.set_search("pbe");
    assert_eq!(row_ids(&screen), vec!["CCCC000000000003"]);
    screen.set_search("nothing");
    assert!(row_ids(&screen).is_empty());
}

#[test]
fn lowered_texts_are_searched_as_they_are() {
    let realms = strings(&["euw1"]);
    assert!(matches_lowered("a", "b", &realms, ""));
    assert!(matches_lowered("a", "b", &realms, "uw"));
    assert!(matches_lowered("a", "b", &realms, "b"));
    assert!(!matches_lowered("a", "b", &realms, "c"));
}

#[test]
fn filters_are_joined_by_and_their_values_by_or() {
    let mut screen = sample_screen();
    screen.toggle_realm("NA1");
    assert_eq!(row_ids(&screen), vec!["BBBB000000000002", "AAAA000000000001"]);
    screen.toggle_platform("macos");
    assert_eq!(row_ids(&screen), vec!["AAAA000000000001"]);
    screen.toggle_platform("macos");
    screen.toggle_realm("PBE1");
    assert_eq!(row_ids(&screen).len(), 3);
    screen.toggle_artifact("default");
    assert_eq!(row_ids(&screen), vec!["AAAA000000000001", "CCCC000000000003"]);
}

#[test]
fn changing_the_game_clears_its_filters() {
    let mut screen = sample_screen();
    screen.toggle_realm("NA1");
    screen.toggle_platform("macos");
    screen.toggle_artifact("default");
    screen.set_search("x");
    screen.select_game("valorant");
    assert_eq!(screen.active_game, "valorant");
    assert!(screen.realms.is_empty() && screen.platforms.is_empty() && screen.artifacts.is_empty());
    assert_eq!(screen.query, "x");
    assert!(screen.rows().is_empty());
    assert!(screen.pills().is_some());
}

#[test]
fn pills_show_what_is_chosen() {
    let mut screen = sample_screen();
    screen.toggle_platform("windows");
    let pills = screen.pills().unwrap();
    let platforms: Vec<(String, bool)> =
        pills.platforms.into_iter().map(|p| (p.name, p.selected)).collect();
    assert_eq!(
        platforms,
        vec![
            ("macos".to_string(), false),
            ("neutral".to_string(), false),
            ("windows".to_string(), true)
        ]
    );
    assert_eq!(pills.realms.len(), 5);
    assert!(pills.show_artifacts);
    screen.select_game("valorant");
    assert!(!screen.pills().unwrap().show_artifacts);
    assert!(make_pills(&Vec::new(), &strings(&["a"])).is_empty());
}

#[test]
fn games_and_manifests_are_found_by_name() {
    let mut screen = sample_screen();
    assert_eq!(screen.games.len(), 2);
    for row in screen.rows() {
        match screen.click(&row.id, 1000) {
            Click::Preview(Some(item)) => assert_eq!(item.version_full, row.version_full),
            _ => panic!("no preview"),
        }
    }
    let mut ids = row_ids(&screen);
    ids.sort();
    ids.dedup();
    assert_eq!(ids.len(), 3);
}

#[test]
fn second_click_on_a_pill_undoes_the_first() {
    let mut chosen = strings(&["a", "c"]);
    toggle_choice(&mut chosen, "b");
    assert_eq!(chosen.len(), 3);
    assert!(includes(&chosen, "a") && includes(&chosen, "b") && includes(&chosen, "c"));
    toggle_choice(&mut chosen, "b");
    assert_eq!(chosen, vec!["a", "c"]);
    toggle_choice(&mut chosen, "a");
    assert_eq!(chosen, vec!["c"]);
}

#[test]
fn every_offered_value_leads_to_rows() {
    let mut screen = sample_screen();
    for p in screen.pills().unwrap().platforms {
        screen.toggle_platform(&p.name);
        assert!(!screen.rows().is_empty());
        screen.toggle_platform(&p.name);
    }
    for r in screen.pills().unwrap().realms {
        screen.toggle_realm(&r.name);
        assert!(!screen.rows().is_empty());
        screen.toggle_realm(&r.name);
    }
    for a in screen.pills().unwrap().artifacts {
        screen.toggle_artifact(&a.name);
        assert!(!screen.rows().is_empty());
        screen.toggle_artifact(&a.name);
    }
}

#[test]
fn texts_that_cannot_be_cut_are_recognised() {
    assert!(is_shortenable("14.10.600.1234567"));
    assert!(!is_shortenable("1234567890123é567"));
    assert!(is_datable("2026-01-15T03:20:21+00:00"));
    assert!(!is_datable("2026-01-1é"));
}

#[test]
fn table_has_at_most_three_hundred_rows() {
    let mut game = Vec::new();
    for i in 0..301u32 {
        game.push((format!("{:04}", i), entry("1", &[], "2024-01-10")));
    }
    let mut screen = CatalogScreen::new();
    screen.set_games(build_manifest_cache(&vec![("lol".to_string(), game)]));
    assert_eq!(MAX_DISPLAY_ROWS, 300);
    assert_eq!(screen.rows().len(), 300);
    screen.set_search("00");
    assert_eq!(screen.rows().len(), 103);
}

#[test]
fn rows_have_short_and_full_texts() {
    let row = sample_screen().rows().remove(0);
    assert_eq!(row.version_short, "14.10.600.1234...");
    assert_eq!(row.version_full, "14.10.600.1234567");
    assert_eq!(row.realms, "KR, EUW1 (+2)");
    assert_eq!(row.realms_full, "KR, EUW1, NA1, BR1");
    assert_eq!(row.platforms, "windows");
    assert_eq!(row.date_str, "15/05/24");
    assert_eq!(row.size_str, "2.0 KB");
    assert!(!row.is_cached);
}

#[test]
fn clicks_preview_and_double_clicks_open() {
    let mut screen = sample_screen();
    match screen.click("BBBB000000000002", 0) {
        Click::Preview(Some(item)) => {
            assert_eq!(item.id, "BBBB000000000002");
            assert_eq!(item.version_short, "");
            assert_eq!(item.realms, "KR, EUW1, NA1, BR1");
        }
        _ => panic!("no preview"),
    }
    assert!(matches!(screen.click("BBBB000000000002", 299), Click::Open));
    assert!(matches!(screen.click("BBBB000000000002", 300), Click::Preview(Some(_))));
    assert!(matches!(screen.click("unknown", 10), Click::Preview(None)));
    assert_eq!(screen.last_click, "unknown");
    screen.select_game("missing");
    assert!(matches!(screen.click("BBBB000000000002", 10), Click::Preview(None)));
}
