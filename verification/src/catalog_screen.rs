//! The screen on which a release is chosen: the active game, the search and the filters, and the
//! table that they leave.

use vstd::prelude::*;

use crate::catalog::{
    cache_names, cached, cached_ids, caches, law_cache_is_complete, lemma_push_contains,
    manifest_views, CachedManifest, EntryView, GameCache,
    GameView, ManifestView,
};
use crate::search::{lowercase, to_lowercase};
use crate::text::{contains, contains_text, includes, join, joined, same_text, texts};

verus! {

/// How many rows the table has at most.
pub const MAX_DISPLAY_ROWS: usize = 300;

/// How soon, in milliseconds, a second click on a row must follow to count as a double click.
pub const DOUBLE_CLICK_MS: u64 = 300;

/// A value that a filter offers, and whether it is chosen.
pub struct FilterPill {
    pub name: String,
    pub selected: bool,
}

/// What pills say.
pub open spec fn pill_views(pills: Seq<FilterPill>) -> Seq<(Seq<char>, bool)> {
    pills.map_values(|p: FilterPill| (p.name@, p.selected))
}

/// The pills of a filter: its values in order, each with whether it is chosen.
pub open spec fn pills_for(names: Seq<Seq<char>>, chosen: Seq<Seq<char>>) -> Seq<
    (Seq<char>, bool),
> {
    names.map_values(|n: Seq<char>| (n, chosen.contains(n)))
}

/// The pills of a filter.
pub fn make_pills(names: &Vec<String>, chosen: &Vec<String>) -> (pills: Vec<FilterPill>)
    ensures
        pill_views(pills@) == pills_for(texts(names@), texts(chosen@)),
{
    let mut pills: Vec<FilterPill> = Vec::new();
    let mut i: usize = 0;
    let ghost goal = pills_for(texts(names@), texts(chosen@));
    while i < names.len()
        invariant
            i <= names@.len(),
            goal == pills_for(texts(names@), texts(chosen@)),
            pill_views(pills@) == goal.take(i as int),
        decreases names.len() - i,
    {
        let ghost before = pill_views(pills@);
        let pill = FilterPill {
            name: names[i].clone(),
            selected: includes(chosen, names[i].as_str()),
        };
        assert((pill.name@, pill.selected) == goal[i as int]);
        pills.push(pill);
        assert(pill_views(pills@) == before.push(goal[i as int]));
        assert(goal.take(i + 1) == goal.take(i as int).push(goal[i as int]));
        i = i + 1;
    }
    assert(goal.take(i as int) == goal);
    pills
}

/// The values chosen after one of them was clicked: that one is chosen now if it was not, and not
/// if it was.
pub open spec fn toggled(chosen: Set<Seq<char>>, name: Seq<char>) -> Set<Seq<char>> {
    if chosen.contains(name) {
        chosen.remove(name)
    } else {
        chosen.insert(name)
    }
}

/// The values of a list.
pub open spec fn values(list: Seq<String>) -> Set<Seq<char>> {
    texts(list).to_set()
}

/// Chooses a value, or no longer chooses it.
pub fn toggle_choice(chosen: &mut Vec<String>, name: &str)
    ensures
        values(final(chosen)@) == toggled(values(old(chosen)@), name@),
{
    if !includes(chosen, name) {
        let ghost before = texts(chosen@);
        chosen.push(name.to_owned());
        proof {
            let after = texts(chosen@);
            assert(after == before.push(name@));
            lemma_push_contains(before, name@);
            assert(after.to_set() =~= before.to_set().insert(name@));
        }
        return ;
    }
    let mut kept: Vec<String> = Vec::new();
    let mut i: usize = 0;
    let ghost all = texts(chosen@);
    while i < chosen.len()
        invariant
            i <= chosen@.len(),
            all == texts(chosen@),
            forall|t: Seq<char>|
                texts(kept@).contains(t) <==> all.take(i as int).contains(t) && t != name@,
        decreases chosen.len() - i,
    {
        let ghost before = texts(kept@);
        let ghost seen = all.take(i as int);
        let keep = !same_text(chosen[i].as_str(), name);
        if keep {
            kept.push(chosen[i].clone());
        }
        proof {
            let value = all[i as int];
            assert(all.take(i + 1) == seen.push(value));
            assert(texts(kept@) == if keep { before.push(value) } else { before });
            lemma_push_contains(seen, value);
            lemma_push_contains(before, value);
        }
        i = i + 1;
    }
    proof {
        assert(all.take(i as int) == all);
        assert(texts(kept@).to_set() =~= all.to_set().remove(name@));
    }
    *chosen = kept;
}

/// A value clicked twice leaves the choice as it was.
pub proof fn law_second_click_undoes_first(chosen: Set<Seq<char>>, name: Seq<char>)
    ensures
        toggled(toggled(chosen, name), name) == chosen,
{
    assert(toggled(toggled(chosen, name), name) =~= chosen);
}

/// What is searched and filtered for.
pub struct Wanted {
    pub query: Seq<char>,
    pub platforms: Seq<Seq<char>>,
    pub realms: Seq<Seq<char>>,
    pub artifacts: Seq<Seq<char>>,
}

/// A lower-case query is contained in the id, in the version or in one of the realms, given in
/// lower case; the empty one always is.
pub open spec fn lowered_match(
    id: Seq<char>,
    version: Seq<char>,
    realms: Seq<Seq<char>>,
    query: Seq<char>,
) -> bool {
    ||| query.len() == 0
    ||| contains_text(id, query)
    ||| contains_text(version, query)
    ||| exists|i: int| 0 <= i < realms.len() && contains_text(#[trigger] realms[i], query)
}

/// Some value of the list is chosen, or none is.
pub open spec fn any_chosen(values: Seq<Seq<char>>, chosen: Seq<Seq<char>>) -> bool {
    chosen.len() == 0 || exists|i: int|
        0 <= i < values.len() && chosen.contains(#[trigger] values[i])
}

impl Wanted {
    /// A manifest passes the search and every filter in which something is chosen.
    pub open spec fn admits(self, m: ManifestView) -> bool {
        &&& lowered_match(
            lowercase(m.id),
            lowercase(m.version),
            m.realms.map_values(|r: Seq<char>| lowercase(r)),
            lowercase(self.query),
        )
        &&& any_chosen(m.platforms, self.platforms)
        &&& any_chosen(m.realms, self.realms)
        &&& self.artifacts.len() == 0 || self.artifacts.contains(m.artifact_type)
    }

    /// The manifests that pass, in order.
    pub open spec fn admitted(self, list: Seq<ManifestView>) -> Seq<ManifestView>
        decreases list.len(),
    {
        if list.len() == 0 {
            Seq::empty()
        } else {
            let before = self.admitted(list.drop_last());
            if self.admits(list.last()) {
                before.push(list.last())
            } else {
                before
            }
        }
    }

    /// The manifests of the table: those that pass, in order, but no more than fit.
    pub open spec fn table(self, list: Seq<ManifestView>) -> Seq<ManifestView> {
        let all = self.admitted(list);
        if all.len() > MAX_DISPLAY_ROWS {
            all.take(MAX_DISPLAY_ROWS as int)
        } else {
            all
        }
    }
}

/// Whether a lower-case query is contained in the id, in the version or in one of the realms, all
/// in lower case.
pub fn matches_lowered(id: &str, version: &str, realms: &Vec<String>, query: &str) -> (res: bool)
    ensures
        res == lowered_match(id@, version@, texts(realms@), query@),
{
    if query.is_empty() || contains(id, query) || contains(version, query) {
        return true;
    }
    let mut i: usize = 0;
    while i < realms.len()
        invariant
            i <= realms@.len(),
            query@.len() > 0,
            forall|k: int| 0 <= k < i ==> !contains_text(#[trigger] texts(realms@)[k], query@),
        decreases realms.len() - i,
    {
        if contains(realms[i].as_str(), query) {
            assert(contains_text(texts(realms@)[i as int], query@));
            return true;
        }
        i = i + 1;
    }
    false
}

fn lowered(list: &Vec<String>) -> (res: Vec<String>)
    ensures
        texts(res@) == texts(list@).map_values(|r: Seq<char>| lowercase(r)),
{
    let mut res: Vec<String> = Vec::new();
    let mut i: usize = 0;
    let ghost goal = texts(list@).map_values(|r: Seq<char>| lowercase(r));
    while i < list.len()
        invariant
            i <= list@.len(),
            goal == texts(list@).map_values(|r: Seq<char>| lowercase(r)),
            texts(res@) == goal.take(i as int),
        decreases list.len() - i,
    {
        let ghost before = texts(res@);
        res.push(to_lowercase(list[i].as_str()));
        assert(texts(res@) == before.push(goal[i as int]));
        i = i + 1;
    }
    assert(goal.take(i as int) == goal);
    res
}

fn has_chosen(values: &Vec<String>, chosen: &Vec<String>) -> (res: bool)
    ensures
        res == any_chosen(texts(values@), texts(chosen@)),
{
    assert(texts(chosen@).len() == chosen@.len());
    if chosen.is_empty() {
        return true;
    }
    let mut i: usize = 0;
    while i < values.len()
        invariant
            i <= values@.len(),
            texts(chosen@).len() > 0,
            forall|k: int|
                0 <= k < i ==> !texts(chosen@).contains(#[trigger] texts(values@)[k]),
        decreases values.len() - i,
    {
        if includes(chosen, values[i].as_str()) {
            assert(texts(chosen@).contains(texts(values@)[i as int]));
            return true;
        }
        i = i + 1;
    }
    false
}

/// A row of the table of manifests, and what the preview shows of one.
pub struct ManifestItem {
    pub id: String,
    pub version_short: String,
    pub version_full: String,
    pub realms: String,
    pub realms_full: String,
    pub platforms: String,
    pub date_str: String,
    pub size_str: String,
    pub is_cached: bool,
}

/// What a row of the table says.
pub struct ItemView {
    pub id: Seq<char>,
    pub version_short: Seq<char>,
    pub version_full: Seq<char>,
    pub realms: Seq<char>,
    pub realms_full: Seq<char>,
    pub platforms: Seq<char>,
    pub date_str: Seq<char>,
    pub size_str: Seq<char>,
    pub is_cached: bool,
}

impl View for ManifestItem {
    type V = ItemView;

    open spec fn view(&self) -> ItemView {
        ItemView {
            id: self.id@,
            version_short: self.version_short@,
            version_full: self.version_full@,
            realms: self.realms@,
            realms_full: self.realms_full@,
            platforms: self.platforms@,
            date_str: self.date_str@,
            size_str: self.size_str@,
            is_cached: self.is_cached,
        }
    }
}

/// What the rows of a table say.
pub open spec fn item_views(items: Seq<ManifestItem>) -> Seq<ItemView> {
    items.map_values(|i: ManifestItem| i@)
}

/// The row of a manifest: the realms shortened, and in full beside it.
pub open spec fn row_item(m: ManifestView) -> ItemView {
    ItemView {
        id: m.id,
        version_short: m.version_short,
        version_full: m.version,
        realms: m.realms_short,
        realms_full: joined(m.realms, ", "@),
        platforms: joined(m.platforms, ", "@),
        date_str: m.date_str,
        size_str: m.size_str,
        is_cached: false,
    }
}

/// The preview of a manifest: all realms, and no short version.
pub open spec fn preview_item(m: ManifestView) -> ItemView {
    ItemView {
        version_short: Seq::empty(),
        realms: joined(m.realms, ", "@),
        ..row_item(m)
    }
}

fn make_row(m: &CachedManifest) -> (res: ManifestItem)
    ensures
        res@ == row_item(m@),
{
    ManifestItem {
        id: m.id.clone(),
        version_short: m.version_short.clone(),
        version_full: m.version.clone(),
        realms: m.realms_short.clone(),
        realms_full: join(&m.realms, ", "),
        platforms: join(&m.platforms, ", "),
        date_str: m.date_str.clone(),
        size_str: m.size_str.clone(),
        is_cached: false,
    }
}

fn make_preview(m: &CachedManifest) -> (res: ManifestItem)
    ensures
        res@ == preview_item(m@),
{
    ManifestItem {
        id: m.id.clone(),
        version_short: String::new(),
        version_full: m.version.clone(),
        realms: join(&m.realms, ", "),
        realms_full: join(&m.realms, ", "),
        platforms: join(&m.platforms, ", "),
        date_str: m.date_str.clone(),
        size_str: m.size_str.clone(),
        is_cached: false,
    }
}

/// The first manifest with the given id.
pub open spec fn manifest_with_id(list: Seq<ManifestView>, id: Seq<char>) -> Option<ManifestView>
    decreases list.len(),
{
    if list.len() == 0 {
        None
    } else {
        match manifest_with_id(list.drop_last(), id) {
            Some(m) => Some(m),
            None => if list.last().id == id {
                Some(list.last())
            } else {
                None
            },
        }
    }
}

/// The cache of the first game with the given name.
pub open spec fn game_with_name(games: Seq<(String, GameCache)>, name: Seq<char>) -> Option<
    GameCache,
>
    decreases games.len(),
{
    if games.len() == 0 {
        None
    } else {
        match game_with_name(games.drop_last(), name) {
            Some(g) => Some(g),
            None => if games.last().0@ == name {
                Some(games.last().1)
            } else {
                None
            },
        }
    }
}

/// The pills of all filters of a game.
pub struct PillModels {
    pub platforms: Vec<FilterPill>,
    pub realms: Vec<FilterPill>,
    pub artifacts: Vec<FilterPill>,
    /// The artifact filter is shown: it offers something.
    pub show_artifacts: bool,
}

/// What the pills of all filters of a game say.
pub struct PillsView {
    pub platforms: Seq<(Seq<char>, bool)>,
    pub realms: Seq<(Seq<char>, bool)>,
    pub artifacts: Seq<(Seq<char>, bool)>,
    pub show_artifacts: bool,
}

impl View for PillModels {
    type V = PillsView;

    open spec fn view(&self) -> PillsView {
        PillsView {
            platforms: pill_views(self.platforms@),
            realms: pill_views(self.realms@),
            artifacts: pill_views(self.artifacts@),
            show_artifacts: self.show_artifacts,
        }
    }
}

/// A click counts as a double click: it follows one on the same row soon enough.
pub open spec fn is_double_click(last: Seq<char>, id: Seq<char>, since_last: int) -> bool {
    last == id && since_last < DOUBLE_CLICK_MS
}

/// What follows a click on a row.
pub enum Click {
    /// The release is opened in the explorer.
    Open,
    /// The row is the active one, and its manifest, if the game has it, is previewed.
    Preview(Option<ManifestItem>),
}

/// The state of the screen.
pub struct CatalogScreen {
    pub games: Vec<(String, GameCache)>,
    pub active_game: String,
    pub query: String,
    pub platforms: Vec<String>,
    pub realms: Vec<String>,
    pub artifacts: Vec<String>,
    /// The row that was clicked last.
    pub last_click: String,
}

impl CatalogScreen {
    /// The cache of the active game, if it is there.
    pub open spec fn game(self) -> Option<GameCache> {
        game_with_name(self.games@, self.active_game@)
    }

    /// What is searched and filtered for.
    pub open spec fn wanted(self) -> Wanted {
        Wanted {
            query: self.query@,
            platforms: texts(self.platforms@),
            realms: texts(self.realms@),
            artifacts: texts(self.artifacts@),
        }
    }

    /// The pills of the filters of the active game.
    pub open spec fn offered(self) -> Option<PillsView> {
        match self.game() {
            Some(game) => Some(
                PillsView {
                    platforms: pills_for(texts(game.unique_platforms@), texts(self.platforms@)),
                    realms: pills_for(texts(game.unique_realms@), texts(self.realms@)),
                    artifacts: pills_for(texts(game.unique_artifacts@), texts(self.artifacts@)),
                    show_artifacts: game.unique_artifacts@.len() > 0,
                },
            ),
            None => None,
        }
    }

    /// The rows of the table.
    pub open spec fn shown(self) -> Seq<ItemView> {
        match self.game() {
            Some(game) => self.wanted().table(manifest_views(game.manifests@)).map_values(
                |m: ManifestView| row_item(m),
            ),
            None => Seq::empty(),
        }
    }

    /// The preview of the manifest with the given id, if the active game has it.
    pub open spec fn previewed(self, id: Seq<char>) -> Option<ItemView> {
        match self.game() {
            Some(game) => match manifest_with_id(manifest_views(game.manifests@), id) {
                Some(m) => Some(preview_item(m)),
                None => None,
            },
            None => None,
        }
    }

    /// The screen at the start: League of Legends, nothing loaded, searched or chosen.
    pub fn new() -> (res: Self)
        ensures
            res.games@.len() == 0,
            res.active_game@ == "lol"@,
            res.query@.len() == 0,
            res.platforms@.len() == 0,
            res.realms@.len() == 0,
            res.artifacts@.len() == 0,
            res.last_click@.len() == 0,
    {
        CatalogScreen {
            games: Vec::new(),
            active_game: "lol".to_owned(),
            query: String::new(),
            platforms: Vec::new(),
            realms: Vec::new(),
            artifacts: Vec::new(),
            last_click: String::new(),
        }
    }

    /// Takes over a newly built cache.
    pub fn set_games(&mut self, games: Vec<(String, GameCache)>)
        ensures
            *final(self) == (CatalogScreen { games, ..*old(self) }),
    {
        self.games = games;
    }

    /// Changes the game: nothing is chosen in its filters.
    pub fn select_game(&mut self, name: &str)
        ensures
            final(self).active_game@ == name@,
            final(self).platforms@.len() == 0,
            final(self).realms@.len() == 0,
            final(self).artifacts@.len() == 0,
            final(self).games == old(self).games,
            final(self).query == old(self).query,
            final(self).last_click == old(self).last_click,
    {
        self.active_game = name.to_owned();
        self.platforms.clear();
        self.realms.clear();
        self.artifacts.clear();
    }

    /// Changes what is searched for.
    pub fn set_search(&mut self, text: &str)
        ensures
            final(self).query@ == text@,
            *final(self) == (CatalogScreen { query: final(self).query, ..*old(self) }),
    {
        self.query = text.to_owned();
    }

    /// A platform was clicked.
    pub fn toggle_platform(&mut self, name: &str)
        ensures
            values(final(self).platforms@) == toggled(values(old(self).platforms@), name@),
            *final(self) == (CatalogScreen { platforms: final(self).platforms, ..*old(self) }),
    {
        toggle_choice(&mut self.platforms, name);
    }

    /// A realm was clicked.
    pub fn toggle_realm(&mut self, name: &str)
        ensures
            values(final(self).realms@) == toggled(values(old(self).realms@), name@),
            *final(self) == (CatalogScreen { realms: final(self).realms, ..*old(self) }),
    {
        toggle_choice(&mut self.realms, name);
    }

    /// An artifact type was clicked.
    pub fn toggle_artifact(&mut self, name: &str)
        ensures
            values(final(self).artifacts@) == toggled(values(old(self).artifacts@), name@),
            *final(self) == (CatalogScreen { artifacts: final(self).artifacts, ..*old(self) }),
    {
        toggle_choice(&mut self.artifacts, name);
    }

    fn active(&self) -> (res: Option<&GameCache>)
        ensures
            match res {
                Some(g) => self.game() == Some(*g),
                None => self.game() is None,
            },
    {
        let mut i: usize = 0;
        assert(self.games@.take(0) == Seq::<(String, GameCache)>::empty());
        while i < self.games.len()
            invariant
                i <= self.games@.len(),
                game_with_name(self.games@.take(i as int), self.active_game@) is None,
            decreases self.games.len() - i,
        {
            assert(self.games@.take(i + 1).drop_last() == self.games@.take(i as int));
            if same_text(self.games[i].0.as_str(), self.active_game.as_str()) {
                proof {
                    lemma_game_found(self.games@, i + 1, self.active_game@);
                }
                return Some(&self.games[i].1);
            }
            i = i + 1;
        }
        assert(self.games@.take(i as int) == self.games@);
        None
    }

    /// The pills of the filters of the active game; none if the game is not there.
    pub fn pills(&self) -> (res: Option<PillModels>)
        ensures
            match res {
                Some(models) => self.offered() == Some(models@),
                None => self.offered() is None,
            },
    {
        match self.active() {
            Some(game) => Some(
                PillModels {
                    platforms: make_pills(&game.unique_platforms, &self.platforms),
                    realms: make_pills(&game.unique_realms, &self.realms),
                    artifacts: make_pills(&game.unique_artifacts, &self.artifacts),
                    show_artifacts: !game.unique_artifacts.is_empty(),
                },
            ),
            None => None,
        }
    }

    fn admits(&self, m: &CachedManifest, query: &str) -> (res: bool)
        requires
            query@ == lowercase(self.query@),
        ensures
            res == self.wanted().admits(m@),
    {
        let id = to_lowercase(m.id.as_str());
        let version = to_lowercase(m.version.as_str());
        let realms = lowered(&m.realms);
        assert(texts(self.artifacts@).len() == self.artifacts@.len());
        matches_lowered(id.as_str(), version.as_str(), &realms, query) && has_chosen(
            &m.platforms,
            &self.platforms,
        ) && has_chosen(&m.realms, &self.realms) && (self.artifacts.is_empty() || includes(
            &self.artifacts,
            m.artifact_type.as_str(),
        ))
    }

    /// The rows of the table; none if the game is not there.
    pub fn rows(&self) -> (items: Vec<ManifestItem>)
        ensures
            item_views(items@) == self.shown(),
    {
        let mut items: Vec<ManifestItem> = Vec::new();
        let game = match self.active() {
            Some(game) => game,
            None => {
                assert(item_views(items@) == Seq::<ItemView>::empty());
                return items;
            },
        };
        let ghost wanted = self.wanted();
        let ghost all = manifest_views(game.manifests@);
        let ghost as_row = |m: ManifestView| row_item(m);
        let query = to_lowercase(self.query.as_str());
        let mut i: usize = 0;
        assert(all.take(0) == Seq::<ManifestView>::empty());
        assert(item_views(items@) == wanted.admitted(all.take(0)).map_values(as_row));
        while i < game.manifests.len() && items.len() < MAX_DISPLAY_ROWS
            invariant
                i <= game.manifests@.len(),
                all == manifest_views(game.manifests@),
                wanted == self.wanted(),
                query@ == lowercase(self.query@),
                as_row == (|m: ManifestView| row_item(m)),
                items@.len() <= MAX_DISPLAY_ROWS,
                item_views(items@) == wanted.admitted(all.take(i as int)).map_values(as_row),
            decreases game.manifests.len() - i,
        {
            let ghost before = wanted.admitted(all.take(i as int));
            assert(all.take(i + 1).drop_last() == all.take(i as int));
            let m = &game.manifests[i];
            assert(all[i as int] == m@);
            if self.admits(m, query.as_str()) {
                let ghost views = item_views(items@);
                let row = make_row(m);
                items.push(row);
                assert(item_views(items@) == views.push(row_item(m@)));
                assert(before.push(m@).map_values(as_row) == before.map_values(as_row).push(
                    row_item(m@),
                ));
            }
            i = i + 1;
        }
        proof {
            let shown = wanted.admitted(all.take(i as int));
            assert(item_views(items@).len() == items@.len());
            assert(shown.map_values(as_row).len() == shown.len());
            lemma_admitted_prefix(wanted, all, i as int);
            if i == all.len() {
                assert(all.take(i as int) == all);
                assert(wanted.table(all) == shown);
            } else {
                assert(wanted.table(all) == shown) by {
                    assert(shown.len() == MAX_DISPLAY_ROWS);
                    let every = wanted.admitted(all);
                    assert(every.take(MAX_DISPLAY_ROWS as int) == shown);
                    if every.len() == MAX_DISPLAY_ROWS {
                        assert(every.take(MAX_DISPLAY_ROWS as int) == every);
                    }
                }
            }
        }
        items
    }

    /// The row with this id was clicked, so many milliseconds after the click before.
    pub fn click(&mut self, id: &str, since_last: u64) -> (res: Click)
        ensures
            match res {
                Click::Open => {
                    &&& is_double_click(old(self).last_click@, id@, since_last as int)
                    &&& *final(self) == *old(self)
                },
                Click::Preview(item) => {
                    &&& !is_double_click(old(self).last_click@, id@, since_last as int)
                    &&& final(self).last_click@ == id@
                    &&& *final(self) == (CatalogScreen {
                        last_click: final(self).last_click,
                        ..*old(self)
                    })
                    &&& match item {
                        Some(shown) => old(self).previewed(id@) == Some(shown@),
                        None => old(self).previewed(id@) is None,
                    }
                },
            },
    {
        if same_text(self.last_click.as_str(), id) && since_last < DOUBLE_CLICK_MS {
            return Click::Open;
        }
        self.last_click = id.to_owned();
        let game = match self.active() {
            Some(game) => game,
            None => {
                return Click::Preview(None);
            },
        };
        let ghost all = manifest_views(game.manifests@);
        let mut i: usize = 0;
        assert(all.take(0) == Seq::<ManifestView>::empty());
        while i < game.manifests.len()
            invariant
                i <= game.manifests@.len(),
                all == manifest_views(game.manifests@),
                manifest_with_id(all.take(i as int), id@) is None,
                !is_double_click(old(self).last_click@, id@, since_last as int),
                self.last_click@ == id@,
                *self == (CatalogScreen { last_click: self.last_click, ..*old(self) }),
                old(self).game() == Some(*game),
            decreases game.manifests.len() - i,
        {
            assert(all.take(i + 1).drop_last() == all.take(i as int));
            assert(all[i as int] == game.manifests@[i as int]@);
            if same_text(game.manifests[i].id.as_str(), id) {
                proof {
                    lemma_manifest_found(all, i + 1, id@);
                }
                return Click::Preview(Some(make_preview(&game.manifests[i])));
            }
            i = i + 1;
        }
        assert(all.take(i as int) == all);
        Click::Preview(None)
    }
}

proof fn lemma_game_found(games: Seq<(String, GameCache)>, n: int, name: Seq<char>)
    requires
        0 <= n <= games.len(),
        game_with_name(games.take(n), name) is Some,
    ensures
        game_with_name(games, name) == game_with_name(games.take(n), name),
    decreases games.len() - n,
{
    if n < games.len() {
        assert(games.take(n + 1).drop_last() == games.take(n));
        lemma_game_found(games, n + 1, name);
    } else {
        assert(games.take(n) == games);
    }
}

proof fn lemma_manifest_found(list: Seq<ManifestView>, n: int, id: Seq<char>)
    requires
        0 <= n <= list.len(),
        manifest_with_id(list.take(n), id) is Some,
    ensures
        manifest_with_id(list, id) == manifest_with_id(list.take(n), id),
    decreases list.len() - n,
{
    if n < list.len() {
        assert(list.take(n + 1).drop_last() == list.take(n));
        lemma_manifest_found(list, n + 1, id);
    } else {
        assert(list.take(n) == list);
    }
}

proof fn lemma_game_absent(games: Seq<(String, GameCache)>, name: Seq<char>)
    requires
        !cache_names(games).contains(name),
    ensures
        game_with_name(games, name) is None,
    decreases games.len(),
{
    if games.len() > 0 {
        let shorter = games.drop_last();
        assert(cache_names(games)[games.len() - 1] == games.last().0@);
        if cache_names(shorter).contains(name) {
            let k = choose|k: int| 0 <= k < shorter.len() && cache_names(shorter)[k] == name;
            assert(cache_names(games)[k] == name);
        }
        lemma_game_absent(shorter, name);
    }
}

/// Where no name occurs twice, each game is the one found under its name.
pub proof fn law_each_game_is_found(games: Seq<(String, GameCache)>, i: int)
    requires
        cache_names(games).no_duplicates(),
        0 <= i < games.len(),
    ensures
        game_with_name(games, games[i].0@) == Some(games[i].1),
{
    let name = games[i].0@;
    let before = games.take(i);
    assert(cache_names(games)[i] == name);
    if cache_names(before).contains(name) {
        let k = choose|k: int| 0 <= k < before.len() && cache_names(before)[k] == name;
        assert(cache_names(games)[k] == name);
    }
    lemma_game_absent(before, name);
    assert(games.take(i + 1).drop_last() == before);
    lemma_game_found(games, i + 1, name);
}

proof fn lemma_manifest_absent(list: Seq<ManifestView>, id: Seq<char>)
    requires
        !cached_ids(list).contains(id),
    ensures
        manifest_with_id(list, id) is None,
    decreases list.len(),
{
    if list.len() > 0 {
        let shorter = list.drop_last();
        assert(cached_ids(list)[list.len() - 1] == list.last().id);
        if cached_ids(shorter).contains(id) {
            let k = choose|k: int| 0 <= k < shorter.len() && cached_ids(shorter)[k] == id;
            assert(cached_ids(list)[k] == id);
        }
        lemma_manifest_absent(shorter, id);
    }
}

/// Where no id occurs twice, each manifest is the one found under its id.
pub proof fn law_each_manifest_is_found(list: Seq<ManifestView>, i: int)
    requires
        cached_ids(list).no_duplicates(),
        0 <= i < list.len(),
    ensures
        manifest_with_id(list, list[i].id) == Some(list[i]),
{
    let id = list[i].id;
    let before = list.take(i);
    assert(cached_ids(list)[i] == id);
    if cached_ids(before).contains(id) {
        let k = choose|k: int| 0 <= k < before.len() && cached_ids(before)[k] == id;
        assert(cached_ids(list)[k] == id);
    }
    lemma_manifest_absent(before, id);
    assert(list.take(i + 1).drop_last() == before);
    lemma_manifest_found(list, i + 1, id);
}

/// What passes among the first manifests comes first among all that pass.
proof fn lemma_admitted_prefix(wanted: Wanted, list: Seq<ManifestView>, n: int)
    requires
        0 <= n <= list.len(),
    ensures
        wanted.admitted(list.take(n)).len() <= wanted.admitted(list).len(),
        wanted.admitted(list).take(wanted.admitted(list.take(n)).len() as int)
            == wanted.admitted(list.take(n)),
    decreases list.len() - n,
{
    let some = wanted.admitted(list.take(n));
    if n < list.len() {
        assert(list.take(n + 1).drop_last() == list.take(n));
        lemma_admitted_prefix(wanted, list, n + 1);
        let more = wanted.admitted(list.take(n + 1));
        assert(more.take(some.len() as int) == some);
        assert(wanted.admitted(list).take(some.len() as int) == more.take(some.len() as int)) by {
            assert(forall|k: int| 0 <= k < more.len() ==> wanted.admitted(list).take(more.len() as int)[k] == more[k]);
        }
    } else {
        assert(list.take(n) == list);
        assert(some.take(some.len() as int) == some);
    }
}

/// A manifest is in the table only if it is one of the game and passes; while the table is not
/// full, every one that passes is in it.
pub proof fn law_table_holds_what_passes(
    wanted: Wanted,
    list: Seq<ManifestView>,
    m: ManifestView,
)
    ensures
        wanted.table(list).len() <= MAX_DISPLAY_ROWS,
        wanted.table(list).contains(m) ==> list.contains(m) && wanted.admits(m),
        wanted.table(list).len() < MAX_DISPLAY_ROWS && list.contains(m) && wanted.admits(m)
            ==> wanted.table(list).contains(m),
{
    lemma_admitted_contains(wanted, list, m);
    let all = wanted.admitted(list);
    if wanted.table(list).contains(m) {
        let k = choose|k: int| 0 <= k < wanted.table(list).len() && wanted.table(list)[k] == m;
        assert(all[k] == m);
    }
}

proof fn lemma_admitted_contains(wanted: Wanted, list: Seq<ManifestView>, m: ManifestView)
    ensures
        wanted.admitted(list).contains(m) <==> list.contains(m) && wanted.admits(m),
    decreases list.len(),
{
    if list.len() > 0 {
        let shorter = list.drop_last();
        lemma_admitted_contains(wanted, shorter, m);
        let before = wanted.admitted(shorter);
        assert(before.push(list.last())[before.len() as int] == list.last());
        if before.contains(m) {
            let k = choose|k: int| 0 <= k < before.len() && before[k] == m;
            assert(before.push(list.last())[k] == m);
        }
        if shorter.contains(m) {
            let k = choose|k: int| 0 <= k < shorter.len() && shorter[k] == m;
            assert(list[k] == m);
        }
        if list.contains(m) {
            let k = choose|k: int| 0 <= k < list.len() && list[k] == m;
            if k < shorter.len() {
                assert(shorter[k] == m);
            }
        }
        assert(list[list.len() - 1] == list.last());
    }
}

/// Rows of the table stand in the order of the cache, so the newest manifests come first.
pub proof fn law_table_is_newest_first(wanted: Wanted, list: Seq<ManifestView>)
    requires
        crate::catalog::newest_first(list),
    ensures
        crate::catalog::newest_first(wanted.table(list)),
{
    lemma_admitted_newest_first(wanted, list);
    let all = wanted.admitted(list);
    let table = wanted.table(list);
    assert forall|i: int, j: int| 0 <= i < j < table.len() implies !crate::ordering::precedes(
        (#[trigger] table[i]).timestamp,
        (#[trigger] table[j]).timestamp,
    ) by {
        assert(table[i] == all[i] && table[j] == all[j]);
    }
}

proof fn lemma_admitted_newest_first(wanted: Wanted, list: Seq<ManifestView>)
    requires
        crate::catalog::newest_first(list),
    ensures
        crate::catalog::newest_first(wanted.admitted(list)),
    decreases list.len(),
{
    if list.len() > 0 {
        let shorter = list.drop_last();
        assert forall|i: int, j: int| 0 <= i < j < shorter.len() implies !crate::ordering::precedes(
            (#[trigger] shorter[i]).timestamp,
            (#[trigger] shorter[j]).timestamp,
        ) by {
            assert(shorter[i] == list[i] && shorter[j] == list[j]);
        }
        lemma_admitted_newest_first(wanted, shorter);
        let before = wanted.admitted(shorter);
        let after = before.push(list.last());
        assert forall|i: int, j: int| 0 <= i < j < after.len() implies !crate::ordering::precedes(
            (#[trigger] after[i]).timestamp,
            (#[trigger] after[j]).timestamp,
        ) by {
            if j < before.len() {
                assert(after[i] == before[i] && after[j] == before[j]);
            } else {
                assert(before.contains(before[i]));
                lemma_admitted_contains(wanted, shorter, before[i]);
                let k = choose|k: int| 0 <= k < shorter.len() && shorter[k] == before[i];
                assert(list[k] == after[i] && list[list.len() - 1] == after[j]);
            }
        }
    }
}

/// Every value that a filter offers leads to something: with that one alone chosen, and nothing
/// searched for, the table is not empty.
pub proof fn law_offered_values_have_rows(
    cache: GameView,
    manifests: Seq<(Seq<char>, EntryView)>,
    wanted: Wanted,
    value: Seq<char>,
)
    requires
        caches(cache, manifests),
        lowercase(wanted.query).len() == 0,
        ({
            ||| cache.unique_platforms.contains(value) && wanted.platforms == seq![value]
                && wanted.realms.len() == 0 && wanted.artifacts.len() == 0
            ||| cache.unique_realms.contains(value) && wanted.realms == seq![value]
                && wanted.platforms.len() == 0 && wanted.artifacts.len() == 0
            ||| cache.unique_artifacts.contains(value) && wanted.artifacts == seq![value]
                && wanted.platforms.len() == 0 && wanted.realms.len() == 0
        }),
    ensures
        wanted.table(cache.manifests).len() > 0,
{
    assert(seq![value][0] == value);
    assert(seq![value].contains(value));
    let i = if wanted.platforms.len() > 0 {
        let i = choose|i: int|
            0 <= i < manifests.len() && (#[trigger] manifests[i]).1.platform_list().contains(
                value,
            );
        let list = cached(manifests[i]).platforms;
        let k = choose|k: int| 0 <= k < list.len() && list[k] == value;
        assert(wanted.platforms.contains(list[k]));
        i
    } else if wanted.realms.len() > 0 {
        let i = choose|i: int|
            0 <= i < manifests.len() && (#[trigger] manifests[i]).1.realms.contains(value);
        let list = cached(manifests[i]).realms;
        let k = choose|k: int| 0 <= k < list.len() && list[k] == value;
        assert(wanted.realms.contains(list[k]));
        i
    } else {
        choose|i: int|
            0 <= i < manifests.len() && (#[trigger] manifests[i]).1.artifact_type == Some(value)
    };
    let m = cached(manifests[i]);
    assert(wanted.admits(m));
    law_cache_is_complete(cache, manifests, m);
    lemma_admitted_contains(wanted, cache.manifests, m);
    let all = wanted.admitted(cache.manifests);
    let k = choose|k: int| 0 <= k < all.len() && all[k] == m;
    assert(all.len() > 0);
}

/// There is a pill for each value of the filter, in order, and it is marked exactly if the value
/// is chosen.
pub proof fn law_pills_show_each_value(names: Seq<Seq<char>>, chosen: Seq<Seq<char>>, k: int)
    requires
        0 <= k < names.len(),
    ensures
        pills_for(names, chosen).len() == names.len(),
        pills_for(names, chosen)[k].0 == names[k],
        pills_for(names, chosen)[k].1 <==> exists|j: int|
            0 <= j < chosen.len() && #[trigger] chosen[j] == names[k],
{
}

/// A click changes whether the clicked value is chosen, and of no other value.
pub proof fn law_click_changes_one_value(
    chosen: Set<Seq<char>>,
    name: Seq<char>,
    other: Seq<char>,
)
    ensures
        toggled(chosen, name).contains(name) != chosen.contains(name),
        other != name ==> toggled(chosen, name).contains(other) == chosen.contains(other),
{
}

/// While no filter is chosen, a manifest is admitted if the query, in lower case, is contained in
/// the lower case of its id, of its version, or of any of its realms, wherever that stands in the
/// list; and always if nothing is searched for.
pub proof fn law_search_looks_everywhere(wanted: Wanted, m: ManifestView, k: int)
    requires
        wanted.platforms.len() == 0 && wanted.realms.len() == 0 && wanted.artifacts.len() == 0,
    ensures
        lowercase(wanted.query).len() == 0 ==> wanted.admits(m),
        contains_text(lowercase(m.id), lowercase(wanted.query)) ==> wanted.admits(m),
        contains_text(lowercase(m.version), lowercase(wanted.query)) ==> wanted.admits(m),
        0 <= k < m.realms.len() && contains_text(lowercase(m.realms[k]), lowercase(wanted.query))
            ==> wanted.admits(m),
{
    let lowered = m.realms.map_values(|r: Seq<char>| lowercase(r));
    if 0 <= k < m.realms.len() {
        assert(lowered[k] == lowercase(m.realms[k]));
    }
}

/// A manifest is admitted only if the query is found in it, and if it has a value of each filter
/// in which something is chosen.
pub proof fn law_admitted_manifests_fit(wanted: Wanted, m: ManifestView)
    requires
        wanted.admits(m),
    ensures
        ({
            let query = lowercase(wanted.query);
            ||| query.len() == 0
            ||| contains_text(lowercase(m.id), query)
            ||| contains_text(lowercase(m.version), query)
            ||| exists|k: int|
                0 <= k < m.realms.len() && contains_text(lowercase(#[trigger] m.realms[k]), query)
        }),
        wanted.platforms.len() > 0 ==> exists|k: int|
            0 <= k < m.platforms.len() && wanted.platforms.contains(#[trigger] m.platforms[k]),
        wanted.realms.len() > 0 ==> exists|k: int|
            0 <= k < m.realms.len() && wanted.realms.contains(#[trigger] m.realms[k]),
        wanted.artifacts.len() > 0 ==> wanted.artifacts.contains(m.artifact_type),
{
    let query = lowercase(wanted.query);
    let lowered = m.realms.map_values(|r: Seq<char>| lowercase(r));
    if query.len() > 0 && !contains_text(lowercase(m.id), query) && !contains_text(
        lowercase(m.version),
        query,
    ) {
        let i = choose|i: int| 0 <= i < lowered.len() && contains_text(#[trigger] lowered[i], query);
        assert(contains_text(lowercase(m.realms[i]), query));
    }
}

/// Choosing more of what a manifest has never shuts it out: a manifest that the search finds is
/// admitted if, of each filter, nothing is chosen or one of its values is, at whatever place.
pub proof fn law_one_chosen_value_is_enough(
    wanted: Wanted,
    m: ManifestView,
    platform: int,
    realm: int,
)
    requires
        ({
            let search = Wanted {
                query: wanted.query,
                platforms: Seq::empty(),
                realms: Seq::empty(),
                artifacts: Seq::empty(),
            };
            search.admits(m)
        }),
        wanted.platforms.len() == 0 || (0 <= platform < m.platforms.len()
            && wanted.platforms.contains(m.platforms[platform])),
        wanted.realms.len() == 0 || (0 <= realm < m.realms.len() && wanted.realms.contains(
            m.realms[realm],
        )),
        wanted.artifacts.len() == 0 || wanted.artifacts.contains(m.artifact_type),
    ensures
        wanted.admits(m),
{
    if wanted.platforms.len() > 0 {
        assert(wanted.platforms.contains(m.platforms[platform]));
    }
    if wanted.realms.len() > 0 {
        assert(wanted.realms.contains(m.realms[realm]));
    }
}

proof fn lemma_admitted_is_filter(wanted: Wanted, list: Seq<ManifestView>)
    ensures
        wanted.admitted(list) == list.filter(|m: ManifestView| wanted.admits(m)),
    decreases list.len(),
{
    reveal(Seq::filter);
    if list.len() > 0 {
        lemma_admitted_is_filter(wanted, list.drop_last());
    }
}

/// The table is made of the first three hundred manifests of the game that are admitted, or of
/// all of them if there are no more, in the order of the cache.
pub proof fn law_table_is_the_first_that_are_admitted(wanted: Wanted, list: Seq<ManifestView>)
    ensures
        ({
            let all = list.filter(|m: ManifestView| wanted.admits(m));
            wanted.table(list) == all.take(if all.len() < 300 { all.len() as int } else { 300 })
        }),
{
    lemma_admitted_is_filter(wanted, list);
    let all = wanted.admitted(list);
    assert(all.take(all.len() as int) == all);
}

/// A row of the table, and the preview, show the texts of the manifest: of the row the short
/// version and the short realms, of both the full ones.
pub proof fn law_rows_show_their_manifest(m: ManifestView)
    ensures
        row_item(m).id == m.id && preview_item(m).id == m.id,
        row_item(m).version_short == m.version_short && preview_item(m).version_short.len() == 0,
        row_item(m).version_full == m.version && preview_item(m).version_full == m.version,
        row_item(m).realms == m.realms_short,
        row_item(m).realms_full == joined(m.realms, seq![',', ' ']),
        preview_item(m).realms == joined(m.realms, seq![',', ' ']),
        preview_item(m).realms_full == joined(m.realms, seq![',', ' ']),
        row_item(m).platforms == joined(m.platforms, seq![',', ' ']),
        preview_item(m).platforms == joined(m.platforms, seq![',', ' ']),
        row_item(m).date_str == m.date_str && preview_item(m).date_str == m.date_str,
        row_item(m).size_str == m.size_str && preview_item(m).size_str == m.size_str,
        !row_item(m).is_cached && !preview_item(m).is_cached,
{
    reveal_strlit(", ");
    assert(", "@ =~= seq![',', ' ']);
}

/// The game that is found is the first with the name, and none is found only if none has it.
pub proof fn law_found_game_is_the_first(games: Seq<(String, GameCache)>, name: Seq<char>)
    ensures
        match game_with_name(games, name) {
            Some(game) => exists|k: int|
                0 <= k < games.len() && (#[trigger] games[k]).0@ == name && games[k].1 == game
                    && forall|j: int| 0 <= j < k ==> (#[trigger] games[j]).0@ != name,
            None => forall|j: int| 0 <= j < games.len() ==> (#[trigger] games[j]).0@ != name,
        },
    decreases games.len(),
{
    if games.len() > 0 {
        let shorter = games.drop_last();
        law_found_game_is_the_first(shorter, name);
        assert forall|j: int| 0 <= j < shorter.len() implies #[trigger] games[j] == shorter[j] by {}
        if let Some(game) = game_with_name(shorter, name) {
            let k = choose|k: int|
                0 <= k < shorter.len() && (#[trigger] shorter[k]).0@ == name && shorter[k].1 == game
                    && forall|j: int| 0 <= j < k ==> (#[trigger] shorter[j]).0@ != name;
            assert(games[k] == shorter[k]);
        } else {
            assert(games[games.len() - 1] == games.last());
        }
    }
}

/// The manifest that is found is the first with the id, and none is found only if none has it.
pub proof fn law_found_manifest_is_the_first(list: Seq<ManifestView>, id: Seq<char>)
    ensures
        match manifest_with_id(list, id) {
            Some(m) => exists|k: int|
                0 <= k < list.len() && (#[trigger] list[k]).id == id && list[k] == m && forall|j: int|
                    0 <= j < k ==> (#[trigger] list[j]).id != id,
            None => forall|j: int| 0 <= j < list.len() ==> (#[trigger] list[j]).id != id,
        },
    decreases list.len(),
{
    if list.len() > 0 {
        let shorter = list.drop_last();
        law_found_manifest_is_the_first(shorter, id);
        assert forall|j: int| 0 <= j < shorter.len() implies #[trigger] list[j] == shorter[j] by {}
        if let Some(m) = manifest_with_id(shorter, id) {
            let k = choose|k: int|
                0 <= k < shorter.len() && (#[trigger] shorter[k]).id == id && shorter[k] == m
                    && forall|j: int| 0 <= j < k ==> (#[trigger] shorter[j]).id != id;
            assert(list[k] == shorter[k]);
        } else {
            assert(list[list.len() - 1] == list.last());
        }
    }
}

/// The views of rows and pills leave nothing out.
pub proof fn law_screen_views_are_faithful(
    item: ManifestItem,
    items: Seq<ManifestItem>,
    pills: Seq<FilterPill>,
)
    ensures
        item@.id == item.id@ && item@.version_short == item.version_short@,
        item@.version_full == item.version_full@ && item@.realms == item.realms@,
        item@.realms_full == item.realms_full@ && item@.platforms == item.platforms@,
        item@.date_str == item.date_str@ && item@.size_str == item.size_str@,
        item@.is_cached == item.is_cached,
        item_views(items).len() == items.len(),
        forall|i: int| 0 <= i < items.len() ==> #[trigger] item_views(items)[i] == items[i]@,
        pill_views(pills).len() == pills.len(),
        forall|i: int|
            0 <= i < pills.len() ==> (#[trigger] pill_views(pills)[i]).0 == pills[i].name@
                && pill_views(pills)[i].1 == pills[i].selected,
{
}

/// What is searched and filtered for is what was typed and chosen, and the game is the active one.
pub proof fn law_wanted_is_what_was_chosen(screen: CatalogScreen)
    ensures
        screen.wanted().query == screen.query@,
        screen.wanted().platforms == texts(screen.platforms@),
        screen.wanted().realms == texts(screen.realms@),
        screen.wanted().artifacts == texts(screen.artifacts@),
        screen.game() == game_with_name(screen.games@, screen.active_game@),
{
}

/// A click opens a release only if the click before was on the same row, less than three tenths
/// of a second ago.
pub proof fn law_double_click_is_fast_and_on_one_row(
    last: Seq<char>,
    id: Seq<char>,
    since_last: int,
)
    ensures
        is_double_click(id, id, since_last) <==> since_last < 300,
        last != id ==> !is_double_click(last, id, since_last),
{
}

/// What is previewed is the first manifest of the active game with the clicked id, in full.
pub proof fn law_click_previews_its_manifest(
    screen: CatalogScreen,
    game: GameCache,
    id: Seq<char>,
    k: int,
)
    requires
        game_with_name(screen.games@, screen.active_game@) == Some(game),
        0 <= k < game.manifests@.len(),
        game.manifests@[k].id@ == id,
        forall|j: int| 0 <= j < k ==> (#[trigger] game.manifests@[j]).id@ != id,
    ensures
        screen.previewed(id) matches Some(item) && item.id == id && item.version_full
            == game.manifests@[k].version@ && item.date_str == game.manifests@[k].date_str@
            && item.size_str == game.manifests@[k].size_str@ && item.realms == joined(
            texts(game.manifests@[k].realms@),
            seq![',', ' '],
        ) && item.platforms == joined(texts(game.manifests@[k].platforms@), seq![',', ' ']),
{
    let list = manifest_views(game.manifests@);
    law_found_manifest_is_the_first(list, id);
    assert(list[k].id == id);
    let m = manifest_with_id(list, id)->0;
    let p = choose|p: int|
        0 <= p < list.len() && (#[trigger] list[p]).id == id && list[p] == m && forall|j: int|
            0 <= j < p ==> (#[trigger] list[j]).id != id;
    if p < k {
        assert(game.manifests@[p].id@ != id);
    }
    law_rows_show_their_manifest(m);
}

/// Without the active game, or without a manifest of that id in it, nothing is previewed.
pub proof fn law_unknown_rows_have_no_preview(screen: CatalogScreen, id: Seq<char>)
    requires
        game_with_name(screen.games@, screen.active_game@) matches Some(game) ==> forall|j: int|
            0 <= j < game.manifests@.len() ==> (#[trigger] game.manifests@[j]).id@ != id,
    ensures
        screen.previewed(id) is None,
{
    if let Some(game) = game_with_name(screen.games@, screen.active_game@) {
        let list = manifest_views(game.manifests@);
        law_found_manifest_is_the_first(list, id);
        if manifest_with_id(list, id) is Some {
            let p = choose|p: int| 0 <= p < list.len() && (#[trigger] list[p]).id == id;
            assert(game.manifests@[p].id@ == id);
        }
    }
}

/// Each filter of the active game offers its own values, and marks those chosen in it; the
/// artifact filter is shown exactly if it offers something.
pub proof fn law_each_filter_marks_its_own_choice(
    screen: CatalogScreen,
    game: GameCache,
    models: PillModels,
    k: int,
)
    requires
        game_with_name(screen.games@, screen.active_game@) == Some(game),
    ensures
        screen.offered() matches Some(pills) && {
            &&& pills.platforms.len() == game.unique_platforms@.len()
            &&& pills.realms.len() == game.unique_realms@.len()
            &&& pills.artifacts.len() == game.unique_artifacts@.len()
            &&& 0 <= k < game.unique_platforms@.len() ==> pills.platforms[k] == (
                game.unique_platforms@[k]@,
                texts(screen.platforms@).contains(game.unique_platforms@[k]@),
            )
            &&& 0 <= k < game.unique_realms@.len() ==> pills.realms[k] == (
                game.unique_realms@[k]@,
                texts(screen.realms@).contains(game.unique_realms@[k]@),
            )
            &&& 0 <= k < game.unique_artifacts@.len() ==> pills.artifacts[k] == (
                game.unique_artifacts@[k]@,
                texts(screen.artifacts@).contains(game.unique_artifacts@[k]@),
            )
            &&& pills.show_artifacts <==> game.unique_artifacts@.len() > 0
        },
        models@.platforms == pill_views(models.platforms@),
        models@.realms == pill_views(models.realms@),
        models@.artifacts == pill_views(models.artifacts@),
        models@.show_artifacts == models.show_artifacts,
{
}

/// The table shows rows of the active game, the k-th row for the k-th manifest that it holds.
pub proof fn law_table_shows_the_active_game(screen: CatalogScreen, game: GameCache, k: int)
    requires
        game_with_name(screen.games@, screen.active_game@) == Some(game),
        0 <= k < screen.shown().len(),
    ensures
        screen.shown().len() == screen.wanted().table(game@.manifests).len(),
        screen.shown()[k].id == screen.wanted().table(game@.manifests)[k].id,
        screen.shown()[k].version_full == screen.wanted().table(game@.manifests)[k].version,
        exists|j: int|
            0 <= j < game.manifests@.len() && (#[trigger] game.manifests@[j]).id@
                == screen.shown()[k].id && screen.wanted().admits(game.manifests@[j]@),
{
    let list = game@.manifests;
    let m = screen.wanted().table(list)[k];
    law_table_holds_what_passes(screen.wanted(), list, m);
    assert(screen.wanted().table(list).contains(m));
    let j = choose|j: int| 0 <= j < list.len() && list[j] == m;
    assert(game.manifests@[j]@ == m);
}

} // verus!
