//! The catalog of release manifests, and the display-ready cache that is built from it.

use vstd::prelude::*;
use vstd::string::StringExecFns;

use crate::number::{
    decimal, decimal_text, format_size, lemma_decimal_round_trip, parsed, size_text,
};
use crate::ordering::{
    ascending, comes_before, insert_ascending, lemma_ascending_unique, precedes,
};
use crate::text::{
    after_byte, before_byte, byte_len, copy_texts, cut, cuttable, join, joined, lemma_cut_ascii,
    lemma_cut_between, lemma_cut_keeps_text, lemma_cut_len, lemma_encode_concat, lemma_split_last, lemma_split_single,
    len_in_bytes, same_text, split, split_on, texts,
};

verus! {

/// One release manifest as the catalog lists it.
#[derive(Debug, Clone)]
pub struct CatalogEntry {
    pub version: String,
    pub realms: Vec<String>,
    pub platform: Option<String>,
    pub platforms: Option<Vec<String>>,
    pub artifact_type: Option<String>,
    pub timestamp: String,
    pub size: u64,
}

/// What a catalog entry says.
pub struct EntryView {
    pub version: Seq<char>,
    pub realms: Seq<Seq<char>>,
    pub platform: Option<Seq<char>>,
    pub platforms: Option<Seq<Seq<char>>>,
    pub artifact_type: Option<Seq<char>>,
    pub timestamp: Seq<char>,
    pub size: u64,
}

impl View for CatalogEntry {
    type V = EntryView;

    open spec fn view(&self) -> EntryView {
        EntryView {
            version: self.version@,
            realms: texts(self.realms@),
            platform: match self.platform {
                Some(p) => Some(p@),
                None => None,
            },
            platforms: match self.platforms {
                Some(list) => Some(texts(list@)),
                None => None,
            },
            artifact_type: match self.artifact_type {
                Some(a) => Some(a@),
                None => None,
            },
            timestamp: self.timestamp@,
            size: self.size,
        }
    }
}

impl EntryView {
    /// The platforms of the release: the list if there is one, else the single platform, else
    /// `neutral`.
    pub open spec fn platform_list(self) -> Seq<Seq<char>> {
        match self.platforms {
            Some(list) => list,
            None => match self.platform {
                Some(single) => seq![single],
                None => seq!["neutral"@],
            },
        }
    }

    /// The artifact type, `default` where none is given.
    pub open spec fn artifact(self) -> Seq<char> {
        match self.artifact_type {
            Some(a) => a,
            None => "default"@,
        }
    }

    /// The texts of the entry can be shortened for display.
    pub open spec fn displayable(self) -> bool {
        &&& shortenable(self.version)
        &&& datable(self.timestamp)
    }
}

impl CatalogEntry {
    /// The platforms of the release.
    pub fn get_platforms(&self) -> (res: Vec<String>)
        ensures
            texts(res@) == self@.platform_list(),
    {
        if let Some(list) = &self.platforms {
            copy_texts(list)
        } else if let Some(single) = &self.platform {
            let res = vec![single.clone()];
            assert(texts(res@) == seq![single@]);
            res
        } else {
            let res = vec!["neutral".to_owned()];
            assert(texts(res@) == seq!["neutral"@]);
            res
        }
    }

    /// Whether the texts of the entry can be shortened for display.
    pub fn is_displayable(&self) -> (res: bool)
        ensures
            res == self@.displayable(),
    {
        is_shortenable(self.version.as_str()) && is_datable(self.timestamp.as_str())
    }
}

/// A version that must be shortened has no character across the place where it is cut.
pub open spec fn shortenable(version: Seq<char>) -> bool {
    byte_len(version) > 16 ==> cuttable(version, 14)
}

/// A version of at most sixteen bytes, or the first fourteen bytes of a longer one and an
/// ellipsis.
pub open spec fn short_version(version: Seq<char>) -> Seq<char> {
    if byte_len(version) > 16 {
        before_byte(version, 14) + "..."@
    } else {
        version
    }
}

/// Whether a version can be shortened.
pub fn is_shortenable(version: &str) -> (res: bool)
    ensures
        res == shortenable(version@),
{
    len_in_bytes(version) <= 16 || version.is_char_boundary(14)
}

/// The version as a table shows it.
pub fn shorten_version(version: &str) -> (res: String)
    requires
        shortenable(version@),
    ensures
        res@ == short_version(version@),
{
    if len_in_bytes(version) > 16 {
        let mut res = cut(version, 14).0.to_owned();
        res.append("...");
        res
    } else {
        version.to_owned()
    }
}

/// Up to three realms in full; of more, the first two and how many are left out.
pub open spec fn short_realms(realms: Seq<Seq<char>>) -> Seq<char> {
    if realms.len() > 3 {
        realms[0] + ", "@ + realms[1] + " (+"@ + decimal_text((realms.len() - 2) as nat) + ")"@
    } else {
        joined(realms, ", "@)
    }
}

/// The realms as a table shows them.
pub fn shorten_realms(realms: &Vec<String>) -> (res: String)
    ensures
        res@ == short_realms(texts(realms@)),
{
    if realms.len() > 3 {
        let mut res = realms[0].clone();
        res.append(", ");
        res.append(realms[1].as_str());
        res.append(" (+");
        res.append(decimal((realms.len() - 2) as u64).as_str());
        res.append(")");
        res
    } else {
        join(realms, ", ")
    }
}

/// The parts of the first ten bytes of a timestamp between the hyphens.
pub open spec fn date_parts(timestamp: Seq<char>) -> Seq<Seq<char>> {
    split_on(before_byte(timestamp, 10), '-')
}

/// No character of the timestamp stands across a place where the date is cut.
pub open spec fn datable(timestamp: Seq<char>) -> bool {
    byte_len(timestamp) >= 10 ==> {
        &&& cuttable(timestamp, 10)
        &&& date_parts(timestamp).len() == 3 ==> cuttable(date_parts(timestamp)[0], 2)
    }
}

/// The date of a timestamp: of `2026-01-15T03:20:21+00:00` it is `15/01/26`. A timestamp that
/// is too short, or whose first ten bytes have no three parts, has question marks.
pub open spec fn date_text(timestamp: Seq<char>) -> Seq<char> {
    let parts = date_parts(timestamp);
    if byte_len(timestamp) < 10 || parts.len() != 3 {
        "??/??/??"@
    } else {
        parts[2] + "/"@ + parts[1] + "/"@ + after_byte(parts[0], 2)
    }
}

/// Whether the date of a timestamp can be told.
pub fn is_datable(timestamp: &str) -> (res: bool)
    ensures
        res == datable(timestamp@),
{
    if len_in_bytes(timestamp) < 10 {
        return true;
    }
    if !timestamp.is_char_boundary(10) {
        return false;
    }
    let parts = split(cut(timestamp, 10).0, '-');
    assert(texts(parts@).len() == parts@.len());
    if parts.len() == 3 {
        parts[0].as_str().is_char_boundary(2)
    } else {
        true
    }
}

/// The date of a timestamp for display.
pub fn format_date(iso_str: &str) -> (res: String)
    requires
        datable(iso_str@),
    ensures
        res@ == date_text(iso_str@),
{
    if len_in_bytes(iso_str) < 10 {
        return "??/??/??".to_owned();
    }
    let parts = split(cut(iso_str, 10).0, '-');
    assert(texts(parts@).len() == parts@.len());
    if parts.len() == 3 {
        let year = cut(parts[0].as_str(), 2).1;
        let mut res = parts[2].clone();
        res.append("/");
        res.append(parts[1].as_str());
        res.append("/");
        res.append(year);
        res
    } else {
        "??/??/??".to_owned()
    }
}

/// One manifest with its texts ready for display and search.
#[derive(Clone, Debug)]
pub struct CachedManifest {
    pub id: String,
    pub version: String,
    pub version_short: String,
    pub realms: Vec<String>,
    pub realms_short: String,
    pub platforms: Vec<String>,
    pub artifact_type: String,
    pub date_str: String,
    pub size_str: String,
    pub size: u64,
    pub timestamp: String,
}

/// What a cached manifest says.
pub struct ManifestView {
    pub id: Seq<char>,
    pub version: Seq<char>,
    pub version_short: Seq<char>,
    pub realms: Seq<Seq<char>>,
    pub realms_short: Seq<char>,
    pub platforms: Seq<Seq<char>>,
    pub artifact_type: Seq<char>,
    pub date_str: Seq<char>,
    pub size_str: Seq<char>,
    pub size: u64,
    pub timestamp: Seq<char>,
}

impl View for CachedManifest {
    type V = ManifestView;

    open spec fn view(&self) -> ManifestView {
        ManifestView {
            id: self.id@,
            version: self.version@,
            version_short: self.version_short@,
            realms: texts(self.realms@),
            realms_short: self.realms_short@,
            platforms: texts(self.platforms@),
            artifact_type: self.artifact_type@,
            date_str: self.date_str@,
            size_str: self.size_str@,
            size: self.size,
            timestamp: self.timestamp@,
        }
    }
}

/// What a list of cached manifests says.
pub open spec fn manifest_views(list: Seq<CachedManifest>) -> Seq<ManifestView> {
    list.map_values(|m: CachedManifest| m@)
}

/// The manifests of one game and the values that its filters offer.
#[derive(Clone, Debug)]
pub struct GameCache {
    pub manifests: Vec<CachedManifest>,
    pub unique_platforms: Vec<String>,
    pub unique_realms: Vec<String>,
    pub unique_artifacts: Vec<String>,
}

/// What the cache of a game says.
pub struct GameView {
    pub manifests: Seq<ManifestView>,
    pub unique_platforms: Seq<Seq<char>>,
    pub unique_realms: Seq<Seq<char>>,
    pub unique_artifacts: Seq<Seq<char>>,
}

impl View for GameCache {
    type V = GameView;

    open spec fn view(&self) -> GameView {
        GameView {
            manifests: manifest_views(self.manifests@),
            unique_platforms: texts(self.unique_platforms@),
            unique_realms: texts(self.unique_realms@),
            unique_artifacts: texts(self.unique_artifacts@),
        }
    }
}

/// The manifests of a game as the catalog lists them: each id with its entry.
pub open spec fn listed(manifests: Seq<(String, CatalogEntry)>) -> Seq<(Seq<char>, EntryView)> {
    manifests.map_values(|m: (String, CatalogEntry)| (m.0@, m.1@))
}

/// The display-ready form of a manifest.
pub open spec fn cached(manifest: (Seq<char>, EntryView)) -> ManifestView {
    let entry = manifest.1;
    ManifestView {
        id: manifest.0,
        version: entry.version,
        version_short: short_version(entry.version),
        realms: entry.realms,
        realms_short: short_realms(entry.realms),
        platforms: entry.platform_list(),
        artifact_type: entry.artifact(),
        date_str: date_text(entry.timestamp),
        size_str: size_text(entry.size as nat),
        size: entry.size,
        timestamp: entry.timestamp,
    }
}

/// The display-ready forms of the manifests of a game.
pub open spec fn all_cached(manifests: Seq<(Seq<char>, EntryView)>) -> Seq<ManifestView> {
    manifests.map_values(|m: (Seq<char>, EntryView)| cached(m))
}

/// No manifest has a later timestamp than one in front of it.
pub open spec fn newest_first(manifests: Seq<ManifestView>) -> bool {
    forall|i: int, j: int|
        0 <= i < j < manifests.len() ==> !precedes(
            (#[trigger] manifests[i]).timestamp,
            (#[trigger] manifests[j]).timestamp,
        )
}

/// Some manifest of the game runs on the platform.
pub open spec fn offers_platform(
    manifests: Seq<(Seq<char>, EntryView)>,
    platform: Seq<char>,
) -> bool {
    exists|i: int|
        0 <= i < manifests.len() && (#[trigger] manifests[i]).1.platform_list().contains(platform)
}

/// Some manifest of the game belongs to the realm.
pub open spec fn offers_realm(manifests: Seq<(Seq<char>, EntryView)>, realm: Seq<char>) -> bool {
    exists|i: int| 0 <= i < manifests.len() && (#[trigger] manifests[i]).1.realms.contains(realm)
}

/// Some manifest of the game names the artifact type, and it is not the default one.
pub open spec fn offers_artifact(
    manifests: Seq<(Seq<char>, EntryView)>,
    artifact: Seq<char>,
) -> bool {
    artifact != "default"@ && exists|i: int|
        0 <= i < manifests.len() && (#[trigger] manifests[i]).1.artifact_type == Some(artifact)
}

/// `cache` is the cache of a game with these manifests. In what order manifests of the same
/// timestamp stand is left open.
pub open spec fn caches(cache: GameView, manifests: Seq<(Seq<char>, EntryView)>) -> bool {
    &&& cache.manifests.to_multiset() == all_cached(manifests).to_multiset()
    &&& newest_first(cache.manifests)
    &&& ascending(cache.unique_platforms)
    &&& forall|p: Seq<char>|
        #[trigger] cache.unique_platforms.contains(p) <==> offers_platform(manifests, p)
    &&& ascending(cache.unique_realms)
    &&& forall|r: Seq<char>|
        #[trigger] cache.unique_realms.contains(r) <==> offers_realm(manifests, r)
    &&& ascending(cache.unique_artifacts)
    &&& forall|a: Seq<char>|
        #[trigger] cache.unique_artifacts.contains(a) <==> offers_artifact(manifests, a)
}

/// Every entry of the list can be shortened for display.
pub open spec fn all_displayable(manifests: Seq<(String, CatalogEntry)>) -> bool {
    forall|i: int| 0 <= i < manifests.len() ==> (#[trigger] manifests[i]).1@.displayable()
}

/// The display-ready form of one manifest.
pub fn cache_manifest(id: &String, entry: &CatalogEntry) -> (res: CachedManifest)
    requires
        entry@.displayable(),
    ensures
        res@ == cached((id@, entry@)),
{
    let artifact_type = match &entry.artifact_type {
        Some(a) => a.clone(),
        None => "default".to_owned(),
    };
    CachedManifest {
        id: id.clone(),
        version: entry.version.clone(),
        version_short: shorten_version(entry.version.as_str()),
        realms: copy_texts(&entry.realms),
        realms_short: shorten_realms(&entry.realms),
        platforms: entry.get_platforms(),
        artifact_type,
        date_str: format_date(entry.timestamp.as_str()),
        size_str: format_size(entry.size),
        size: entry.size,
        timestamp: entry.timestamp.clone(),
    }
}

/// The entries that `order` picks, in that order.
spec fn picked(all: Seq<ManifestView>, order: Seq<usize>) -> Seq<ManifestView> {
    order.map_values(|k: usize| all[k as int])
}

proof fn lemma_insert_multiset<A>(s: Seq<A>, pos: int, x: A)
    requires
        0 <= pos <= s.len(),
    ensures
        s.insert(pos, x).to_multiset() == s.to_multiset().insert(x),
{
    broadcast use vstd::seq_lib::group_to_multiset_ensures;

    let t = s.insert(pos, x);
    assert(t.remove(pos) == s);
    assert(t[pos] == x);
    assert(t.contains(x));
    assert(t.to_multiset() =~= t.to_multiset().remove(x).insert(x));
}

/// The places of the manifests, in the order of their timestamps, the latest first.
fn order_by_age(manifests: &Vec<(String, CatalogEntry)>) -> (order: Vec<usize>)
    ensures
        forall|k: int| 0 <= k < order@.len() ==> (#[trigger] order@[k]) < manifests@.len(),
        picked(all_cached(listed(manifests@)), order@).to_multiset() == all_cached(
            listed(manifests@),
        ).to_multiset(),
        newest_first(picked(all_cached(listed(manifests@)), order@)),
{
    let ghost all = all_cached(listed(manifests@));
    let mut order: Vec<usize> = Vec::new();
    let mut i: usize = 0;
    assert(picked(all, order@) == all.take(0));
    while i < manifests.len()
        invariant
            i <= manifests@.len(),
            all == all_cached(listed(manifests@)),
            forall|k: int| 0 <= k < order@.len() ==> (#[trigger] order@[k]) < manifests@.len(),
            picked(all, order@).to_multiset() == all.take(i as int).to_multiset(),
            newest_first(picked(all, order@)),
        decreases manifests.len() - i,
    {
        let ghost before = picked(all, order@);
        let stamp = manifests[i].1.timestamp.as_str();
        assert(all[i as int].timestamp == stamp@);
        let mut low: usize = 0;
        let mut high: usize = order.len();
        while low < high
            invariant
                low <= high <= order@.len(),
                all == all_cached(listed(manifests@)),
                before == picked(all, order@),
                newest_first(before),
                forall|k: int| 0 <= k < order@.len() ==> (#[trigger] order@[k]) < manifests@.len(),
                forall|k: int| 0 <= k < low ==> !precedes((#[trigger] before[k]).timestamp, stamp@),
                forall|k: int|
                    high <= k < before.len() ==> precedes((#[trigger] before[k]).timestamp, stamp@),
            decreases high - low,
        {
            let mid: usize = low + (high - low) / 2;
            let there = order[mid];
            assert(before[mid as int] == all[there as int]);
            assert(all[there as int].timestamp == manifests@[there as int].1.timestamp@);
            if comes_before(manifests[there].1.timestamp.as_str(), stamp) {
                assert forall|k: int| mid <= k < before.len() implies precedes(
                    (#[trigger] before[k]).timestamp,
                    stamp@,
                ) by {
                    let x = before[mid as int].timestamp;
                    let y = before[k].timestamp;
                    if k > mid && !precedes(y, stamp@) {
                        lemma_not_after(x, y, stamp@);
                    }
                }
                high = mid;
            } else {
                assert forall|k: int| 0 <= k < mid + 1 implies !precedes(
                    (#[trigger] before[k]).timestamp,
                    stamp@,
                ) by {
                    let x = before[k].timestamp;
                    let y = before[mid as int].timestamp;
                    if k < mid && precedes(x, stamp@) {
                        lemma_not_after(x, y, stamp@);
                    }
                }
                low = mid + 1;
            }
        }
        order.insert(low, i);
        proof {
            let after = picked(all, order@);
            let x = all[i as int];
            assert(after == before.insert(low as int, x));
            lemma_insert_multiset(before, low as int, x);
            assert(all.take(i + 1) == all.take(i as int).push(x));
            broadcast use vstd::seq_lib::group_to_multiset_ensures;

            assert(all.take(i + 1).to_multiset() == all.take(i as int).to_multiset().insert(x));
            assert forall|a: int, b: int| 0 <= a < b < after.len() implies !precedes(
                (#[trigger] after[a]).timestamp,
                (#[trigger] after[b]).timestamp,
            ) by {
                if a == low {
                    assert(precedes(before[b - 1].timestamp, x.timestamp));
                    if precedes(x.timestamp, before[b - 1].timestamp) {
                        crate::ordering::lemma_precedes_transitive(
                            x.timestamp,
                            before[b - 1].timestamp,
                            x.timestamp,
                        );
                        crate::ordering::lemma_precedes_irreflexive(x.timestamp);
                    }
                } else if b == low {
                    assert(!precedes(before[a].timestamp, x.timestamp));
                } else {
                    let a0 = if a < low { a } else { a - 1 };
                    let b0 = if b < low { b } else { b - 1 };
                    assert(!precedes(before[a0].timestamp, before[b0].timestamp));
                }
            }
        }
        i = i + 1;
    }
    assert(all.take(i as int) == all);
    order
}

/// What comes before `z` cannot do so if something not after it does not.
proof fn lemma_not_after(x: Seq<char>, y: Seq<char>, z: Seq<char>)
    requires
        !precedes(x, y),
        !precedes(y, z),
    ensures
        !precedes(x, z),
{
    if precedes(x, z) {
        if x == y {
        } else {
            crate::ordering::lemma_precedes_total(x, y);
            crate::ordering::lemma_precedes_transitive(y, x, z);
        }
    }
}

/// Puts all of `items` into an ascending list.
fn insert_all(list: &mut Vec<String>, items: &Vec<String>)
    requires
        ascending(texts(old(list)@)),
    ensures
        ascending(texts(final(list)@)),
        forall|t: Seq<char>|
            #[trigger] texts(final(list)@).contains(t) <==> (texts(old(list)@).contains(t) || texts(
                items@,
            ).contains(t)),
{
    let ghost all = texts(items@);
    let mut i: usize = 0;
    while i < items.len()
        invariant
            i <= items@.len(),
            all == texts(items@),
            ascending(texts(list@)),
            forall|t: Seq<char>|
                #[trigger] texts(list@).contains(t) <==> (texts(old(list)@).contains(t) || all.take(
                    i as int,
                ).contains(t)),
        decreases items.len() - i,
    {
        insert_ascending(list, items[i].as_str());
        proof {
            let grown = all.take(i + 1);
            assert(grown == all.take(i as int).push(all[i as int]));
            lemma_push_contains(all.take(i as int), all[i as int]);
        }
        i = i + 1;
    }
    assert(all.take(i as int) == all);
}

pub(crate) proof fn lemma_push_contains<A>(s: Seq<A>, x: A)
    ensures
        forall|t: A| #[trigger] s.push(x).contains(t) <==> (s.contains(t) || t == x),
{
    assert forall|t: A| #[trigger] s.push(x).contains(t) <==> (s.contains(t) || t == x) by {
        if s.contains(t) {
            let k = choose|k: int| 0 <= k < s.len() && s[k] == t;
            assert(s.push(x)[k] == t);
        }
        assert(s.push(x)[s.len() as int] == x);
    }
}

/// Builds the cache of a game from its manifests.
pub fn build_game_cache(manifests: &Vec<(String, CatalogEntry)>) -> (res: GameCache)
    requires
        all_displayable(manifests@),
    ensures
        caches(res@, listed(manifests@)),
{
    let ghost given = listed(manifests@);
    let mut unique_platforms: Vec<String> = Vec::new();
    let mut unique_realms: Vec<String> = Vec::new();
    let mut unique_artifacts: Vec<String> = Vec::new();
    let mut i: usize = 0;
    while i < manifests.len()
        invariant
            i <= manifests@.len(),
            given == listed(manifests@),
            ascending(texts(unique_platforms@)),
            ascending(texts(unique_realms@)),
            ascending(texts(unique_artifacts@)),
            forall|p: Seq<char>|
                #[trigger] texts(unique_platforms@).contains(p) <==> offers_platform(
                    given.take(i as int),
                    p,
                ),
            forall|r: Seq<char>|
                #[trigger] texts(unique_realms@).contains(r) <==> offers_realm(
                    given.take(i as int),
                    r,
                ),
            forall|a: Seq<char>|
                #[trigger] texts(unique_artifacts@).contains(a) <==> offers_artifact(
                    given.take(i as int),
                    a,
                ),
        decreases manifests.len() - i,
    {
        let entry = &manifests[i].1;
        let ghost last = given[i as int];
        let ghost shorter = given.take(i as int);
        let ghost longer = given.take(i + 1);
        assert(last.1 == entry@);
        assert(longer == shorter.push(last));
        insert_all(&mut unique_platforms, &entry.get_platforms());
        insert_all(&mut unique_realms, &entry.realms);
        if let Some(artifact) = &entry.artifact_type {
            if !same_text(artifact.as_str(), "default") {
                insert_ascending(&mut unique_artifacts, artifact.as_str());
            }
        }
        proof {
            lemma_offers_push(shorter, last);
        }
        i = i + 1;
    }
    assert(given.take(i as int) == given);
    let order = order_by_age(manifests);
    let mut list: Vec<CachedManifest> = Vec::new();
    let ghost all = all_cached(given);
    let mut k: usize = 0;
    while k < order.len()
        invariant
            k <= order@.len(),
            given == listed(manifests@),
            all == all_cached(given),
            all_displayable(manifests@),
            forall|m: int| 0 <= m < order@.len() ==> (#[trigger] order@[m]) < manifests@.len(),
            manifest_views(list@) == picked(all, order@).take(k as int),
        decreases order.len() - k,
    {
        let ghost before = manifest_views(list@);
        let place = order[k];
        let item = cache_manifest(&manifests[place].0, &manifests[place].1);
        assert(item@ == all[place as int]);
        list.push(item);
        assert(manifest_views(list@) == before.push(item@));
        assert(picked(all, order@).take(k + 1) == picked(all, order@).take(k as int).push(item@));
        k = k + 1;
    }
    assert(picked(all, order@).take(k as int) == picked(all, order@));
    GameCache { manifests: list, unique_platforms, unique_realms, unique_artifacts }
}

proof fn lemma_offers_push(s: Seq<(Seq<char>, EntryView)>, x: (Seq<char>, EntryView))
    ensures
        forall|p: Seq<char>|
            #[trigger] offers_platform(s.push(x), p) <==> (offers_platform(s, p)
                || x.1.platform_list().contains(p)),
        forall|r: Seq<char>|
            #[trigger] offers_realm(s.push(x), r) <==> (offers_realm(s, r) || x.1.realms.contains(
                r,
            )),
        forall|a: Seq<char>|
            #[trigger] offers_artifact(s.push(x), a) <==> (offers_artifact(s, a) || (a
                != "default"@ && x.1.artifact_type == Some(a))),
{
    let t = s.push(x);
    assert(t[s.len() as int] == x);
    assert(forall|i: int| 0 <= i < s.len() ==> t[i] == s[i]);
    assert forall|p: Seq<char>|
        #[trigger] offers_platform(t, p) <==> (offers_platform(s, p)
            || x.1.platform_list().contains(p)) by {
        if offers_platform(s, p) {
            let i = choose|i: int|
                0 <= i < s.len() && (#[trigger] s[i]).1.platform_list().contains(p);
            assert(t[i].1.platform_list().contains(p));
        }
        if x.1.platform_list().contains(p) {
            assert(t[s.len() as int].1.platform_list().contains(p));
        }
    }
    assert forall|r: Seq<char>|
        #[trigger] offers_realm(t, r) <==> (offers_realm(s, r) || x.1.realms.contains(r)) by {
        if offers_realm(s, r) {
            let i = choose|i: int| 0 <= i < s.len() && (#[trigger] s[i]).1.realms.contains(r);
            assert(t[i].1.realms.contains(r));
        }
        if x.1.realms.contains(r) {
            assert(t[s.len() as int].1.realms.contains(r));
        }
    }
    assert forall|a: Seq<char>|
        #[trigger] offers_artifact(t, a) <==> (offers_artifact(s, a) || (a != "default"@
            && x.1.artifact_type == Some(a))) by {
        if offers_artifact(s, a) {
            let i = choose|i: int|
                0 <= i < s.len() && (#[trigger] s[i]).1.artifact_type == Some(a);
            assert(t[i].1.artifact_type == Some(a));
        }
        if x.1.artifact_type == Some(a) {
            assert(t[s.len() as int].1.artifact_type == Some(a));
        }
    }
}

/// The names of the games of a catalog.
pub open spec fn catalog_names(catalog: Seq<(String, Vec<(String, CatalogEntry)>)>) -> Seq<
    Seq<char>,
> {
    catalog.map_values(|g: (String, Vec<(String, CatalogEntry)>)| g.0@)
}

/// The names of the games of a cache.
pub open spec fn cache_names(games: Seq<(String, GameCache)>) -> Seq<Seq<char>> {
    games.map_values(|g: (String, GameCache)| g.0@)
}

/// `games` are the games of a catalog, in its order, each with its cache.
pub open spec fn caches_all(
    games: Seq<(String, GameCache)>,
    catalog: Seq<(String, Vec<(String, CatalogEntry)>)>,
) -> bool {
    &&& games.len() == catalog.len()
    &&& forall|i: int|
        0 <= i < catalog.len() ==> {
            &&& (#[trigger] games[i]).0@ == catalog[i].0@
            &&& caches(games[i].1@, listed(catalog[i].1@))
        }
}

/// Builds the cache of every game of the catalog. The games keep their order.
pub fn build_manifest_cache(catalog: &Vec<(String, Vec<(String, CatalogEntry)>)>) -> (res: Vec<
    (String, GameCache),
>)
    requires
        forall|i: int| 0 <= i < catalog@.len() ==> all_displayable((#[trigger] catalog@[i]).1@),
    ensures
        caches_all(res@, catalog@),
{
    let mut res: Vec<(String, GameCache)> = Vec::new();
    let mut i: usize = 0;
    while i < catalog.len()
        invariant
            i <= catalog@.len(),
            res@.len() == i,
            forall|k: int|
                0 <= k < catalog@.len() ==> all_displayable((#[trigger] catalog@[k]).1@),
            forall|k: int|
                0 <= k < i ==> {
                    &&& (#[trigger] res@[k]).0@ == catalog@[k].0@
                    &&& caches(res@[k].1@, listed(catalog@[k].1@))
                },
        decreases catalog.len() - i,
    {
        assert(all_displayable(catalog@[i as int].1@));
        let cache = build_game_cache(&catalog[i].1);
        res.push((catalog[i].0.clone(), cache));
        i = i + 1;
    }
    res
}

/// Whether every entry of the catalog can be shortened for display.
pub fn catalog_is_displayable(catalog: &Vec<(String, Vec<(String, CatalogEntry)>)>) -> (res: bool)
    ensures
        res == forall|i: int|
            0 <= i < catalog@.len() ==> all_displayable((#[trigger] catalog@[i]).1@),
{
    let mut i: usize = 0;
    while i < catalog.len()
        invariant
            i <= catalog@.len(),
            forall|k: int| 0 <= k < i ==> all_displayable((#[trigger] catalog@[k]).1@),
        decreases catalog.len() - i,
    {
        let manifests = &catalog[i].1;
        let mut k: usize = 0;
        while k < manifests.len()
            invariant
                i < catalog@.len(),
                manifests@ == catalog@[i as int].1@,
                k <= manifests@.len(),
                forall|m: int| 0 <= m < k ==> (#[trigger] manifests@[m]).1@.displayable(),
            decreases manifests.len() - k,
        {
            if !manifests[k].1.is_displayable() {
                assert(!manifests@[k as int].1@.displayable());
                assert(!all_displayable(catalog@[i as int].1@));
                return false;
            }
            k = k + 1;
        }
        i = i + 1;
    }
    true
}

/// The date of a timestamp that begins with a year of four digits, a month and a day of two, with
/// hyphens between them: day, month and the last two digits of the year.
pub proof fn law_date_of_timestamp(
    year: Seq<char>,
    month: Seq<char>,
    day: Seq<char>,
    rest: Seq<char>,
)
    requires
        year.len() == 4 && month.len() == 2 && day.len() == 2,
        forall|i: int| 0 <= i < 4 ==> '0' <= #[trigger] year[i] <= '9',
        forall|i: int| 0 <= i < 2 ==> '0' <= #[trigger] month[i] <= '9',
        forall|i: int| 0 <= i < 2 ==> '0' <= #[trigger] day[i] <= '9',
    ensures
        datable(year + seq!['-'] + month + seq!['-'] + day + rest),
        date_text(year + seq!['-'] + month + seq!['-'] + day + rest) == day + "/"@ + month + "/"@
            + year.skip(2),
{
    let date = year + seq!['-'] + month + seq!['-'] + day;
    let stamp = date + rest;
    assert(stamp == year + seq!['-'] + month + seq!['-'] + day + rest);
    assert forall|i: int| 0 <= i < date.len() implies '\0' <= #[trigger] date[i] <= '\u{7f}' by {
        if i < 4 {
            assert(date[i] == year[i]);
        } else if 5 <= i < 7 {
            assert(date[i] == month[i - 5]);
        } else if i >= 8 {
            assert(date[i] == day[i - 8]);
        }
    }
    vstd::utf8::is_ascii_chars_encode_utf8(date);
    lemma_cut_between(date, rest);
    lemma_encode_concat(date, rest);
    assert(byte_len(date) == 10);
    assert(!year.contains('-') && !month.contains('-') && !day.contains('-'));
    lemma_split_single(year, '-');
    lemma_split_last(year, '-', month);
    assert(year.push('-') + month == year + seq!['-'] + month);
    lemma_split_last(year + seq!['-'] + month, '-', day);
    assert((year + seq!['-'] + month).push('-') + day == date);
    assert(split_on(date, '-') == seq![year].push(month).push(day));
    assert(vstd::utf8::is_ascii_chars(year));
    lemma_cut_ascii(year, 2);
}

/// A shortened version has at most seventeen bytes, and up to the ellipsis it begins like the
/// version itself.
pub proof fn law_short_version_fits(version: Seq<char>)
    requires
        shortenable(version),
    ensures
        byte_len(short_version(version)) <= 17,
        byte_len(version) > 16 ==> before_byte(version, 14) + after_byte(version, 14) == version,
{
    if byte_len(version) > 16 {
        lemma_cut_len(version, 14);
        lemma_cut_keeps_text(version, 14);
        lemma_encode_concat(before_byte(version, 14), "..."@);
        reveal_strlit("...");
        assert(vstd::utf8::is_ascii_chars("..."@));
        vstd::utf8::is_ascii_chars_encode_utf8("..."@);
    }
}

proof fn lemma_same_multiset_cached(
    a: Seq<(Seq<char>, EntryView)>,
    b: Seq<(Seq<char>, EntryView)>,
)
    requires
        a.to_multiset() == b.to_multiset(),
    ensures
        all_cached(a).to_multiset() == all_cached(b).to_multiset(),
    decreases a.len(),
{
    broadcast use vstd::seq_lib::group_to_multiset_ensures;

    if a.len() == 0 {
        assert(b.to_multiset().len() == 0);
        assert(all_cached(a) == all_cached(b));
    } else {
        let x = a.last();
        assert(a[a.len() - 1] == x);
        assert(a.contains(x));
        assert(a.to_multiset().count(x) > 0);
        assert(b.to_multiset().count(x) > 0);
        assert(b.contains(x));
        let k = choose|k: int| 0 <= k < b.len() && b[k] == x;
        let shorter = a.drop_last();
        assert(shorter == a.remove(a.len() - 1));
        lemma_same_multiset_cached(shorter, b.remove(k));
        assert(all_cached(a) == all_cached(shorter).push(cached(x)));
        assert(all_cached(b).remove(k) == all_cached(b.remove(k)));
        assert(all_cached(b)[k] == cached(x));
        assert(all_cached(b).contains(cached(x)));
        assert(all_cached(b).to_multiset() =~= all_cached(b).to_multiset().remove(
            cached(x),
        ).insert(cached(x)));
    }
}

proof fn lemma_same_offers(a: Seq<(Seq<char>, EntryView)>, b: Seq<(Seq<char>, EntryView)>, t: Seq<char>)
    requires
        a.to_multiset() == b.to_multiset(),
    ensures
        offers_platform(a, t) ==> offers_platform(b, t),
        offers_realm(a, t) ==> offers_realm(b, t),
        offers_artifact(a, t) ==> offers_artifact(b, t),
{
    broadcast use vstd::seq_lib::group_to_multiset_ensures;

    assert forall|i: int| 0 <= i < a.len() implies b.contains(#[trigger] a[i]) by {
        assert(a.contains(a[i]));
        assert(b.to_multiset().count(a[i]) > 0);
    }
    if offers_platform(a, t) {
        let i = choose|i: int|
            0 <= i < a.len() && (#[trigger] a[i]).1.platform_list().contains(t);
        let k = choose|k: int| 0 <= k < b.len() && b[k] == a[i];
        assert(b[k].1.platform_list().contains(t));
    }
    if offers_realm(a, t) {
        let i = choose|i: int| 0 <= i < a.len() && (#[trigger] a[i]).1.realms.contains(t);
        let k = choose|k: int| 0 <= k < b.len() && b[k] == a[i];
        assert(b[k].1.realms.contains(t));
    }
    if offers_artifact(a, t) {
        let i = choose|i: int| 0 <= i < a.len() && (#[trigger] a[i]).1.artifact_type == Some(t);
        let k = choose|k: int| 0 <= k < b.len() && b[k] == a[i];
        assert(b[k].1.artifact_type == Some(t));
    }
}

/// It does not matter in which order the catalog lists the manifests of a game: what is a cache
/// of them in one order is a cache of them in any other.
pub proof fn law_listing_order_does_not_matter(
    cache: GameView,
    a: Seq<(Seq<char>, EntryView)>,
    b: Seq<(Seq<char>, EntryView)>,
)
    requires
        a.to_multiset() == b.to_multiset(),
        caches(cache, a),
    ensures
        caches(cache, b),
{
    lemma_same_multiset_cached(a, b);
    assert forall|t: Seq<char>|
        offers_platform(a, t) == offers_platform(b, t) && offers_realm(a, t) == offers_realm(b, t)
            && offers_artifact(a, t) == offers_artifact(b, t) by {
        lemma_same_offers(a, b, t);
        lemma_same_offers(b, a, t);
    }
}

/// The values that the filters of a game offer are fixed by its manifests, order and all.
pub proof fn law_offered_values_are_fixed(
    one: GameView,
    other: GameView,
    manifests: Seq<(Seq<char>, EntryView)>,
)
    requires
        caches(one, manifests),
        caches(other, manifests),
    ensures
        one.unique_platforms == other.unique_platforms,
        one.unique_realms == other.unique_realms,
        one.unique_artifacts == other.unique_artifacts,
{
    assert forall|t: Seq<char>|
        one.unique_platforms.contains(t) <==> other.unique_platforms.contains(t) by {
        assert(one.unique_platforms.contains(t) <==> offers_platform(manifests, t));
    }
    lemma_ascending_unique(one.unique_platforms, other.unique_platforms);
    assert forall|t: Seq<char>|
        one.unique_realms.contains(t) <==> other.unique_realms.contains(t) by {
        assert(one.unique_realms.contains(t) <==> offers_realm(manifests, t));
    }
    lemma_ascending_unique(one.unique_realms, other.unique_realms);
    assert forall|t: Seq<char>|
        one.unique_artifacts.contains(t) <==> other.unique_artifacts.contains(t) by {
        assert(one.unique_artifacts.contains(t) <==> offers_artifact(manifests, t));
    }
    lemma_ascending_unique(one.unique_artifacts, other.unique_artifacts);
}

/// Every manifest of the game is in its cache, ready for display, and nothing else is.
pub proof fn law_cache_is_complete(
    cache: GameView,
    manifests: Seq<(Seq<char>, EntryView)>,
    m: ManifestView,
)
    requires
        caches(cache, manifests),
    ensures
        cache.manifests.len() == manifests.len(),
        cache.manifests.contains(m) <==> exists|i: int|
            0 <= i < manifests.len() && cached(#[trigger] manifests[i]) == m,
{
    broadcast use vstd::seq_lib::group_to_multiset_ensures;

    let all = all_cached(manifests);
    assert(cache.manifests.to_multiset().len() == all.to_multiset().len());
    assert(cache.manifests.to_multiset().count(m) == all.to_multiset().count(m));
    assert(cache.manifests.contains(m) <==> all.contains(m));
    if all.contains(m) {
        let i = choose|i: int| 0 <= i < all.len() && all[i] == m;
        assert(cached(manifests[i]) == m);
    }
    if exists|i: int| 0 <= i < manifests.len() && cached(#[trigger] manifests[i]) == m {
        let i = choose|i: int| 0 <= i < manifests.len() && cached(#[trigger] manifests[i]) == m;
        assert(all[i] == m);
    }
}

/// No game is cached twice where the catalog lists none twice.
pub proof fn law_games_stay_distinct(
    games: Seq<(String, GameCache)>,
    catalog: Seq<(String, Vec<(String, CatalogEntry)>)>,
)
    requires
        caches_all(games, catalog),
    ensures
        cache_names(games) == catalog_names(catalog),
        catalog_names(catalog).no_duplicates() ==> cache_names(games).no_duplicates(),
{
    assert forall|i: int| 0 <= i < games.len() implies cache_names(games)[i]
        == #[trigger] catalog_names(catalog)[i] by {
        assert(games[i].0@ == catalog[i].0@);
    }
    assert(cache_names(games) =~= catalog_names(catalog));
}

/// The ids under which the catalog lists manifests.
pub open spec fn listed_ids(manifests: Seq<(Seq<char>, EntryView)>) -> Seq<Seq<char>> {
    manifests.map_values(|m: (Seq<char>, EntryView)| m.0)
}

/// The ids of cached manifests.
pub open spec fn cached_ids(manifests: Seq<ManifestView>) -> Seq<Seq<char>> {
    manifests.map_values(|m: ManifestView| m.id)
}

/// No id is cached twice where the catalog lists none of the game twice.
pub proof fn law_manifests_stay_distinct(cache: GameView, manifests: Seq<(Seq<char>, EntryView)>)
    requires
        caches(cache, manifests),
        listed_ids(manifests).no_duplicates(),
    ensures
        cached_ids(cache.manifests).no_duplicates(),
{
    broadcast use vstd::seq_lib::group_to_multiset_ensures;

    let all = all_cached(manifests);
    let ids = listed_ids(manifests);
    let list = cache.manifests;
    assert forall|i: int| 0 <= i < all.len() implies (#[trigger] all[i]).id == ids[i] by {}
    assert(all.no_duplicates()) by {
        assert forall|i: int, j: int| 0 <= i < all.len() && 0 <= j < all.len() && i != j implies all[i]
            != all[j] by {
            assert(ids[i] != ids[j]);
        }
    }
    all.lemma_multiset_has_no_duplicates();
    list.lemma_multiset_has_no_duplicates_conv();
    assert forall|i: int, j: int|
        0 <= i < list.len() && 0 <= j < list.len() && i != j implies cached_ids(list)[i]
        != cached_ids(list)[j] by {
        assert(list.contains(list[i]) && list.contains(list[j]));
        assert(all.to_multiset().count(list[i]) > 0 && all.to_multiset().count(list[j]) > 0);
        let p = choose|p: int| 0 <= p < all.len() && all[p] == list[i];
        let q = choose|q: int| 0 <= q < all.len() && all[q] == list[j];
        assert(list[i] != list[j]);
        assert(ids[p] != ids[q]);
    }
}

/// Where the catalog is kept and where it is downloaded from.
pub struct CatalogManager {
    pub local_path: String,
    pub url: String,
}

impl CatalogManager {
    pub fn new() -> (res: Self)
        ensures
            res.local_path@ == "catalog.json"@,
            res.url@
                == "https://raw.githubusercontent.com/RiotArchiveProject/catalog-download-script/refs/heads/main/catalog.json"@,
    {
        CatalogManager {
            local_path: "catalog.json".to_owned(),
            url:
                "https://raw.githubusercontent.com/RiotArchiveProject/catalog-download-script/refs/heads/main/catalog.json".to_owned(),
        }
    }
}

/// What the cache takes over from an entry as it is: id, version, realms, size and timestamp, the
/// platforms that it lists, or the single one, or `neutral`, and the artifact type, or `default`.
pub proof fn law_cached_manifest_keeps_the_entry(id: Seq<char>, entry: EntryView)
    ensures
        cached((id, entry)).id == id,
        cached((id, entry)).version == entry.version,
        cached((id, entry)).realms == entry.realms,
        cached((id, entry)).size == entry.size,
        cached((id, entry)).timestamp == entry.timestamp,
        cached((id, entry)).size_str == size_text(entry.size as nat),
        cached((id, entry)).date_str == date_text(entry.timestamp),
        cached((id, entry)).version_short == short_version(entry.version),
        cached((id, entry)).realms_short == short_realms(entry.realms),
        entry.platforms matches Some(list) ==> cached((id, entry)).platforms == list,
        entry.platforms is None && entry.platform is Some ==> cached((id, entry)).platforms == seq![
            entry.platform->0,
        ],
        entry.platforms is None && entry.platform is None ==> cached((id, entry)).platforms == seq![
            "neutral"@,
        ],
        entry.artifact_type matches Some(a) ==> cached((id, entry)).artifact_type == a,
        entry.artifact_type is None ==> cached((id, entry)).artifact_type == "default"@,
{
}

/// A version of at most sixteen bytes is shown in full; of a longer one, fourteen bytes that the
/// version begins with, and an ellipsis.
pub proof fn law_short_version_begins_like_the_version(version: Seq<char>)
    requires
        shortenable(version),
    ensures
        byte_len(version) <= 16 ==> short_version(version) == version,
        byte_len(version) > 16 ==> ({
            let n = short_version(version).len() - 3;
            let head = short_version(version).take(n);
            &&& 0 <= n <= version.len()
            &&& short_version(version).skip(n) == seq!['.', '.', '.']
            &&& head == version.take(n)
            &&& byte_len(head) == 14
        }),
{
    if byte_len(version) > 16 {
        let head = before_byte(version, 14);
        let tail = after_byte(version, 14);
        lemma_cut_len(version, 14);
        lemma_cut_keeps_text(version, 14);
        reveal_strlit("...");
        let n = head.len() as int;
        assert(short_version(version).take(n) == head);
        assert(short_version(version).skip(n) == seq!['.', '.', '.']);
        assert((head + tail).take(n) == head);
    }
}

/// Of more than three realms the first two are shown, and the number that is read between `(+`
/// and `)` makes up with them the number of all realms.
pub proof fn law_realms_left_out_are_counted(realms: Seq<Seq<char>>)
    requires
        3 < realms.len() <= u64::MAX,
    ensures
        ({
            let text = short_realms(realms);
            let head = realms[0] + seq![',', ' '] + realms[1] + seq![' ', '(', '+'];
            let n = text.len() - 1;
            &&& head.len() < n
            &&& text.take(head.len() as int) == head
            &&& text[n] == ')'
            &&& parsed(text.subrange(head.len() as int, n), 10) is Some
            &&& parsed(text.subrange(head.len() as int, n), 10)->0 + 2 == realms.len()
        }),
{
    let left = (realms.len() - 2) as u64;
    let digits = decimal_text(left as nat);
    lemma_decimal_round_trip(left);
    crate::number::law_decimal_digits(left);
    reveal_strlit(", ");
    reveal_strlit(" (+");
    reveal_strlit(")");
    let text = short_realms(realms);
    let head = realms[0] + seq![',', ' '] + realms[1] + seq![' ', '(', '+'];
    assert(text =~= head + digits + seq![')']);
    assert(digits.len() > 0) by {
        if digits.len() == 0 {
            assert(digits == Seq::<char>::empty());
            crate::number::law_parsed_single_digit('0', 10);
        }
    }
    assert(text.take(head.len() as int) == head);
    assert(text.subrange(head.len() as int, text.len() - 1) == digits);
}

/// Up to three realms are all shown, in order, with commas between them.
pub proof fn law_few_realms_are_shown_in_full(a: Seq<char>, b: Seq<char>, c: Seq<char>)
    ensures
        short_realms(Seq::empty()) == Seq::<char>::empty(),
        short_realms(seq![a]) == a,
        short_realms(seq![a, b]) == a + seq![',', ' '] + b,
        short_realms(seq![a, b, c]) == a + seq![',', ' '] + b + seq![',', ' '] + c,
{
    reveal_strlit(", ");
    assert(", "@ =~= seq![',', ' ']);
    assert(seq![a, b].drop_last() =~= seq![a]);
    assert(seq![a, b, c].drop_last() =~= seq![a, b]);
    assert(joined(seq![a], ", "@) == a);
    assert(joined(seq![a, b], ", "@) == a + ", "@ + b);
}

/// The date of any timestamp whose first ten bytes have two hyphens: what is behind the second,
/// what is between them, and what is in front but for its first two bytes.
pub proof fn law_date_of_three_parts(
    century: Seq<char>,
    year: Seq<char>,
    month: Seq<char>,
    day: Seq<char>,
    rest: Seq<char>,
)
    requires
        byte_len(century) == 2,
        !(century + year).contains('-') && !month.contains('-') && !day.contains('-'),
        byte_len(century + year + seq!['-'] + month + seq!['-'] + day) == 10,
    ensures
        datable(century + year + seq!['-'] + month + seq!['-'] + day + rest),
        date_text(century + year + seq!['-'] + month + seq!['-'] + day + rest) == day + seq!['/']
            + month + seq!['/'] + year,
{
    let first = century + year;
    let date = first + seq!['-'] + month + seq!['-'] + day;
    lemma_cut_between(date, rest);
    lemma_encode_concat(date, rest);
    lemma_split_single(first, '-');
    lemma_split_last(first, '-', month);
    assert(first.push('-') + month == first + seq!['-'] + month);
    lemma_split_last(first + seq!['-'] + month, '-', day);
    assert((first + seq!['-'] + month).push('-') + day == date);
    assert(split_on(date, '-') == seq![first].push(month).push(day));
    lemma_cut_between(century, year);
    reveal_strlit("/");
    assert("/"@ =~= seq!['/']);
}

proof fn lemma_split_count(s: Seq<char>)
    ensures
        split_on(s, '-').len() == s.filter(|c: char| c == '-').len() + 1,
    decreases s.len(),
{
    reveal(Seq::filter);
    if s.len() > 0 {
        lemma_split_count(s.drop_last());
        crate::text::law_split_parts_make_up_the_text(s.drop_last(), '-');
    }
}

/// A timestamp of fewer than ten bytes, or whose first ten bytes do not have exactly two hyphens,
/// has no date.
pub proof fn law_other_timestamps_have_no_date(head: Seq<char>, rest: Seq<char>)
    ensures
        byte_len(head) < 10 ==> date_text(head) == "??/??/??"@,
        byte_len(head) == 10 && head.filter(|c: char| c == '-').len() != 2 ==> date_text(head + rest)
            == "??/??/??"@,
{
    lemma_cut_between(head, rest);
    lemma_split_count(head);
}

/// Each manifest of the game is in the cache, with its id, version, realms, size and timestamp.
pub proof fn law_each_manifest_is_cached(
    cache: GameView,
    manifests: Seq<(Seq<char>, EntryView)>,
    i: int,
)
    requires
        caches(cache, manifests),
        0 <= i < manifests.len(),
    ensures
        exists|k: int|
            0 <= k < cache.manifests.len() && ({
                let m = #[trigger] cache.manifests[k];
                let entry = manifests[i].1;
                &&& m.id == manifests[i].0
                &&& m.version == entry.version
                &&& m.realms == entry.realms
                &&& m.size == entry.size
                &&& m.timestamp == entry.timestamp
            }),
        cache.manifests.len() == manifests.len(),
{
    let m = cached(manifests[i]);
    law_cache_is_complete(cache, manifests, m);
    let k = choose|k: int| 0 <= k < cache.manifests.len() && cache.manifests[k] == m;
    assert(cache.manifests[k] == m);
}

/// Of two manifests in the cache, the one with the later timestamp stands in front.
pub proof fn law_later_manifests_come_first(
    cache: GameView,
    manifests: Seq<(Seq<char>, EntryView)>,
    p: int,
    q: int,
)
    requires
        caches(cache, manifests),
        0 <= p < cache.manifests.len(),
        0 <= q < cache.manifests.len(),
        precedes(cache.manifests[q].timestamp, cache.manifests[p].timestamp),
    ensures
        p < q,
{
    crate::ordering::lemma_precedes_irreflexive(cache.manifests[p].timestamp);
}

/// A filter offers whatever some manifest has, in whatever place; but `default` is no artifact
/// type to choose.
pub proof fn law_filters_offer_what_manifests_have(
    cache: GameView,
    manifests: Seq<(Seq<char>, EntryView)>,
    i: int,
    value: Seq<char>,
)
    requires
        caches(cache, manifests),
        0 <= i < manifests.len(),
    ensures
        (manifests[i].1.platforms matches Some(list) && list.contains(value))
            ==> cache.unique_platforms.contains(value),
        manifests[i].1.platforms is None && manifests[i].1.platform == Some(value)
            ==> cache.unique_platforms.contains(value),
        manifests[i].1.platforms is None && manifests[i].1.platform is None
            ==> cache.unique_platforms.contains("neutral"@),
        manifests[i].1.realms.contains(value) ==> cache.unique_realms.contains(value),
        manifests[i].1.artifact_type == Some(value) && value != "default"@
            ==> cache.unique_artifacts.contains(value),
        !cache.unique_artifacts.contains("default"@),
{
    let entry = manifests[i].1;
    if entry.platforms is None {
        let only = if entry.platform is Some { entry.platform->0 } else { "neutral"@ };
        assert(entry.platform_list() == seq![only]);
        assert(seq![only][0] == only);
        assert(entry.platform_list().contains(only));
        assert(offers_platform(manifests, only));
    }
    if entry.platform_list().contains(value) {
        assert(offers_platform(manifests, value));
    }
    if entry.realms.contains(value) {
        assert(offers_realm(manifests, value));
    }
    if entry.artifact_type == Some(value) && value != "default"@ {
        assert(offers_artifact(manifests, value));
    }
    assert(!offers_artifact(manifests, "default"@));
}

/// A filter offers nothing that no manifest has.
pub proof fn law_filters_offer_nothing_else(
    cache: GameView,
    manifests: Seq<(Seq<char>, EntryView)>,
    value: Seq<char>,
)
    requires
        caches(cache, manifests),
    ensures
        cache.unique_platforms.contains(value) ==> exists|i: int|
            0 <= i < manifests.len() && ({
                let entry = (#[trigger] manifests[i]).1;
                ||| entry.platforms matches Some(list) && list.contains(value)
                ||| entry.platforms is None && entry.platform == Some(value)
                ||| entry.platforms is None && entry.platform is None && value == "neutral"@
            }),
        cache.unique_realms.contains(value) ==> exists|i: int|
            0 <= i < manifests.len() && (#[trigger] manifests[i]).1.realms.contains(value),
        cache.unique_artifacts.contains(value) ==> exists|i: int|
            0 <= i < manifests.len() && (#[trigger] manifests[i]).1.artifact_type == Some(value),
{
    if cache.unique_platforms.contains(value) {
        assert(offers_platform(manifests, value));
        let i = choose|i: int|
            0 <= i < manifests.len() && (#[trigger] manifests[i]).1.platform_list().contains(value);
        let list = manifests[i].1.platform_list();
        let k = choose|k: int| 0 <= k < list.len() && list[k] == value;
        assert(manifests[i].1.platforms is None ==> k == 0);
    }
    if cache.unique_realms.contains(value) {
        assert(offers_realm(manifests, value));
    }
    if cache.unique_artifacts.contains(value) {
        assert(offers_artifact(manifests, value));
    }
}

/// The views of entries and of cached manifests leave nothing out.
pub proof fn law_catalog_views_are_faithful(entry: CatalogEntry, m: CachedManifest, game: GameCache)
    ensures
        entry@.version == entry.version@,
        entry@.realms == texts(entry.realms@),
        (entry@.platform is Some) == (entry.platform is Some),
        entry.platform matches Some(p) ==> entry@.platform == Some(p@),
        (entry@.platforms is Some) == (entry.platforms is Some),
        entry.platforms matches Some(list) ==> entry@.platforms == Some(texts(list@)),
        (entry@.artifact_type is Some) == (entry.artifact_type is Some),
        entry.artifact_type matches Some(a) ==> entry@.artifact_type == Some(a@),
        entry@.timestamp == entry.timestamp@,
        entry@.size == entry.size,
        m@.id == m.id@ && m@.version == m.version@ && m@.version_short == m.version_short@,
        m@.realms == texts(m.realms@) && m@.realms_short == m.realms_short@,
        m@.platforms == texts(m.platforms@) && m@.artifact_type == m.artifact_type@,
        m@.date_str == m.date_str@ && m@.size_str == m.size_str@,
        m@.size == m.size && m@.timestamp == m.timestamp@,
        game@.manifests.len() == game.manifests@.len(),
        forall|i: int|
            0 <= i < game.manifests@.len() ==> #[trigger] game@.manifests[i] == game.manifests@[i]@,
        game@.unique_platforms == texts(game.unique_platforms@),
        game@.unique_realms == texts(game.unique_realms@),
        game@.unique_artifacts == texts(game.unique_artifacts@),
{
}

/// The catalog lists each manifest with its id and its entry, in order.
pub proof fn law_listing_is_faithful(manifests: Seq<(String, CatalogEntry)>, i: int)
    requires
        0 <= i < manifests.len(),
    ensures
        listed(manifests).len() == manifests.len(),
        listed(manifests)[i].0 == manifests[i].0@,
        listed(manifests)[i].1 == manifests[i].1@,
{
}

/// Every version that has at most sixteen bytes, or a place between characters after fourteen,
/// can be shortened.
pub proof fn law_versions_that_can_be_shortened(head: Seq<char>, tail: Seq<char>)
    ensures
        byte_len(head) <= 16 ==> shortenable(head),
        byte_len(head) == 14 ==> shortenable(head + tail),
{
    lemma_cut_between(head, tail);
}

/// Every timestamp that is too short, or that has a place between characters after ten bytes and
/// no three parts in front of it, has question marks for a date, and can be shown.
pub proof fn law_undated_timestamps_can_be_shown(head: Seq<char>, tail: Seq<char>)
    ensures
        byte_len(head) < 10 ==> datable(head),
        byte_len(head) == 10 && head.filter(|c: char| c == '-').len() != 2 ==> datable(head + tail),
{
    lemma_cut_between(head, tail);
    lemma_split_count(head);
}

/// Each game is cached under its name at its place, and each of its manifests is in that cache.
pub proof fn law_each_game_is_cached(
    games: Seq<(String, GameCache)>,
    catalog: Seq<(String, Vec<(String, CatalogEntry)>)>,
    g: int,
    i: int,
)
    requires
        caches_all(games, catalog),
        0 <= g < catalog.len(),
        0 <= i < catalog[g].1@.len(),
    ensures
        games.len() == catalog.len(),
        games[g].0@ == catalog[g].0@,
        games[g].1.manifests@.len() == catalog[g].1@.len(),
        exists|k: int|
            0 <= k < games[g].1.manifests@.len() && ({
                let m = #[trigger] games[g].1.manifests@[k];
                let listing = catalog[g].1@[i];
                &&& m.id@ == listing.0@
                &&& m.version@ == listing.1.version@
                &&& m.timestamp@ == listing.1.timestamp@
                &&& m.size == listing.1.size
                &&& texts(m.realms@) == texts(listing.1.realms@)
            }),
{
    let cache = games[g].1@;
    let manifests = listed(catalog[g].1@);
    law_each_manifest_is_cached(cache, manifests, i);
    let k = choose|k: int|
        0 <= k < cache.manifests.len() && ({
            let m = #[trigger] cache.manifests[k];
            let entry = manifests[i].1;
            &&& m.id == manifests[i].0
            &&& m.version == entry.version
            &&& m.realms == entry.realms
            &&& m.size == entry.size
            &&& m.timestamp == entry.timestamp
        });
    assert(games[g].1.manifests@[k]@ == cache.manifests[k]);
}

} // verus!
