//! Answering queries: what is remembered, what is loaded and what is replied.
//!
//! The service decides and remembers; its caller performs the loads. A query either
//! has its reply at once or names the next load, and the outcome of each load is
//! handed back until the reply is there.

use crate::envelope::{in_network, nexrad_network};
use crate::ieee::Double;
use crate::metar::{latest, parse_body, AwcMetar, BBox, Pick, Query, QueryView};
use crate::protocol::{report_views, MetarReport, ReportView};
use crate::select::{
    in_bbox, inside, parse_stations, pool, pool_holds_the_last, priorities_of, ranged_views,
    reports_in, select, selection, selection_fills_up, stands, AwcStation, Ranged, RangedView,
};
use crate::table::{Key, Table};
use crate::text::{chars_of, join, joined, same_text};
use vstd::prelude::*;

verus! {

pub const DEFAULT_URL: &'static str = "https://aviationweather.gov/api/data/metar";

pub const DEFAULT_STATIONS_URL: &'static str = "https://aviationweather.gov/api/data/stationinfo";

/// The most bytes of a response.
pub const MAX_BODY: usize = 1_048_576;

/// How long a reply is remembered: 600 seconds, in nanoseconds.
pub const TTL: u128 = 600_000_000_000;

/// How long station priorities are remembered: a day, in nanoseconds.
pub const STATIONS_TTL: u128 = 86_400_000_000_000;

/// A reading of the two clocks: seconds since 1970, and nanoseconds on a clock that
/// never runs backwards.
#[derive(Clone, Copy, Debug)]
pub struct Clock {
    pub unix: i64,
    pub steady: u128,
}

/// What makes two queries one: the place and box to a tenth of a degree, the pick, the
/// limit, the pinned ids and the hour.
#[derive(Debug)]
pub struct CacheKey {
    pub lat: i32,
    pub lon: i32,
    pub south: i32,
    pub west: i32,
    pub north: i32,
    pub east: i32,
    pub pick: u8,
    pub limit: u8,
    pub always: String,
    pub hour: i64,
}

pub struct CacheKeyView {
    pub lat: int,
    pub lon: int,
    pub south: int,
    pub west: int,
    pub north: int,
    pub east: int,
    pub pick: int,
    pub limit: int,
    pub always: Seq<char>,
    pub hour: int,
}

impl View for CacheKey {
    type V = CacheKeyView;

    open spec fn view(&self) -> CacheKeyView {
        CacheKeyView {
            lat: self.lat as int,
            lon: self.lon as int,
            south: self.south as int,
            west: self.west as int,
            north: self.north as int,
            east: self.east as int,
            pick: self.pick as int,
            limit: self.limit as int,
            always: self.always@,
            hour: self.hour as int,
        }
    }
}

impl Key for CacheKey {
    fn same(&self, other: &CacheKey) -> (r: bool) {
        self.lat == other.lat && self.lon == other.lon && self.south == other.south && self.west
            == other.west && self.north == other.north && self.east == other.east && self.pick
            == other.pick && self.limit == other.limit && same_text(
            self.always.as_str(),
            other.always.as_str(),
        ) && self.hour == other.hour
    }
}

/// What makes two loads of priorities one: the box to a tenth of a degree and the day.
#[derive(Clone, Copy, Debug)]
pub struct StationsKey {
    pub south: i32,
    pub west: i32,
    pub north: i32,
    pub east: i32,
    pub day: i64,
}

impl View for StationsKey {
    type V = StationsKey;

    open spec fn view(&self) -> StationsKey {
        *self
    }
}

impl Key for StationsKey {
    fn same(&self, other: &StationsKey) -> (r: bool) {
        self.south == other.south && self.west == other.west && self.north == other.north
            && self.east == other.east && self.day == other.day
    }
}

pub open spec fn cache_key_of(q: QueryView, unix: int) -> CacheKeyView {
    let (south, west, north, east) = match q.bbox {
        Some(b) => (b.south.tenths(), b.west.tenths(), b.north.tenths(), b.east.tenths()),
        None => (0, 0, 0, 0),
    };
    CacheKeyView {
        lat: q.lat.tenths(),
        lon: q.lon.tenths(),
        south,
        west,
        north,
        east,
        pick: match q.pick {
            Pick::Nearest => 0,
            Pick::Priority => 1,
        },
        limit: q.limit as int % 256,
        always: joined(q.always_on, " "@),
        hour: unix / 3600,
    }
}

pub open spec fn stations_key_of(b: BBox, unix: int) -> StationsKey {
    StationsKey {
        south: b.south.tenths() as i32,
        west: b.west.tenths() as i32,
        north: b.north.tenths() as i32,
        east: b.east.tenths() as i32,
        day: (unix / 86400) as i64,
    }
}

/// The key under which the reply to a query is remembered.
pub fn cache_key(q: &Query, unix: i64) -> (r: CacheKey)
    ensures
        r@ == cache_key_of(q@, unix as int),
{
    let (south, west, north, east): (i32, i32, i32, i32) = match q.bbox {
        Some(b) => (
            b.south.to_tenths(),
            b.west.to_tenths(),
            b.north.to_tenths(),
            b.east.to_tenths(),
        ),
        None => (0, 0, 0, 0),
    };
    let limit: usize = q.limit;
    assert(limit as u8 == limit % 256) by (bit_vector);
    CacheKey {
        lat: q.lat.to_tenths(),
        lon: q.lon.to_tenths(),
        south,
        west,
        north,
        east,
        pick: match q.pick {
            Pick::Nearest => 0,
            Pick::Priority => 1,
        },
        limit: #[verifier::truncate] (limit as u8),
        always: join(&q.always_on, " "),
        hour: unix.checked_div_euclid(3600).unwrap(),
    }
}

/// The key under which the priorities of a box are remembered.
pub fn stations_key(b: BBox, unix: i64) -> (r: StationsKey)
    ensures
        r == stations_key_of(b, unix as int),
{
    StationsKey {
        south: b.south.to_tenths(),
        west: b.west.to_tenths(),
        north: b.north.to_tenths(),
        east: b.east.to_tenths(),
        day: unix.checked_div_euclid(86400).unwrap(),
    }
}

/// The corners of a box, each written with four decimals.
#[derive(Debug)]
pub struct CornerTexts {
    pub south: String,
    pub west: String,
    pub north: String,
    pub east: String,
}

/// The address that asks for a box.
pub open spec fn url_of(base: Seq<char>, corners: CornerTexts, hours: bool) -> Seq<char> {
    base + (if base.contains('?') {
        "&"@
    } else {
        "?"@
    }) + "bbox="@ + corners.south@ + ","@ + corners.west@ + ","@ + corners.north@ + ","@
        + corners.east@ + "&format=json"@ + (if hours {
        "&hours=1"@
    } else {
        ""@
    })
}

/// The address that asks for a box, and for the observations of the last hour where
/// `hours` is set.
pub fn bbox_url(base: &str, corners: &CornerTexts, hours: bool) -> (r: String)
    ensures
        r@ == url_of(base@, *corners, hours),
{
    let mut r = base.to_owned();
    r.append(if has_char(base, '?') {
        "&"
    } else {
        "?"
    });
    r.append("bbox=");
    r.append(corners.south.as_str());
    r.append(",");
    r.append(corners.west.as_str());
    r.append(",");
    r.append(corners.north.as_str());
    r.append(",");
    r.append(corners.east.as_str());
    r.append("&format=json");
    r.append(if hours {
        "&hours=1"
    } else {
        ""
    });
    r
}

fn has_char(s: &str, c: char) -> (r: bool)
    ensures
        r == s@.contains(c),
{
    let chars = chars_of(s);
    let mut i: usize = 0;
    while i < chars.len()
        invariant
            i <= chars@.len(),
            chars@ == s@,
            forall|j: int| 0 <= j < i ==> s@[j] != c,
        decreases chars@.len() - i,
    {
        if chars[i] == c {
            assert(s@[i as int] == c);
            return true;
        }
        i = i + 1;
    }
    false
}

/// A value and when it was stored.
#[derive(Debug)]
pub struct Timed<V> {
    pub at: u128,
    pub value: V,
}

/// Whether something stored at `at` still counts at `now`.
pub open spec fn is_fresh(at: u128, now: u128, ttl: u128) -> bool {
    now - at < ttl
}

fn fresh(at: u128, now: u128, ttl: u128) -> (r: bool)
    requires
        ttl > 0,
    ensures
        r == is_fresh(at, now, ttl),
{
    now < at || now - at < ttl
}

/// What is remembered under a key, if it still counts.
pub open spec fn recalled<K, V>(
    stored: Map<K, (u128, V)>,
    key: K,
    now: u128,
    ttl: u128,
) -> Option<V> {
    if stored.dom().contains(key) && is_fresh(stored[key].0, now, ttl) {
        Some(stored[key].1)
    } else {
        None
    }
}

/// What is stored is recalled until its time is over, and not any more from then on.
pub proof fn stored_is_recalled<K, V>(
    stored: Map<K, (u128, V)>,
    key: K,
    value: V,
    at: u128,
    now: u128,
    ttl: u128,
)
    requires
        at <= now,
    ensures
        now - at < ttl ==> recalled(stored.insert(key, (at, value)), key, now, ttl) == Some(value),
        now - at >= ttl ==> recalled(stored.insert(key, (at, value)), key, now, ttl) == None::<V>,
{
}

/// Storing under one key leaves what is recalled under the others.
pub proof fn storing_keeps_the_others<K, V>(
    stored: Map<K, (u128, V)>,
    key: K,
    other: K,
    value: V,
    at: u128,
    now: u128,
    ttl: u128,
)
    requires
        key != other,
    ensures
        recalled(stored.insert(key, (at, value)), other, now, ttl) == recalled(
            stored,
            other,
            now,
            ttl,
        ),
{
}

/// Whether all reports lie inside a box, where there is one.
pub open spec fn reports_inside(reports: Seq<ReportView>, bbox: Option<BBox>) -> bool {
    bbox matches Some(b) ==> forall|k: int|
        0 <= k < reports.len() ==> inside((#[trigger] reports[k]).lat, reports[k].lon, b)
}

/// What is selected lies inside the box of the query.
proof fn lemma_selected_inside(
    items: Seq<RangedView>,
    q: QueryView,
    priorities: Map<Seq<char>, u8>,
)
    ensures
        reports_inside(reports_in(selection(items, q, priorities)), q.bbox),
{
    let chosen = selection(items, q, priorities);
    let reports = reports_in(chosen);
    selection_fills_up(items, q, priorities);
    pool_holds_the_last(items, q);
    if q.bbox is Some {
        assert forall|k: int| 0 <= k < reports.len() implies inside(
            (#[trigger] reports[k]).lat,
            reports[k].lon,
            q.bbox->0,
        ) by {
            assert(chosen.contains(chosen[k]));
            assert(pool(items, q).contains(chosen[k]));
            assert(stands(items, q, chosen[k]));
        }
    }
}

/// The remembered reply that a query gets. Queries whose boxes differ by less than a
/// tenth of a degree share a key, so a reply counts only where all of it lies inside
/// the query's own box.
pub open spec fn remembered_for(
    replies: Map<CacheKeyView, (u128, Seq<ReportView>)>,
    q: QueryView,
    unix: int,
    now: u128,
) -> Option<Seq<ReportView>> {
    match recalled(replies, cache_key_of(q, unix), now, TTL) {
        Some(hit) if reports_inside(hit, q.bbox) => Some(hit),
        _ => None,
    }
}

/// A query that is asked again within the hour gets its own reply again until the
/// reply's time is over.
pub proof fn reply_is_given_again(
    replies: Map<CacheKeyView, (u128, Seq<ReportView>)>,
    q: QueryView,
    reports: Seq<ReportView>,
    asked: int,
    at: u128,
    again: int,
    now: u128,
)
    requires
        reports_inside(reports, q.bbox),
        asked / 3600 == again / 3600,
        at <= now,
        now - at < TTL,
    ensures
        remembered_for(
            replies.insert(cache_key_of(q, asked), (at, reports)),
            q,
            again,
            now,
        ) == Some(reports),
{
    stored_is_recalled(replies, cache_key_of(q, asked), reports, at, now, TTL);
}

fn check_inside(reports: &Vec<MetarReport>, bbox: Option<BBox>) -> (r: bool)
    ensures
        r == reports_inside(report_views(reports@), bbox),
{
    let b: BBox = match bbox {
        Some(b) => b,
        None => return true,
    };
    let ghost views = report_views(reports@);
    let mut i: usize = 0;
    while i < reports.len()
        invariant
            i <= reports@.len(),
            bbox == Some(b),
            views == report_views(reports@),
            forall|k: int| 0 <= k < i ==> inside((#[trigger] views[k]).lat, views[k].lon, b),
        decreases reports@.len() - i,
    {
        assert(views[i as int] == reports@[i as int]@);
        if !in_bbox(reports[i].lat, reports[i].lon, b) {
            return false;
        }
        i = i + 1;
    }
    true
}

/// Where to find a body: in the file that stands in for the live feed, or at the
/// address of a box.
#[derive(Debug)]
pub enum Load {
    Fixture,
    Fetch { base: String, bbox: BBox, hours: bool },
}

/// A query on its way to a reply.
#[derive(Debug)]
pub struct Asking {
    q: Query,
    key: CacheKey,
    stations_key: StationsKey,
    bbox: BBox,
    priorities: Table<String, u8>,
}

impl Asking {
    pub closed spec fn query(&self) -> QueryView {
        self.q@
    }

    pub closed spec fn key(&self) -> CacheKeyView {
        self.key@
    }

    pub closed spec fn stations_key(&self) -> StationsKey {
        self.stations_key
    }

    /// The box that is searched.
    pub closed spec fn search_box(&self) -> BBox {
        self.bbox
    }

    pub closed spec fn priorities(&self) -> Map<Seq<char>, u8> {
        self.priorities@
    }
}

/// A query whose reports are there, without their distances.
#[derive(Debug)]
pub struct Measuring {
    asking: Asking,
    reports: Vec<MetarReport>,
}

impl Measuring {
    pub closed spec fn asking(&self) -> Asking {
        self.asking
    }

    pub closed spec fn reports(&self) -> Seq<ReportView> {
        report_views(self.reports@)
    }

    /// The place that distances are measured from.
    pub fn place(&self) -> (r: (Double, Double))
        ensures
            r.0 == self.asking().query().lat,
            r.1 == self.asking().query().lon,
    {
        (self.asking.q.lat, self.asking.q.lon)
    }

    /// The places that distances are measured to, in the order of the reports.
    pub fn places(&self) -> (r: Vec<(Double, Double)>)
        ensures
            r@ == self.reports().map_values(|x: ReportView| (x.lat, x.lon)),
    {
        let mut r: Vec<(Double, Double)> = Vec::new();
        let mut i: usize = 0;
        while i < self.reports.len()
            invariant
                i <= self.reports@.len(),
                r@ == self.reports().map_values(|x: ReportView| (x.lat, x.lon)).take(i as int),
            decreases self.reports@.len() - i,
        {
            r.push((self.reports[i].lat, self.reports[i].lon));
            assert(r@ =~= self.reports().map_values(|x: ReportView| (x.lat, x.lon)).take(i + 1));
            i = i + 1;
        }
        r
    }
}

/// The reports, each with its distance.
pub open spec fn with_distances(reports: Seq<ReportView>, km: Seq<Double>) -> Seq<RangedView> {
    Seq::new(reports.len(), |i: int| RangedView { report: reports[i], km: km[i] })
}

/// What a query leads to next.
#[derive(Debug)]
pub enum Turn {
    Reply(Vec<MetarReport>),
    /// Load the station priorities and hand them to `Service::stations_loaded`.
    Stations(Asking, Load),
    /// Load the observations and hand them to `Service::metars_loaded`.
    Metars(Asking, Load),
}

/// The box that a query searches: its own, or else the one around its place.
pub open spec fn searched(q: QueryView, around: BBox) -> BBox {
    match q.bbox {
        Some(b) => b,
        None => around,
    }
}

pub struct Service {
    url: String,
    stations_url: String,
    fixture: bool,
    stations_fixture: bool,
    cache: Table<CacheKey, Timed<Vec<MetarReport>>>,
    stations: Table<StationsKey, Timed<Table<String, u8>>>,
}

pub open spec fn replies_in(stored: Map<CacheKeyView, Timed<Vec<MetarReport>>>) -> Map<
    CacheKeyView,
    (u128, Seq<ReportView>),
> {
    stored.map_values(|t: Timed<Vec<MetarReport>>| (t.at, report_views(t.value@)))
}

pub open spec fn priorities_in(stored: Map<StationsKey, Timed<Table<String, u8>>>) -> Map<
    StationsKey,
    (u128, Map<Seq<char>, u8>),
> {
    stored.map_values(|t: Timed<Table<String, u8>>| (t.at, t.value@))
}

/// What `load` asks for.
pub open spec fn loads(load: Load, fixture: bool, base: Seq<char>, b: BBox, hours: bool) -> bool {
    match load {
        Load::Fixture => fixture,
        Load::Fetch { base: given, bbox, hours: h } => !fixture && given@ == base && bbox == b
            && h == hours,
    }
}

impl Service {
    /// The address of the observations.
    pub closed spec fn feed(&self) -> Seq<char> {
        self.url@
    }

    /// The address of the stations.
    pub closed spec fn stations_feed(&self) -> Seq<char> {
        self.stations_url@
    }

    pub closed spec fn has_fixture(&self) -> bool {
        self.fixture
    }

    pub closed spec fn has_stations_fixture(&self) -> bool {
        self.stations_fixture
    }

    /// The replies that are remembered, each with when it was stored.
    pub closed spec fn replies(&self) -> Map<CacheKeyView, (u128, Seq<ReportView>)> {
        replies_in(self.cache@)
    }

    /// The priorities that are remembered, each with when they were stored.
    pub closed spec fn known_priorities(&self) -> Map<StationsKey, (u128, Map<Seq<char>, u8>)> {
        priorities_in(self.stations@)
    }

    /// What no answer changes.
    pub open spec fn same_feeds(&self, other: &Service) -> bool {
        &&& self.feed() == other.feed()
        &&& self.stations_feed() == other.stations_feed()
        &&& self.has_fixture() == other.has_fixture()
        &&& self.has_stations_fixture() == other.has_stations_fixture()
    }

    /// A service with nothing remembered. The addresses are those given, or else the
    /// live ones; a fixture takes the place of its address.
    pub fn open(
        url: Option<String>,
        stations_url: Option<String>,
        fixture: bool,
        stations_fixture: bool,
    ) -> (r: Service)
        ensures
            r.feed() == (match url {
                Some(u) => u@,
                None => DEFAULT_URL@,
            }),
            r.stations_feed() == (match stations_url {
                Some(u) => u@,
                None => DEFAULT_STATIONS_URL@,
            }),
            r.has_fixture() == fixture,
            r.has_stations_fixture() == stations_fixture,
            r.replies() == Map::<CacheKeyView, (u128, Seq<ReportView>)>::empty(),
            r.known_priorities() == Map::<StationsKey, (u128, Map<Seq<char>, u8>)>::empty(),
    {
        let r = Service {
            url: match url {
                Some(u) => u,
                None => DEFAULT_URL.to_owned(),
            },
            stations_url: match stations_url {
                Some(u) => u,
                None => DEFAULT_STATIONS_URL.to_owned(),
            },
            fixture,
            stations_fixture,
            cache: Table::new(),
            stations: Table::new(),
        };
        assert(replies_in(r.cache@) =~= Map::empty());
        assert(priorities_in(r.stations@) =~= Map::empty());
        r
    }

    fn cached(&self, key: &CacheKey, now: u128) -> (r: Option<Vec<MetarReport>>)
        ensures
            r is Some <==> recalled(self.replies(), key@, now, TTL) is Some,
            r matches Some(reports) ==> recalled(self.replies(), key@, now, TTL) == Some(
                report_views(reports@),
            ),
    {
        match self.cache.get(key) {
            Some(entry) if fresh(entry.at, now, TTL) => {
                let reports = entry.value.clone();
                assert(reports@ =~= entry.value@);
                Some(reports)
            },
            _ => None,
        }
    }

    fn cached_stations(&self, key: &StationsKey, now: u128) -> (r: Option<Table<String, u8>>)
        ensures
            r is Some <==> recalled(self.known_priorities(), key@, now, STATIONS_TTL) is Some,
            r matches Some(by_id) ==> recalled(self.known_priorities(), key@, now, STATIONS_TTL)
                == Some(by_id@),
    {
        match self.stations.get(key) {
            Some(entry) if fresh(entry.at, now, STATIONS_TTL) => Some(entry.value.duplicate()),
            _ => None,
        }
    }

    fn metar_load(&self, bbox: BBox) -> (r: Load)
        ensures
            loads(r, self.has_fixture(), self.feed(), bbox, true),
    {
        if self.fixture {
            Load::Fixture
        } else {
            Load::Fetch { base: self.url.clone(), bbox, hours: true }
        }
    }

    fn stations_load(&self, bbox: BBox) -> (r: Load)
        ensures
            loads(r, self.has_stations_fixture(), self.stations_feed(), bbox, false),
    {
        if self.stations_fixture {
            Load::Fixture
        } else {
            Load::Fetch { base: self.stations_url.clone(), bbox, hours: false }
        }
    }

    /// Takes up a query. Outside the network the reply is empty; a remembered reply is
    /// given again where all of it lies inside the query's own box; and station
    /// priorities are wanted only where the query picks by them and none are remembered.
    pub fn query(&self, q: Query, around: BBox, clock: Clock) -> (r: Turn)
        ensures
            !in_network(q.lon, q.lat) ==> (r matches Turn::Reply(reports) && reports@.len() == 0),
            q.bbox matches Some(b) ==> (r matches Turn::Reply(reports) ==> forall|k: int|
                0 <= k < reports@.len() ==> inside(
                    (#[trigger] reports@[k]).lat,
                    reports@[k].lon,
                    b,
                )),
            in_network(q.lon, q.lat) ==> match remembered_for(
                self.replies(),
                q@,
                clock.unix as int,
                clock.steady,
            ) {
                Some(hit) => r matches Turn::Reply(reports) && report_views(reports@) == hit,
                None => {
                    let b = searched(q@, around);
                    let known = recalled(
                        self.known_priorities(),
                        stations_key_of(b, clock.unix as int),
                        clock.steady,
                        STATIONS_TTL,
                    );
                    if q.pick == Pick::Priority && known is None {
                        &&& r matches Turn::Stations(asking, load)
                        &&& asking.query() == q@
                        &&& asking.key() == cache_key_of(q@, clock.unix as int)
                        &&& asking.stations_key() == stations_key_of(b, clock.unix as int)
                        &&& asking.search_box() == b
                        &&& asking.priorities() == Map::<Seq<char>, u8>::empty()
                        &&& loads(
                            load,
                            self.has_stations_fixture(),
                            self.stations_feed(),
                            b,
                            false,
                        )
                    } else {
                        &&& r matches Turn::Metars(asking, load)
                        &&& asking.query() == q@
                        &&& asking.key() == cache_key_of(q@, clock.unix as int)
                        &&& asking.stations_key() == stations_key_of(b, clock.unix as int)
                        &&& asking.search_box() == b
                        &&& asking.priorities() == if q.pick == Pick::Priority {
                            known->0
                        } else {
                            Map::<Seq<char>, u8>::empty()
                        }
                        &&& loads(load, self.has_fixture(), self.feed(), b, true)
                    }
                },
            },
    {
        if !nexrad_network(q.lon, q.lat) {
            return Turn::Reply(Vec::new());
        }
        let key = cache_key(&q, clock.unix);
        if let Some(hit) = self.cached(&key, clock.steady) {
            if check_inside(&hit, q.bbox) {
                proof {
                    let ghost views = report_views(hit@);
                    assert forall|k: int| 0 <= k < hit@.len() && q.bbox is Some implies inside(
                        (#[trigger] hit@[k]).lat,
                        hit@[k].lon,
                        q.bbox->0,
                    ) by {
                        assert(views[k] == hit@[k]@);
                    }
                }
                return Turn::Reply(hit);
            }
        }
        let bbox: BBox = match q.bbox {
            Some(b) => b,
            None => around,
        };
        let stations_key = stations_key(bbox, clock.unix);
        if q.pick == Pick::Priority {
            match self.cached_stations(&stations_key, clock.steady) {
                Some(priorities) => {
                    let load = self.metar_load(bbox);
                    Turn::Metars(Asking { q, key, stations_key, bbox, priorities }, load)
                },
                None => {
                    let load = self.stations_load(bbox);
                    Turn::Stations(Asking { q, key, stations_key, bbox, priorities: Table::new() }, load)
                },
            }
        } else {
            let load = self.metar_load(bbox);
            Turn::Metars(Asking { q, key, stations_key, bbox, priorities: Table::new() }, load)
        }
    }

    /// Takes the rows of the stations, or nothing where they could not be loaded; the
    /// query then goes on without priorities.
    pub fn stations_loaded(
        &mut self,
        asking: Asking,
        rows: Option<Vec<AwcStation>>,
        now: u128,
    ) -> (r: (Asking, Load))
        ensures
            final(self).same_feeds(old(self)),
            final(self).replies() == old(self).replies(),
            final(self).known_priorities() == (match rows {
                Some(rows) => old(self).known_priorities().insert(
                    asking.stations_key(),
                    (now, priorities_of(rows@)),
                ),
                None => old(self).known_priorities(),
            }),
            r.0.query() == asking.query(),
            r.0.key() == asking.key(),
            r.0.stations_key() == asking.stations_key(),
            r.0.search_box() == asking.search_box(),
            r.0.priorities() == (match rows {
                Some(rows) => priorities_of(rows@),
                None => asking.priorities(),
            }),
            loads(r.1, old(self).has_fixture(), old(self).feed(), asking.search_box(), true),
    {
        let mut asking = asking;
        let load = self.metar_load(asking.bbox);
        if let Some(rows) = rows {
            let by_id = parse_stations(&rows);
            asking.priorities = by_id.duplicate();
            let ghost stored = self.stations@;
            let key = asking.stations_key;
            let entry = Timed { at: now, value: by_id };
            self.stations.insert(key, entry);
            assert(priorities_in(stored.insert(key@, entry)) =~= priorities_in(stored).insert(
                key@,
                (now, by_id@),
            ));
        }
        (asking, load)
    }

    /// Takes the rows of the observations. Where they could not be loaded the query
    /// ends with the error, and nothing is remembered.
    pub fn metars_loaded(asking: Asking, rows: Result<Vec<AwcMetar>, String>) -> (r: Result<
        Measuring,
        String,
    >)
        ensures
            match rows {
                Ok(rows) => {
                    &&& r matches Ok(m)
                    &&& m.asking() == asking
                    &&& m.reports() == latest(rows@)
                },
                Err(e) => r matches Err(given) && given@ == e@,
            },
    {
        match rows {
            Ok(rows) => Ok(Measuring { asking, reports: parse_body(&rows) }),
            Err(e) => Err(e),
        }
    }

    /// Takes the distances of the reports, in their order, remembers the reply and
    /// gives it.
    pub fn measured(&mut self, m: Measuring, km: Vec<Double>, now: u128) -> (r: Vec<MetarReport>)
        requires
            km@.len() == m.reports().len(),
        ensures
            report_views(r@) == reports_in(
                selection(
                    with_distances(m.reports(), km@),
                    m.asking().query(),
                    m.asking().priorities(),
                ),
            ),
            reports_inside(report_views(r@), m.asking().query().bbox),
            final(self).same_feeds(old(self)),
            final(self).known_priorities() == old(self).known_priorities(),
            final(self).replies() == old(self).replies().insert(
                m.asking().key(),
                (now, report_views(r@)),
            ),
    {
        let mut items: Vec<Ranged> = Vec::new();
        let mut i: usize = 0;
        while i < m.reports.len()
            invariant
                i <= m.reports@.len(),
                km@.len() == m.reports@.len(),
                ranged_views(items@) == with_distances(m.reports(), km@).take(i as int),
            decreases m.reports@.len() - i,
        {
            let ghost fewer = ranged_views(items@);
            items.push(Ranged { report: m.reports[i].clone(), km: km[i] });
            assert(ranged_views(items@) =~= fewer.push(items@.last()@));
            assert(ranged_views(items@) =~= with_distances(m.reports(), km@).take(i + 1));
            i = i + 1;
        }
        assert(ranged_views(items@) =~= with_distances(m.reports(), km@));
        let asking = m.asking;
        let reports = select(&items, &asking.q, &asking.priorities);
        proof {
            lemma_selected_inside(ranged_views(items@), asking.q@, asking.priorities@);
        }
        let kept = reports.clone();
        assert(kept@ =~= reports@);
        let ghost stored = self.cache@;
        let entry = Timed { at: now, value: kept };
        let ghost key = asking.key@;
        self.cache.insert(asking.key, entry);
        assert(replies_in(stored.insert(key, entry)) =~= replies_in(stored).insert(
            key,
            (now, report_views(reports@)),
        ));
        reports
    }
}

/// A query is remembered by its place and box in tenths of a degree, its pick, its limit,
/// its pinned ids in a row and the hour that the clock shows; a query without a box has
/// zeros for one.
pub proof fn reply_key_tells_what_was_asked(q: QueryView, unix: int)
    requires
        q.limit <= 255,
    ensures
        ({
            let key = cache_key_of(q, unix);
            &&& key.lat == q.lat.tenths() && key.lon == q.lon.tenths()
            &&& q.bbox matches Some(b) ==> key.south == b.south.tenths() && key.west
                == b.west.tenths() && key.north == b.north.tenths() && key.east == b.east.tenths()
            &&& q.bbox is None ==> key.south == 0 && key.west == 0 && key.north == 0 && key.east
                == 0
            &&& key.limit == q.limit
            &&& key.always == joined(q.always_on, " "@)
            &&& 3600 * key.hour <= unix < 3600 * key.hour + 3600
        }),
{
}

/// Queries that differ in their pick, their limit, the hour, or by a tenth of a degree or
/// more after rounding, do not share a reply.
pub proof fn different_queries_have_different_keys(a: QueryView, b: QueryView, x: int, y: int)
    requires
        a.limit <= 255,
        b.limit <= 255,
        a.pick != b.pick || a.limit != b.limit || x / 3600 != y / 3600 || a.lat.tenths()
            != b.lat.tenths() || a.lon.tenths() != b.lon.tenths() || joined(a.always_on, " "@)
            != joined(b.always_on, " "@) || a.bbox is Some && b.bbox is Some && (
        a.bbox->0.south.tenths() != b.bbox->0.south.tenths() || a.bbox->0.west.tenths()
            != b.bbox->0.west.tenths() || a.bbox->0.north.tenths() != b.bbox->0.north.tenths()
            || a.bbox->0.east.tenths() != b.bbox->0.east.tenths()),
    ensures
        cache_key_of(a, x) != cache_key_of(b, y),
{
    reply_key_tells_what_was_asked(a, x);
    reply_key_tells_what_was_asked(b, y);
}

/// Priorities are remembered by the box in tenths of a degree and the day that the clock
/// shows.
pub proof fn stations_key_tells_box_and_day(b: BBox, unix: i64)
    ensures
        ({
            let key = stations_key_of(b, unix as int);
            &&& key.south == b.south.tenths() && key.west == b.west.tenths()
            &&& key.north == b.north.tenths() && key.east == b.east.tenths()
            &&& 86400 * key.day <= unix < 86400 * key.day + 86400
        }),
{
}

/// What is stored is remembered for its time, which for a reply is ten minutes and for
/// priorities a day, and not longer.
pub proof fn memory_lasts_its_time<V>(
    replies: Map<CacheKeyView, (u128, V)>,
    known: Map<StationsKey, (u128, V)>,
    key: CacheKeyView,
    stations: StationsKey,
    value: V,
    at: u128,
    now: u128,
)
    requires
        at <= now,
    ensures
        recalled(replies.insert(key, (at, value)), key, now, TTL) == (if now - at
            < 600 * 1_000_000_000 {
            Some(value)
        } else {
            None
        }),
        recalled(known.insert(stations, (at, value)), stations, now, STATIONS_TTL) == (if now - at
            < 86400 * 1_000_000_000 {
            Some(value)
        } else {
            None
        }),
        !replies.dom().contains(key) ==> recalled(replies, key, now, TTL) is None,
        !known.dom().contains(stations) ==> recalled(known, stations, now, STATIONS_TTL) is None,
{
}

/// A remembered reply is given only to a query of its key, whole and unchanged, within ten
/// minutes, and only where each of its stations lies inside the box of the query.
pub proof fn remembered_reply_fits_the_query(
    replies: Map<CacheKeyView, (u128, Seq<ReportView>)>,
    q: QueryView,
    unix: int,
    now: u128,
)
    ensures
        remembered_for(replies, q, unix, now) matches Some(hit) ==> {
            let key = cache_key_of(q, unix);
            &&& replies.dom().contains(key)
            &&& hit == replies[key].1
            &&& now - replies[key].0 < 600 * 1_000_000_000
            &&& q.bbox is Some ==> forall|k: int|
                0 <= k < hit.len() ==> q.bbox->0.south.at_most((#[trigger] hit[k]).lat)
                    && hit[k].lat.at_most(q.bbox->0.north) && q.bbox->0.west.at_most(hit[k].lon)
                    && hit[k].lon.at_most(q.bbox->0.east)
        },
        ({
            let key = cache_key_of(q, unix);
            replies.dom().contains(key) && now - replies[key].0 < 600 * 1_000_000_000 && q.bbox is None
                ==> remembered_for(replies, q, unix, now) == Some(replies[key].1)
        }),
{
}

/// The address of a box is the base, a question mark, or an ampersand where the base has a
/// question mark, the four corners from south to east, and what else is asked for.
pub proof fn address_names_the_corners(base: Seq<char>, corners: CornerTexts, hours: bool)
    ensures
        ({
            let r = url_of(base, corners, hours);
            let n = base.len() as int;
            let (s, w) = (corners.south@.len() as int, corners.west@.len() as int);
            let (t, e) = (corners.north@.len() as int, corners.east@.len() as int);
            &&& r.take(n) == base
            &&& r[n] == (if base.contains('?') {
                '&'
            } else {
                '?'
            })
            &&& r.subrange(n + 1, n + 6) == "bbox="@
            &&& r.subrange(n + 6, n + 6 + s) == corners.south@
            &&& r[n + 6 + s] == ','
            &&& r.subrange(n + 7 + s, n + 7 + s + w) == corners.west@
            &&& r[n + 7 + s + w] == ','
            &&& r.subrange(n + 8 + s + w, n + 8 + s + w + t) == corners.north@
            &&& r[n + 8 + s + w + t] == ','
            &&& r.subrange(n + 9 + s + w + t, n + 9 + s + w + t + e) == corners.east@
            &&& r.skip(n + 9 + s + w + t + e) == (if hours {
                "&format=json&hours=1"@
            } else {
                "&format=json"@
            })
        }),
{
    reveal_strlit("&");
    reveal_strlit("?");
    reveal_strlit("bbox=");
    reveal_strlit(",");
    reveal_strlit("&format=json");
    reveal_strlit("&hours=1");
    reveal_strlit("");
    reveal_strlit("&format=json&hours=1");
    let r = url_of(base, corners, hours);
    let n = base.len() as int;
    let (s, w) = (corners.south@.len() as int, corners.west@.len() as int);
    let (t, e) = (corners.north@.len() as int, corners.east@.len() as int);
    assert(r.take(n) =~= base);
    assert(r.subrange(n + 1, n + 6) =~= "bbox="@);
    assert(r.subrange(n + 6, n + 6 + s) =~= corners.south@);
    assert(r.subrange(n + 7 + s, n + 7 + s + w) =~= corners.west@);
    assert(r.subrange(n + 8 + s + w, n + 8 + s + w + t) =~= corners.north@);
    assert(r.subrange(n + 9 + s + w + t, n + 9 + s + w + t + e) =~= corners.east@);
    if hours {
        assert(r.skip(n + 9 + s + w + t + e) =~= "&format=json&hours=1"@);
    } else {
        assert(r.skip(n + 9 + s + w + t + e) =~= "&format=json"@);
    }
}

/// A query searches its own box where it has one. A load names the fixture where there is
/// one, and otherwise the feed and the box; and each report gets the distance at its place.
pub proof fn loads_name_feed_and_box(
    q: QueryView,
    around: BBox,
    load: Load,
    fixture: bool,
    base: Seq<char>,
    hours: bool,
    reports: Seq<ReportView>,
    km: Seq<Double>,
)
    ensures
        q.bbox matches Some(b) ==> searched(q, around) == b,
        q.bbox is None ==> searched(q, around) == around,
        loads(load, fixture, base, searched(q, around), hours) ==> {
            &&& load is Fixture <==> fixture
            &&& load is Fetch ==> load->base@ == base && load->bbox == searched(q, around)
                && load->hours == hours
        },
        with_distances(reports, km).len() == reports.len(),
        forall|i: int|
            0 <= i < reports.len() ==> (#[trigger] with_distances(reports, km)[i]).report
                == reports[i] && with_distances(reports, km)[i].km == km[i],
{
}

/// Without other addresses the observations and the stations come from the Aviation Weather
/// Center, and a body is read up to a megabyte.
pub proof fn feeds_are_those_of_the_weather_center()
    ensures
        DEFAULT_URL@ == "https://aviationweather.gov/api/data/metar"@,
        DEFAULT_STATIONS_URL@ == "https://aviationweather.gov/api/data/stationinfo"@,
        MAX_BODY == 1024 * 1024,
{
}

} // verus!
