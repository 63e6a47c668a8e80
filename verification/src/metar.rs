//! Airport observations for the selected radar.
//!
//! A query names a place, optionally a view box, how to pick among the stations and
//! how many to return. The engine keeps the raw observation and names the FAA flight
//! category; it does not decode the observation.

use crate::calendar::{format_rfc3339, has_plain_year, is_moment, rfc3339_text};
use crate::ieee::{
    key_orders, patterns_tell_the_order, patterns_tell_the_value, whole_drops_the_fraction,
    whole_number_pattern, Double,
};
use crate::protocol::{report_views, MetarReport, ReportView};
use crate::text::{
    ascii_alphanumeric, before, before_irreflexive, before_total, before_transitive, chars_of,
    has_no_small_letter, is_ascii_alphanumeric, is_ascii_text, listed, lowercase, same_text,
    text_before, to_lower, to_upper, trailing_copies_fall_away, trim, trim_trailing, trimmed,
    trimmed_keeps, trimming_takes_off_white_space, uppercase, uppercase_has_no_small_letter,
    uppercase_keeps_capitals, views, without_trailing,
};
use vstd::arithmetic::power2::{lemma2_to64, lemma2_to64_rest, lemma_pow2_pos, pow2};
use vstd::prelude::*;

verus! {

/// The most stations that one reply holds.
pub const LIMIT: usize = 16;

pub const PLACE_ERROR: &'static str =
    "metar_query needs lat in [-90, 90] and lon in [-180, 180].";

pub const PICK_ERROR: &'static str = "metar_query pick must be nearest or priority.";

pub const LIMIT_ERROR: &'static str = "metar_query limit must be 1 through 16.";

pub const BOX_ERROR: &'static str = "metar_query needs south, west, north, east as a view box.";

pub const CORNERS_ERROR: &'static str = "metar_query needs south, west, north, east together.";

pub const PRIORITY_ERROR: &'static str = "metar_query pick=priority needs the view box.";

pub const ALWAYS_ON_ERROR: &'static str = "metar_query always_on ids must be ICAO station ids.";

/// -90, as a binary64 pattern.
pub const SOUTH_POLE: u64 = 0xc056_8000_0000_0000;

/// 90.
pub const NORTH_POLE: u64 = 0x4056_8000_0000_0000;

/// -180.
pub const WEST_END: u64 = 0xc066_8000_0000_0000;

/// 180.
pub const EAST_END: u64 = 0x4066_8000_0000_0000;

/// How the stations of a reply are ranked.
#[derive(Clone, Copy, Debug, PartialEq, Eq, Structural)]
pub enum Pick {
    /// By distance alone.
    Nearest,
    /// Hubs first, then by distance.
    Priority,
}

#[derive(Clone, Copy, Debug, PartialEq)]
pub struct BBox {
    pub south: Double,
    pub west: Double,
    pub north: Double,
    pub east: Double,
}

#[derive(Debug, PartialEq)]
pub struct Query {
    pub lat: Double,
    pub lon: Double,
    pub bbox: Option<BBox>,
    pub pick: Pick,
    pub limit: usize,
    /// Stations that come first when they report.
    pub always_on: Vec<String>,
}

impl Clone for Query {
    fn clone(&self) -> (r: Query)
        ensures
            r@ == self@,
    {
        let always_on = self.always_on.clone();
        assert(views(always_on@) =~= views(self.always_on@));
        Query {
            lat: self.lat,
            lon: self.lon,
            bbox: self.bbox,
            pick: self.pick,
            limit: self.limit,
            always_on,
        }
    }
}

pub struct QueryView {
    pub lat: Double,
    pub lon: Double,
    pub bbox: Option<BBox>,
    pub pick: Pick,
    pub limit: usize,
    pub always_on: Seq<Seq<char>>,
}

impl View for Query {
    type V = QueryView;

    open spec fn view(&self) -> QueryView {
        QueryView {
            lat: self.lat,
            lon: self.lon,
            bbox: self.bbox,
            pick: self.pick,
            limit: self.limit,
            always_on: views(self.always_on@),
        }
    }
}

pub open spec fn is_latitude(x: Double) -> bool {
    Double { bits: SOUTH_POLE }.at_most(x) && x.at_most(Double { bits: NORTH_POLE })
}

pub open spec fn is_longitude(x: Double) -> bool {
    Double { bits: WEST_END }.at_most(x) && x.at_most(Double { bits: EAST_END })
}

/// A box on the map with its corners in order.
pub open spec fn is_view_box(b: BBox) -> bool {
    &&& is_latitude(b.south)
    &&& is_latitude(b.north)
    &&& is_longitude(b.west)
    &&& is_longitude(b.east)
    &&& !b.north.below(b.south)
    &&& !b.east.below(b.west)
}

/// The pick that a request names; without one, the nearest stations.
pub open spec fn picked(pick: Option<Seq<char>>) -> Option<Pick> {
    match pick {
        None => Some(Pick::Nearest),
        Some(text) => {
            let name = trimmed(text);
            if name.len() == 0 || name == "nearest"@ {
                Some(Pick::Nearest)
            } else if name == "priority"@ {
                Some(Pick::Priority)
            } else {
                None
            }
        },
    }
}

/// How many stations a request asks for.
pub open spec fn limited(limit: Option<u32>) -> Option<usize> {
    match limit {
        None => Some(LIMIT),
        Some(n) => if 1 <= n <= LIMIT {
            Some(n as usize)
        } else {
            None
        },
    }
}

pub open spec fn is_station_id(id: Seq<char>) -> bool {
    3 <= id.len() <= 4 && forall|i: int|
        0 <= i < id.len() ==> is_ascii_alphanumeric(#[trigger] id[i])
}

/// The ids to pin after `kept`: blank ones are passed over, each other one counts
/// once, nothing is read beyond `limit`, and a text that is no station id ends it.
pub open spec fn pinned(ids: Seq<Seq<char>>, limit: nat, kept: Seq<Seq<char>>) -> Option<
    Seq<Seq<char>>,
>
    decreases ids.len(),
{
    if ids.len() == 0 {
        Some(kept)
    } else if ids[0].len() == 0 {
        pinned(ids.drop_first(), limit, kept)
    } else if !is_station_id(ids[0]) {
        None
    } else if kept.len() >= limit {
        Some(kept)
    } else if kept.contains(ids[0]) {
        pinned(ids.drop_first(), limit, kept)
    } else {
        pinned(ids.drop_first(), limit, kept.push(ids[0]))
    }
}

/// The station id that a text stands for.
pub open spec fn id_of(text: Seq<char>) -> Seq<char> {
    uppercase(trimmed(text))
}

pub open spec fn ids_of(texts: Seq<Seq<char>>) -> Seq<Seq<char>> {
    texts.map_values(|t: Seq<char>| id_of(t))
}

/// The query that a request stands for, or what is wrong with it.
pub open spec fn query_of(
    lat: Double,
    lon: Double,
    corners: (Option<Double>, Option<Double>, Option<Double>, Option<Double>),
    pick: Option<Seq<char>>,
    limit: Option<u32>,
    ids: Seq<Seq<char>>,
) -> Result<QueryView, Seq<char>> {
    if !is_latitude(lat) || !is_longitude(lon) {
        Err(PLACE_ERROR@)
    } else if picked(pick) is None {
        Err(PICK_ERROR@)
    } else if limited(limit) is None {
        Err(LIMIT_ERROR@)
    } else {
        match corners {
            (None, None, None, None) => boxed_query(lat, lon, None, pick, limit, ids),
            (Some(south), Some(west), Some(north), Some(east)) => {
                let b = BBox { south, west, north, east };
                if !is_view_box(b) {
                    Err(BOX_ERROR@)
                } else {
                    boxed_query(lat, lon, Some(b), pick, limit, ids)
                }
            },
            _ => Err(CORNERS_ERROR@),
        }
    }
}

/// What `query_of` says once the place, the pick, the limit and the box are sound.
pub open spec fn boxed_query(
    lat: Double,
    lon: Double,
    bbox: Option<BBox>,
    pick: Option<Seq<char>>,
    limit: Option<u32>,
    ids: Seq<Seq<char>>,
) -> Result<QueryView, Seq<char>> {
    let pick = picked(pick).unwrap();
    let limit = limited(limit).unwrap();
    if pick == Pick::Priority && bbox is None {
        Err(PRIORITY_ERROR@)
    } else {
        match pinned(ids, limit as nat, Seq::empty()) {
            None => Err(ALWAYS_ON_ERROR@),
            Some(always_on) => Ok(QueryView { lat, lon, bbox, pick, limit, always_on }),
        }
    }
}

fn latitude(x: Double) -> (r: bool)
    ensures
        r == is_latitude(x),
{
    Double { bits: SOUTH_POLE }.less_or_same(x) && x.less_or_same(Double { bits: NORTH_POLE })
}

fn longitude(x: Double) -> (r: bool)
    ensures
        r == is_longitude(x),
{
    Double { bits: WEST_END }.less_or_same(x) && x.less_or_same(Double { bits: EAST_END })
}

fn station_id(id: &str) -> (r: bool)
    ensures
        r == is_station_id(id@),
{
    let chars = chars_of(id);
    if chars.len() < 3 || chars.len() > 4 {
        return false;
    }
    let mut i: usize = 0;
    while i < chars.len()
        invariant
            chars@ == id@,
            i <= chars@.len(),
            forall|j: int| 0 <= j < i ==> is_ascii_alphanumeric(#[trigger] id@[j]),
        decreases chars@.len() - i,
    {
        if !ascii_alphanumeric(chars[i]) {
            return false;
        }
        i = i + 1;
    }
    true
}

fn read_pick(pick: &Option<String>) -> (r: Option<Pick>)
    ensures
        r == picked(match *pick {
            Some(p) => Some(p@),
            None => None,
        }),
{
    match pick {
        None => Some(Pick::Nearest),
        Some(text) => {
            let name = trim(text.as_str());
            if name.as_str().is_empty() || same_text(name.as_str(), "nearest") {
                Some(Pick::Nearest)
            } else if same_text(name.as_str(), "priority") {
                Some(Pick::Priority)
            } else {
                None
            }
        },
    }
}

/// The ids to pin, out of ids that are trimmed and in upper case.
pub fn pin_ids(ids: &Vec<String>, limit: usize) -> (r: Option<Vec<String>>)
    ensures
        r is Some <==> pinned(views(ids@), limit as nat, Seq::empty()) is Some,
        r matches Some(kept) ==> pinned(views(ids@), limit as nat, Seq::empty()) == Some(
            views(kept@),
        ),
{
    let mut kept: Vec<String> = Vec::new();
    let mut i: usize = 0;
    let ghost all = views(ids@);
    assert(all.skip(0) =~= all);
    assert(views(kept@) =~= Seq::empty());
    while i < ids.len()
        invariant
            all == views(ids@),
            i <= ids@.len(),
            pinned(all, limit as nat, Seq::empty()) == pinned(
                all.skip(i as int),
                limit as nat,
                views(kept@),
            ),
        decreases ids@.len() - i,
    {
        let id = ids[i].as_str();
        proof {
            let rest = all.skip(i as int);
            assert(rest[0] == id@);
            assert(rest.drop_first() =~= all.skip(i + 1));
        }
        if !id.is_empty() {
            if !station_id(id) {
                return None;
            }
            if kept.len() >= limit {
                return Some(kept);
            }
            if !listed(&kept, id) {
                let ghost shorter = views(kept@);
                kept.push(id.to_owned());
                assert(views(kept@) =~= shorter.push(id@));
            }
        }
        i = i + 1;
    }
    Some(kept)
}

fn upper_ids(texts: &Vec<String>) -> (r: Vec<String>)
    ensures
        views(r@) == ids_of(views(texts@)),
{
    let mut r: Vec<String> = Vec::new();
    let mut i: usize = 0;
    while i < texts.len()
        invariant
            i <= texts@.len(),
            views(r@) == ids_of(views(texts@)).take(i as int),
        decreases texts@.len() - i,
    {
        let id = to_upper(trim(texts[i].as_str()).as_str());
        let ghost shorter = views(r@);
        r.push(id);
        assert(views(r@) =~= shorter.push(id@));
        assert(views(r@) =~= ids_of(views(texts@)).take(i + 1));
        i = i + 1;
    }
    assert(views(r@) =~= ids_of(views(texts@)));
    r
}

impl Query {
    /// Reads a request. What is asked for is checked in order: the place, the pick,
    /// the limit, the view box and the pinned ids.
    pub fn parse(
        lat: Double,
        lon: Double,
        south: Option<Double>,
        west: Option<Double>,
        north: Option<Double>,
        east: Option<Double>,
        pick: Option<String>,
        limit: Option<u32>,
        always_on: Vec<String>,
    ) -> (r: Result<Query, String>)
        ensures
            r matches Ok(q) ==> query_of(
                lat,
                lon,
                (south, west, north, east),
                match pick {
                    Some(p) => Some(p@),
                    None => None,
                },
                limit,
                ids_of(views(always_on@)),
            ) == Ok::<QueryView, Seq<char>>(q@),
            r matches Err(e) ==> query_of(
                lat,
                lon,
                (south, west, north, east),
                match pick {
                    Some(p) => Some(p@),
                    None => None,
                },
                limit,
                ids_of(views(always_on@)),
            ) == Err::<QueryView, Seq<char>>(e@),
    {
        if !latitude(lat) || !longitude(lon) {
            return Err(PLACE_ERROR.to_owned());
        }
        let pick: Pick = match read_pick(&pick) {
            Some(p) => p,
            None => return Err(PICK_ERROR.to_owned()),
        };
        let limit: usize = match limit {
            None => LIMIT,
            Some(n) => if 1 <= n && n <= LIMIT as u32 {
                n as usize
            } else {
                return Err(LIMIT_ERROR.to_owned());
            },
        };
        let bbox: Option<BBox> = match (south, west, north, east) {
            (None, None, None, None) => None,
            (Some(south), Some(west), Some(north), Some(east)) => {
                if !latitude(south) || !latitude(north) || !longitude(west) || !longitude(east)
                    || north.less(south) || east.less(west) {
                    return Err(BOX_ERROR.to_owned());
                }
                Some(BBox { south, west, north, east })
            },
            _ => return Err(CORNERS_ERROR.to_owned()),
        };
        if pick == Pick::Priority && bbox.is_none() {
            return Err(PRIORITY_ERROR.to_owned());
        }
        match pin_ids(&upper_ids(&always_on), limit) {
            None => Err(ALWAYS_ON_ERROR.to_owned()),
            Some(pinned) => Ok(Query { lat, lon, bbox, pick, limit, always_on: pinned }),
        }
    }
}

/// The ids that are kept are station ids, none twice, and no more than the limit.
proof fn lemma_pinned(ids: Seq<Seq<char>>, limit: nat, kept: Seq<Seq<char>>)
    requires
        kept.no_duplicates(),
        kept.len() <= limit,
        forall|i: int| 0 <= i < kept.len() ==> is_station_id(#[trigger] kept[i]),
    ensures
        pinned(ids, limit, kept) matches Some(all) ==> {
            &&& all.no_duplicates()
            &&& all.len() <= limit
            &&& forall|i: int| 0 <= i < all.len() ==> is_station_id(#[trigger] all[i])
            &&& forall|i: int|
                0 <= i < all.len() ==> kept.contains(#[trigger] all[i]) || ids.contains(all[i])
        },
    decreases ids.len(),
{
    if ids.len() > 0 {
        let rest = ids.drop_first();
        assert forall|x: Seq<char>| rest.contains(x) implies ids.contains(x) by {
            let i = choose|i: int| 0 <= i < rest.len() && rest[i] == x;
            assert(ids[i + 1] == x);
        }
        if ids[0].len() == 0 || kept.contains(ids[0]) {
            lemma_pinned(rest, limit, kept);
        } else if is_station_id(ids[0]) && kept.len() < limit {
            let more = kept.push(ids[0]);
            assert(ids.contains(ids[0]));
            assert forall|x: Seq<char>| more.contains(x) implies kept.contains(x) || x
                == ids[0] by {
                let i = choose|i: int| 0 <= i < more.len() && more[i] == x;
                if i < kept.len() {
                    assert(kept[i] == x);
                }
            }
            lemma_pinned(rest, limit, more);
        }
    }
}

/// A request that is accepted has its place on the globe and its box in order, asks
/// for 1 to 16 stations, pins no more than that, each a station id of the request and
/// none twice, and picks by priority only with a box.
pub proof fn accepted_query_is_sound(
    lat: Double,
    lon: Double,
    corners: (Option<Double>, Option<Double>, Option<Double>, Option<Double>),
    pick: Option<Seq<char>>,
    limit: Option<u32>,
    ids: Seq<Seq<char>>,
)
    ensures
        query_of(lat, lon, corners, pick, limit, ids) matches Ok(q) ==> {
            &&& q.lat == lat && is_latitude(q.lat)
            &&& q.lon == lon && is_longitude(q.lon)
            &&& q.bbox matches Some(b) ==> is_view_box(b)
            &&& 1 <= q.limit <= LIMIT
            &&& q.pick == Pick::Priority ==> q.bbox is Some
            &&& q.always_on.len() <= q.limit
            &&& q.always_on.no_duplicates()
            &&& forall|i: int|
                0 <= i < q.always_on.len() ==> is_station_id(#[trigger] q.always_on[i])
                    && ids.contains(q.always_on[i])
        },
{
    if limited(limit) is Some {
        lemma_pinned(ids, limited(limit)->0 as nat, Seq::empty());
    }
}

/// The ids of a request that are ASCII are pinned in upper case.
pub proof fn pinned_ids_are_upper_case(
    lat: Double,
    lon: Double,
    corners: (Option<Double>, Option<Double>, Option<Double>, Option<Double>),
    pick: Option<Seq<char>>,
    limit: Option<u32>,
    texts: Seq<Seq<char>>,
)
    requires
        forall|i: int| 0 <= i < texts.len() ==> is_ascii_text(trimmed(#[trigger] texts[i])),
    ensures
        query_of(lat, lon, corners, pick, limit, ids_of(texts)) matches Ok(q) ==> forall|i: int|
            0 <= i < q.always_on.len() ==> has_no_small_letter(#[trigger] q.always_on[i]),
{
    let ids = ids_of(texts);
    accepted_query_is_sound(lat, lon, corners, pick, limit, ids);
    if query_of(lat, lon, corners, pick, limit, ids) is Ok {
        let q = query_of(lat, lon, corners, pick, limit, ids)->Ok_0;
        assert forall|i: int| 0 <= i < q.always_on.len() implies has_no_small_letter(
            #[trigger] q.always_on[i],
        ) by {
            assert(ids.contains(q.always_on[i]));
            let j = choose|j: int| 0 <= j < ids.len() && ids[j] == q.always_on[i];
            assert(ids[j] == uppercase(trimmed(texts[j])));
            uppercase_has_no_small_letter(trimmed(texts[j]));
        }
    }
}

pub open spec fn pick_name(pick: Pick) -> Seq<char> {
    match pick {
        Pick::Nearest => "nearest"@,
        Pick::Priority => "priority"@,
    }
}

pub open spec fn corners_of(bbox: Option<BBox>) -> (
    Option<Double>,
    Option<Double>,
    Option<Double>,
    Option<Double>,
) {
    match bbox {
        Some(b) => (Some(b.south), Some(b.west), Some(b.north), Some(b.east)),
        None => (None, None, None, None),
    }
}

/// What parsing the parts of a query gives.
pub open spec fn parsed_again(q: QueryView) -> Result<QueryView, Seq<char>> {
    query_of(
        q.lat,
        q.lon,
        corners_of(q.bbox),
        Some(pick_name(q.pick)),
        Some(q.limit as u32),
        ids_of(q.always_on),
    )
}

proof fn lemma_pick_names(pick: Pick)
    ensures
        picked(Some(pick_name(pick))) == Some(pick),
{
    reveal_strlit("nearest");
    reveal_strlit("priority");
    trimmed_keeps("nearest"@);
    trimmed_keeps("priority"@);
    assert("nearest"@.len() != "priority"@.len());
}

/// Ids that can all be pinned are pinned as they are.
proof fn lemma_pinned_again(ids: Seq<Seq<char>>, limit: nat, n: int)
    requires
        ids.no_duplicates(),
        ids.len() <= limit,
        forall|i: int| 0 <= i < ids.len() ==> is_station_id(#[trigger] ids[i]),
        0 <= n <= ids.len(),
    ensures
        pinned(ids.skip(n), limit, ids.take(n)) == Some(ids),
    decreases ids.len() - n,
{
    if n == ids.len() {
        assert(ids.take(n) =~= ids);
    } else {
        let rest = ids.skip(n);
        assert(rest[0] == ids[n]);
        assert(rest.drop_first() =~= ids.skip(n + 1));
        assert(ids.take(n).push(ids[n]) =~= ids.take(n + 1));
        assert(!ids.take(n).contains(ids[n])) by {
            if ids.take(n).contains(ids[n]) {
                let i = choose|i: int| 0 <= i < n && ids.take(n)[i] == ids[n];
                assert(ids[i] == ids[n]);
            }
        }
        lemma_pinned_again(ids, limit, n + 1);
    }
}

proof fn lemma_station_id_stays(id: Seq<char>)
    requires
        is_station_id(id),
        has_no_small_letter(id),
    ensures
        id_of(id) == id,
{
    assert(is_ascii_alphanumeric(id[0]) && is_ascii_alphanumeric(id.last()));
    trimmed_keeps(id);
    assert forall|i: int| 0 <= i < id.len() implies (#[trigger] id[i]) as u32 <= 0x7f by {
        assert(is_ascii_alphanumeric(id[i]));
    }
    uppercase_keeps_capitals(id);
}

/// Parsing the parts of a query that was accepted gives the query back, as long as its
/// ids have no small letter.
pub proof fn sound_query_is_parsed_again(
    lat: Double,
    lon: Double,
    corners: (Option<Double>, Option<Double>, Option<Double>, Option<Double>),
    pick: Option<Seq<char>>,
    limit: Option<u32>,
    ids: Seq<Seq<char>>,
    q: QueryView,
)
    requires
        query_of(lat, lon, corners, pick, limit, ids) == Ok::<QueryView, Seq<char>>(q),
        forall|i: int| 0 <= i < q.always_on.len() ==> has_no_small_letter(#[trigger] q.always_on[i]),
    ensures
        parsed_again(q) == Ok::<QueryView, Seq<char>>(q),
{
    accepted_query_is_sound(lat, lon, corners, pick, limit, ids);
    lemma_pick_names(q.pick);
    let again = ids_of(q.always_on);
    assert(again =~= q.always_on) by {
        assert forall|i: int| 0 <= i < again.len() implies again[i] == #[trigger] q.always_on[i] by {
            lemma_station_id_stays(q.always_on[i]);
        }
    }
    lemma_pinned_again(q.always_on, q.limit as nat, 0);
    assert(q.always_on.skip(0) =~= q.always_on);
    assert(q.always_on.take(0) =~= Seq::empty());
    assert(limited(Some(q.limit as u32)) == Some(q.limit));
}

/// Parsing a query that was parsed changes nothing and cannot fail, where the ids of the
/// request are ASCII.
pub proof fn parsing_again_changes_nothing(
    lat: Double,
    lon: Double,
    corners: (Option<Double>, Option<Double>, Option<Double>, Option<Double>),
    pick: Option<Seq<char>>,
    limit: Option<u32>,
    texts: Seq<Seq<char>>,
)
    requires
        forall|i: int| 0 <= i < texts.len() ==> is_ascii_text(trimmed(#[trigger] texts[i])),
    ensures
        query_of(lat, lon, corners, pick, limit, ids_of(texts)) matches Ok(q) ==> parsed_again(q)
            == Ok::<QueryView, Seq<char>>(q),
{
    let ids = ids_of(texts);
    pinned_ids_are_upper_case(lat, lon, corners, pick, limit, texts);
    if query_of(lat, lon, corners, pick, limit, ids) is Ok {
        sound_query_is_parsed_again(
            lat,
            lon,
            corners,
            pick,
            limit,
            ids,
            query_of(lat, lon, corners, pick, limit, ids)->Ok_0,
        );
    }
}

/// One observation as the service sends it, with its numbers read.
#[derive(Debug)]
pub struct AwcMetar {
    pub icao_id: String,
    pub raw_ob: String,
    pub flt_cat: String,
    pub lat: Double,
    pub lon: Double,
    pub obs_time: Option<Double>,
    pub visib: Visibility,
    pub clouds: Vec<AwcCloud>,
    pub vert_vis: Option<Double>,
}

#[derive(Debug)]
pub struct AwcCloud {
    pub cover: String,
    pub base: Option<Double>,
}

/// A visibility as the service sends it: a number, a text, or neither.
#[derive(Debug)]
pub enum Visibility {
    Number(Option<Double>),
    Text(VisibilityText),
    Other,
}

/// The numbers in a visibility text: of the whole text, and of the two sides of its
/// slash where it has one.
#[derive(Debug)]
pub struct VisibilityText {
    pub whole: Option<Double>,
    pub sides: Option<Sides>,
}

/// The numbers on the two sides of a slash, and the first divided by the second.
#[derive(Debug)]
pub struct Sides {
    pub numerator: Option<Double>,
    pub denominator: Option<Double>,
    pub quotient: Double,
}

/// The texts in which a visibility may hold its numbers.
#[derive(Debug)]
pub struct VisibilityPieces {
    pub whole: String,
    pub sides: Option<(String, String)>,
}

/// Zero.
pub const ZERO: u64 = 0;

/// 1.
pub const ONE_MILE: u64 = 0x3ff0_0000_0000_0000;

/// 3.
pub const THREE_MILES: u64 = 0x4008_0000_0000_0000;

/// 5.
pub const FIVE_MILES: u64 = 0x4014_0000_0000_0000;

/// 500.
pub const FEET_500: u64 = 0x407f_4000_0000_0000;

/// 1000.
pub const FEET_1000: u64 = 0x408f_4000_0000_0000;

/// 3000.
pub const FEET_3000: u64 = 0x40a7_7000_0000_0000;

/// Positive infinity.
pub const UNLIMITED: u64 = 0x7ff0_0000_0000_0000;

pub open spec fn or_unlimited(x: Option<Double>) -> Double {
    match x {
        Some(x) => x,
        None => Double { bits: UNLIMITED },
    }
}

/// The FAA flight category for a visibility in statute miles and a ceiling in feet.
pub open spec fn flight_category(vis: Option<Double>, ceiling: Option<Double>) -> Seq<char> {
    let vis = or_unlimited(vis);
    let ceiling = or_unlimited(ceiling);
    if ceiling.below(Double { bits: FEET_500 }) || vis.below(Double { bits: ONE_MILE }) {
        "lifr"@
    } else if ceiling.below(Double { bits: FEET_1000 }) || vis.below(Double { bits: THREE_MILES }) {
        "ifr"@
    } else if ceiling.at_most(Double { bits: FEET_3000 }) || vis.at_most(
        Double { bits: FIVE_MILES },
    ) {
        "mvfr"@
    } else {
        "vfr"@
    }
}

/// FAA flight category from visibility (statute miles) and ceiling (feet).
pub fn from_vis_ceiling(vis: Option<Double>, ceiling: Option<Double>) -> (r: String)
    ensures
        r@ == flight_category(vis, ceiling),
{
    let vis: Double = match vis {
        Some(x) => x,
        None => Double { bits: UNLIMITED },
    };
    let ceiling: Double = match ceiling {
        Some(x) => x,
        None => Double { bits: UNLIMITED },
    };
    if ceiling.less(Double { bits: FEET_500 }) || vis.less(Double { bits: ONE_MILE }) {
        "lifr".to_owned()
    } else if ceiling.less(Double { bits: FEET_1000 }) || vis.less(Double { bits: THREE_MILES }) {
        "ifr".to_owned()
    } else if ceiling.less_or_same(Double { bits: FEET_3000 }) || vis.less_or_same(
        Double { bits: FIVE_MILES },
    ) {
        "mvfr".to_owned()
    } else {
        "vfr".to_owned()
    }
}

/// Where `c` first stands in a text, or the text's length.
pub open spec fn first_of(s: Seq<char>, c: char) -> int
    decreases s.len(),
{
    if s.len() == 0 || s[0] == c {
        0
    } else {
        1 + first_of(s.drop_first(), c)
    }
}

/// The texts before and after the first slash.
pub open spec fn split_at_slash(s: Seq<char>) -> Option<(Seq<char>, Seq<char>)> {
    let at = first_of(s, '/');
    if at < s.len() {
        Some((s.take(at), s.skip(at + 1)))
    } else {
        None
    }
}

/// A visibility text without white space around it and plus signs behind it.
pub open spec fn bare_visibility(s: Seq<char>) -> Seq<char> {
    without_trailing(trimmed(s), '+')
}

fn find_char(s: &str, c: char) -> (r: usize)
    ensures
        r == first_of(s@, c),
        r <= s@.len(),
{
    let chars = chars_of(s);
    let mut i: usize = 0;
    assert(s@.skip(0) =~= s@);
    while i < chars.len() && chars[i] != c
        invariant
            i <= chars@.len(),
            chars@ == s@,
            first_of(s@, c) == i + first_of(s@.skip(i as int), c),
        decreases chars@.len() - i,
    {
        assert(s@.skip(i as int).drop_first() =~= s@.skip(i + 1));
        i = i + 1;
    }
    i
}

/// The texts in which a visibility may hold its numbers: the whole of it, and the
/// two sides of its first slash.
pub fn visibility_pieces(s: &str) -> (r: VisibilityPieces)
    ensures
        r.whole@ == bare_visibility(s@),
        r.sides is Some <==> split_at_slash(bare_visibility(s@)) is Some,
        r.sides matches Some((a, b)) ==> split_at_slash(bare_visibility(s@)) == Some((a@, b@)),
{
    let whole = trim_trailing(trim(s).as_str(), '+');
    let at: usize = find_char(whole.as_str(), '/');
    let len: usize = whole.as_str().unicode_len();
    if at < len {
        let text = whole.as_str();
        let a = text.substring_char(0, at).to_owned();
        let b = text.substring_char(at + 1, len).to_owned();
        assert(a@ =~= whole@.take(at as int));
        assert(b@ =~= whole@.skip(at + 1));
        VisibilityPieces { whole, sides: Some((a, b)) }
    } else {
        VisibilityPieces { whole, sides: None }
    }
}

/// The visibility in statute miles: a number as it is, a text as a number, or else as
/// a fraction whose denominator is not zero.
pub open spec fn visibility_sm(value: Visibility) -> Option<Double> {
    match value {
        Visibility::Number(n) => n,
        Visibility::Text(t) => match t.whole {
            Some(n) => Some(n),
            None => match t.sides {
                Some(sides) => match (sides.numerator, sides.denominator) {
                    (Some(_), Some(d)) => if d.is_nan() || d.value() != 0 {
                        Some(sides.quotient)
                    } else {
                        None
                    },
                    _ => None,
                },
                None => None,
            },
        },
        Visibility::Other => None,
    }
}

pub fn parse_vis_sm(value: &Visibility) -> (r: Option<Double>)
    ensures
        r == visibility_sm(*value),
{
    match value {
        Visibility::Number(n) => *n,
        Visibility::Text(t) => match t.whole {
            Some(n) => Some(n),
            None => match &t.sides {
                Some(sides) => match (sides.numerator, sides.denominator) {
                    (Some(_), Some(d)) => {
                        let zero = Double { bits: ZERO };
                        proof {
                            assert(crate::ieee::steps(0, crate::ieee::HIDDEN64 as int) == 0);
                        }
                        if d == zero {
                            None
                        } else {
                            Some(sides.quotient)
                        }
                    },
                    _ => None,
                },
                None => None,
            },
        },
        Visibility::Other => None,
    }
}

/// Whether a layer is a ceiling, by its cover in upper case.
pub open spec fn is_ceiling(name: Seq<char>) -> bool {
    name == "BKN"@ || name == "OVC"@ || name == "VV"@ || name == "OVX"@
}

/// A layer of clouds with its cover in upper case.
#[derive(Debug)]
pub struct Layer {
    pub name: String,
    pub base: Option<Double>,
}

pub struct LayerView {
    pub name: Seq<char>,
    pub base: Option<Double>,
}

impl View for Layer {
    type V = LayerView;

    open spec fn view(&self) -> LayerView {
        LayerView { name: self.name@, base: self.base }
    }
}

pub open spec fn layer_views(layers: Seq<Layer>) -> Seq<LayerView> {
    layers.map_values(|l: Layer| l@)
}

/// The layers of the clouds of a row.
pub open spec fn layers_of(clouds: Seq<AwcCloud>) -> Seq<LayerView> {
    clouds.map_values(|c: AwcCloud| LayerView { name: uppercase(c.cover@), base: c.base })
}

/// The base of the lowest layer that is a ceiling.
pub open spec fn lowest_base(layers: Seq<LayerView>) -> Option<Double>
    decreases layers.len(),
{
    if layers.len() == 0 {
        None
    } else {
        let rest = lowest_base(layers.drop_last());
        let last = layers.last();
        match last.base {
            Some(base) if is_ceiling(last.name) => match rest {
                Some(low) if low.rank() <= base.rank() => Some(low),
                _ => Some(base),
            },
            _ => rest,
        }
    }
}

/// The ceiling in feet: the vertical visibility where there is one, or else the
/// lowest layer.
pub open spec fn ceiling_of(vert_vis: Option<Double>, clouds: Seq<AwcCloud>) -> Option<Double> {
    match vert_vis {
        Some(v) if Double { bits: ZERO }.below(v) => Some(v),
        _ => lowest_base(layers_of(clouds)),
    }
}

fn ceiling_cover(name: &str) -> (r: bool)
    ensures
        r == is_ceiling(name@),
{
    same_text(name, "BKN") || same_text(name, "OVC") || same_text(name, "VV") || same_text(
        name,
        "OVX",
    )
}

/// The base of the lowest layer that is a ceiling.
pub fn lowest_ceiling(layers: &Vec<Layer>) -> (r: Option<Double>)
    ensures
        r == lowest_base(layer_views(layers@)),
{
    let ghost all = layer_views(layers@);
    let mut low: Option<Double> = None;
    let mut i: usize = 0;
    while i < layers.len()
        invariant
            all == layer_views(layers@),
            i <= layers@.len(),
            low == lowest_base(all.take(i as int)),
        decreases layers@.len() - i,
    {
        let layer = &layers[i];
        assert(all.take(i + 1).drop_last() =~= all.take(i as int));
        assert(all.take(i + 1).last() == layer@);
        if let Some(base) = layer.base {
            if ceiling_cover(layer.name.as_str()) {
                let keep = match low {
                    Some(l) => l.total_rank() <= base.total_rank(),
                    None => false,
                };
                if !keep {
                    low = Some(base);
                }
            }
        }
        i = i + 1;
    }
    assert(all.take(all.len() as int) =~= all);
    low
}

pub fn ceiling_ft(row: &AwcMetar) -> (r: Option<Double>)
    ensures
        r == ceiling_of(row.vert_vis, row.clouds@),
{
    if let Some(v) = row.vert_vis {
        let zero = Double { bits: ZERO };
        if zero.less(v) {
            return Some(v);
        }
    }
    let mut layers: Vec<Layer> = Vec::new();
    let mut i: usize = 0;
    while i < row.clouds.len()
        invariant
            i <= row.clouds@.len(),
            layer_views(layers@) == layers_of(row.clouds@).take(i as int),
        decreases row.clouds@.len() - i,
    {
        let cloud = &row.clouds[i];
        let ghost fewer = layer_views(layers@);
        layers.push(Layer { name: to_upper(cloud.cover.as_str()), base: cloud.base });
        assert(layer_views(layers@) =~= fewer.push(layers@.last()@));
        assert(layer_views(layers@) =~= layers_of(row.clouds@).take(i + 1));
        i = i + 1;
    }
    assert(layer_views(layers@) =~= layers_of(row.clouds@));
    lowest_ceiling(&layers)
}

pub open spec fn is_category(name: Seq<char>) -> bool {
    name == "vfr"@ || name == "mvfr"@ || name == "ifr"@ || name == "lifr"@
}

/// The category of a row, given the lower-case text of the one that it names: the
/// named one where it is a category, or else the one of its visibility and ceiling.
pub open spec fn named_or_derived(named: Seq<char>, row: AwcMetar) -> Seq<char> {
    if is_category(named) {
        named
    } else {
        flight_category(visibility_sm(row.visib), ceiling_of(row.vert_vis, row.clouds@))
    }
}

pub open spec fn category_of(row: AwcMetar) -> Seq<char> {
    named_or_derived(lowercase(trimmed(row.flt_cat@)), row)
}

/// Every row has one of the four categories.
pub proof fn every_row_has_a_category(row: AwcMetar)
    ensures
        is_category(category_of(row)),
{
}

/// The category of a row whose own one reads `named` in lower case.
pub fn category_named(named: String, row: &AwcMetar) -> (r: String)
    ensures
        r@ == named_or_derived(named@, *row),
{
    let name = named.as_str();
    if same_text(name, "vfr") || same_text(name, "mvfr") || same_text(name, "ifr") || same_text(
        name,
        "lifr",
    ) {
        return named;
    }
    from_vis_ceiling(parse_vis_sm(&row.visib), ceiling_ft(row))
}

pub fn category(row: &AwcMetar) -> (r: String)
    ensures
        r@ == category_of(*row),
{
    category_named(to_lower(trim(row.flt_cat.as_str()).as_str()), row)
}

/// The text of an observation time; a moment out of range reads as 1970.
pub open spec fn obs_text(secs: i64) -> Seq<char> {
    if is_moment(secs as int) {
        rfc3339_text(secs)
    } else {
        rfc3339_text(0)
    }
}

pub fn format_obs(secs: i64) -> (r: String)
    ensures
        r@ == obs_text(secs),
        has_plain_year(secs as int) ==> forall|earlier: i64|
            has_plain_year(earlier as int) && earlier < secs ==> text_before(
                #[trigger] rfc3339_text(earlier),
                r@,
            ),
{
    match format_rfc3339(secs) {
        Some(text) => text,
        None => format_rfc3339(0).unwrap(),
    }
}

/// When a row was observed, in seconds since 1970.
pub open spec fn obs_secs(row: AwcMetar) -> i64 {
    match row.obs_time {
        Some(t) => t.whole() as i64,
        None => 0,
    }
}

/// The report of a row with an id, a category and the text of its time, unless the row
/// lacks an id, an observation or a place.
pub open spec fn report_with(
    row: AwcMetar,
    id: Seq<char>,
    category: Seq<char>,
    obs_time: Seq<char>,
) -> Option<ReportView> {
    let raw = trimmed(row.raw_ob@);
    if id.len() == 0 || raw.len() == 0 || !is_latitude(row.lat) || !is_longitude(row.lon) {
        None
    } else {
        Some(
            ReportView {
                id,
                lat: row.lat,
                lon: row.lon,
                category,
                raw,
                obs_time,
            },
        )
    }
}

/// The report of a row.
pub open spec fn report_of(row: AwcMetar) -> Option<ReportView> {
    report_with(row, id_of(row.icao_id@), category_of(row), obs_text(obs_secs(row)))
}

/// Where the report with an id first stands, or the number of reports.
pub open spec fn slot(reports: Seq<ReportView>, id: Seq<char>) -> int
    decreases reports.len(),
{
    if reports.len() == 0 || reports[0].id == id {
        0
    } else {
        1 + slot(reports.drop_first(), id)
    }
}

/// The reports with one more: it takes the place of an older one with its id.
pub open spec fn merged(reports: Seq<ReportView>, r: ReportView) -> Seq<ReportView> {
    let at = slot(reports, r.id);
    if at == reports.len() {
        reports.push(r)
    } else if text_before(reports[at].obs_time, r.obs_time) {
        reports.update(at, r)
    } else {
        reports
    }
}

/// The reports, one for each id: where there are several, the first of the latest.
pub open spec fn newest_of(reports: Seq<ReportView>) -> Seq<ReportView>
    decreases reports.len(),
{
    if reports.len() == 0 {
        Seq::empty()
    } else {
        merged(newest_of(reports.drop_last()), reports.last())
    }
}

/// The reports of the rows, one for each id.
pub open spec fn latest(rows: Seq<AwcMetar>) -> Seq<ReportView>
    decreases rows.len(),
{
    if rows.len() == 0 {
        Seq::empty()
    } else {
        let rest = latest(rows.drop_last());
        match report_of(rows.last()) {
            Some(r) => merged(rest, r),
            None => rest,
        }
    }
}

/// No two reports have one id.
pub open spec fn distinct_ids(reports: Seq<ReportView>) -> bool {
    forall|i: int, j: int|
        0 <= i < j < reports.len() ==> #[trigger] reports[i].id != #[trigger] reports[j].id
}

pub proof fn slot_finds(reports: Seq<ReportView>, id: Seq<char>)
    ensures
        0 <= slot(reports, id) <= reports.len(),
        slot(reports, id) < reports.len() ==> reports[slot(reports, id)].id == id,
        forall|i: int| 0 <= i < slot(reports, id) ==> (#[trigger] reports[i]).id != id,
    decreases reports.len(),
{
    if reports.len() > 0 && reports[0].id != id {
        let rest = reports.drop_first();
        slot_finds(rest, id);
        assert forall|i: int| 0 <= i < slot(reports, id) implies (#[trigger] reports[i]).id != id by {
            if i > 0 {
                assert(rest[i - 1] == reports[i]);
            }
        }
    }
}

/// Whether a report is the one of some row.
pub open spec fn reported(rows: Seq<AwcMetar>, r: ReportView) -> bool {
    exists|i: int| 0 <= i < rows.len() && report_of(#[trigger] rows[i]) == Some(r)
}

/// Whether an id has a report that is at least as late as `r`, as texts go.
pub open spec fn kept_for(reports: Seq<ReportView>, r: ReportView) -> bool {
    exists|k: int|
        0 <= k < reports.len() && (#[trigger] reports[k]).id == r.id && !text_before(
            reports[k].obs_time,
            r.obs_time,
        )
}

proof fn lemma_merged(rest: Seq<ReportView>, new: ReportView)
    requires
        distinct_ids(rest),
    ensures
        distinct_ids(merged(rest, new)),
        kept_for(merged(rest, new), new),
        forall|r: ReportView| kept_for(rest, r) ==> kept_for(merged(rest, new), r),
        forall|k: int|
            0 <= k < merged(rest, new).len() && #[trigger] merged(rest, new)[k] != new ==> k
                < rest.len() && merged(rest, new)[k] == rest[k],
{
    let at = slot(rest, new.id);
    let all = merged(rest, new);
    slot_finds(rest, new.id);
    before_irreflexive(new.obs_time);
    if at < rest.len() && !text_before(rest[at].obs_time, new.obs_time) {
        assert(all == rest);
        assert(all[at].id == new.id);
    } else {
        assert(all[at] == new);
        assert forall|r: ReportView| kept_for(rest, r) implies kept_for(all, r) by {
            let k = choose|k: int|
                0 <= k < rest.len() && (#[trigger] rest[k]).id == r.id && !text_before(
                    rest[k].obs_time,
                    r.obs_time,
                );
            if k == at {
                if text_before(new.obs_time, r.obs_time) {
                    before_transitive(rest[at].obs_time, new.obs_time, r.obs_time);
                }
                assert(all[k].id == r.id);
            } else {
                assert(all[k] == rest[k]);
            }
        }
    }
}

proof fn lemma_reported_grows(rows: Seq<AwcMetar>, r: ReportView)
    requires
        rows.len() > 0,
        reported(rows.drop_last(), r),
    ensures
        reported(rows, r),
{
    let prior = rows.drop_last();
    let i = choose|i: int| 0 <= i < prior.len() && report_of(#[trigger] prior[i]) == Some(r);
    assert(report_of(rows[i]) == Some(r));
}

/// Each id has one report; it is the report of a row; and no other row of that id
/// has a later observation text.
pub proof fn latest_keeps_the_newest(rows: Seq<AwcMetar>)
    ensures
        distinct_ids(latest(rows)),
        forall|k: int|
            0 <= k < latest(rows).len() ==> reported(rows, #[trigger] latest(rows)[k]),
        forall|i: int|
            0 <= i < rows.len() && report_of(#[trigger] rows[i]) is Some ==> kept_for(
                latest(rows),
                report_of(rows[i])->0,
            ),
    decreases rows.len(),
{
    if rows.len() > 0 {
        let prior = rows.drop_last();
        let last = rows.last();
        let rest = latest(prior);
        let all = latest(rows);
        latest_keeps_the_newest(prior);
        let new = report_of(last);
        if new is Some {
            lemma_merged(rest, new->0);
            assert(report_of(rows[rows.len() - 1]) == new);
            assert(reported(rows, new->0));
        }
        assert forall|k: int| 0 <= k < all.len() implies reported(rows, #[trigger] all[k]) by {
            if new != Some(all[k]) {
                assert(all[k] == rest[k]);
                lemma_reported_grows(rows, rest[k]);
            }
        }
        assert forall|i: int|
            0 <= i < rows.len() && report_of(#[trigger] rows[i]) is Some implies kept_for(
            all,
            report_of(rows[i])->0,
        ) by {
            if i < prior.len() {
                assert(prior[i] == rows[i]);
            }
        }
    }
}

/// Every report has an id, an observation and a place on the globe, and one of the four
/// categories.
pub proof fn latest_reports_are_whole(rows: Seq<AwcMetar>)
    ensures
        forall|k: int|
            0 <= k < latest(rows).len() ==> {
                &&& (#[trigger] latest(rows)[k]).id.len() > 0
                &&& latest(rows)[k].raw.len() > 0
                &&& is_latitude(latest(rows)[k].lat)
                &&& is_longitude(latest(rows)[k].lon)
                &&& is_category(latest(rows)[k].category)
            },
{
    latest_keeps_the_newest(rows);
    assert forall|k: int| 0 <= k < latest(rows).len() implies {
        &&& (#[trigger] latest(rows)[k]).id.len() > 0
        &&& latest(rows)[k].raw.len() > 0
        &&& is_latitude(latest(rows)[k].lat)
        &&& is_longitude(latest(rows)[k].lon)
        &&& is_category(latest(rows)[k].category)
    } by {
        let r = latest(rows)[k];
        assert(reported(rows, r));
        let i = choose|i: int| 0 <= i < rows.len() && report_of(#[trigger] rows[i]) == Some(r);
        every_row_has_a_category(rows[i]);
    }
}

/// Two lists hold the same rows, in whatever order.
pub open spec fn same_rows(a: Seq<AwcMetar>, b: Seq<AwcMetar>) -> bool {
    forall|row: AwcMetar| #[trigger] a.contains(row) <==> b.contains(row)
}

pub open spec fn same_reports(a: Seq<ReportView>, b: Seq<ReportView>) -> bool {
    forall|r: ReportView| #[trigger] a.contains(r) <==> b.contains(r)
}

/// Rows of one id whose times have the same text have the same report.
pub open spec fn texts_tell_apart(rows: Seq<AwcMetar>) -> bool {
    forall|r: ReportView, s: ReportView|
        #[trigger] reported(rows, r) && #[trigger] reported(rows, s) && r.id == s.id && r.obs_time
            == s.obs_time ==> r == s
}

/// The rows that have a report have years of four digits, and no two of them share an
/// id and a whole second.
pub open spec fn seconds_tell_apart(rows: Seq<AwcMetar>) -> bool {
    &&& forall|i: int|
        0 <= i < rows.len() && report_of(#[trigger] rows[i]) is Some ==> has_plain_year(
            obs_secs(rows[i]) as int,
        )
    &&& forall|i: int, j: int|
        0 <= i < j < rows.len() && report_of(#[trigger] rows[i]) is Some && report_of(
            #[trigger] rows[j],
        ) is Some && obs_secs(rows[i]) == obs_secs(rows[j]) ==> report_of(rows[i])->0.id
            != report_of(rows[j])->0.id
}

proof fn lemma_reported_elsewhere(a: Seq<AwcMetar>, b: Seq<AwcMetar>, r: ReportView)
    requires
        same_rows(a, b),
        reported(a, r),
    ensures
        reported(b, r),
{
    let i = choose|i: int| 0 <= i < a.len() && report_of(#[trigger] a[i]) == Some(r);
    assert(a.contains(a[i]));
    assert(b.contains(a[i]));
    let j = choose|j: int| 0 <= j < b.len() && b[j] == a[i];
    assert(report_of(b[j]) == Some(r));
}

proof fn lemma_reported_is_kept(rows: Seq<AwcMetar>, r: ReportView) -> (k: int)
    requires
        reported(rows, r),
    ensures
        0 <= k < latest(rows).len(),
        latest(rows)[k].id == r.id,
        !text_before(latest(rows)[k].obs_time, r.obs_time),
        reported(rows, latest(rows)[k]),
{
    latest_keeps_the_newest(rows);
    let i = choose|i: int| 0 <= i < rows.len() && report_of(#[trigger] rows[i]) == Some(r);
    assert(kept_for(latest(rows), r));
    choose|k: int|
        0 <= k < latest(rows).len() && (#[trigger] latest(rows)[k]).id == r.id && !text_before(
            latest(rows)[k].obs_time,
            r.obs_time,
        )
}

proof fn lemma_kept_elsewhere(a: Seq<AwcMetar>, b: Seq<AwcMetar>, r: ReportView)
    requires
        same_rows(a, b),
        texts_tell_apart(a),
        latest(a).contains(r),
    ensures
        latest(b).contains(r),
{
    latest_keeps_the_newest(a);
    let m = choose|m: int| 0 <= m < latest(a).len() && latest(a)[m] == r;
    assert(reported(a, latest(a)[m]));
    lemma_reported_elsewhere(a, b, r);
    let k = lemma_reported_is_kept(b, r);
    let s = latest(b)[k];
    lemma_reported_elsewhere(b, a, s);
    let n = lemma_reported_is_kept(a, s);
    assert(n == m) by {
        if n < m {
            assert(latest(a)[n].id != latest(a)[m].id);
        } else if m < n {
            assert(latest(a)[m].id != latest(a)[n].id);
        }
    }
    if r.obs_time != s.obs_time {
        before_total(r.obs_time, s.obs_time);
    }
    assert(r == s);
}

/// The order of the rows does not change which reports are kept, as long as the texts
/// of their times tell the rows of an id apart.
pub proof fn latest_ignores_order(a: Seq<AwcMetar>, b: Seq<AwcMetar>)
    requires
        same_rows(a, b),
        texts_tell_apart(a),
    ensures
        same_reports(latest(a), latest(b)),
{
    assert(texts_tell_apart(b)) by {
        assert forall|r: ReportView, s: ReportView|
            #[trigger] reported(b, r) && #[trigger] reported(b, s) && r.id == s.id && r.obs_time
                == s.obs_time implies r == s by {
            lemma_reported_elsewhere(b, a, r);
            lemma_reported_elsewhere(b, a, s);
        }
    }
    assert forall|r: ReportView| #[trigger] latest(a).contains(r) <==> latest(b).contains(r) by {
        if latest(a).contains(r) {
            lemma_kept_elsewhere(a, b, r);
        }
        if latest(b).contains(r) {
            lemma_kept_elsewhere(b, a, r);
        }
    }
}

/// Rows that whole seconds tell apart are told apart by the texts of their times, given
/// that later moments have later texts.
pub proof fn seconds_give_texts(rows: Seq<AwcMetar>)
    requires
        seconds_tell_apart(rows),
        forall|i: int| 0 <= i < rows.len() ==> texts_follow(obs_secs(#[trigger] rows[i])),
    ensures
        texts_tell_apart(rows),
{
    assert forall|r: ReportView, s: ReportView|
        #[trigger] reported(rows, r) && #[trigger] reported(rows, s) && r.id == s.id && r.obs_time
            == s.obs_time implies r == s by {
        let i = choose|i: int| 0 <= i < rows.len() && report_of(#[trigger] rows[i]) == Some(r);
        let j = choose|j: int| 0 <= j < rows.len() && report_of(#[trigger] rows[j]) == Some(s);
        let (x, y) = (obs_secs(rows[i]), obs_secs(rows[j]));
        assert(texts_follow(x) && texts_follow(y));
        before_irreflexive(r.obs_time);
        if x < y {
            assert(text_before(rfc3339_text(x), rfc3339_text(y)));
        } else if y < x {
            assert(text_before(rfc3339_text(y), rfc3339_text(x)));
        }
    }
}

/// Whether the report that an id keeps is as new as every row of the id, in seconds.
pub open spec fn newest_kept(rows: Seq<AwcMetar>, reports: Seq<ReportView>) -> bool {
    forall|i: int, k: int, m: int|
        0 <= i < rows.len() && 0 <= k < reports.len() && 0 <= m < rows.len() && report_of(
            #[trigger] rows[m],
        ) == Some(#[trigger] reports[k]) && report_of(#[trigger] rows[i]) is Some && report_of(
            rows[i],
        ).unwrap().id == reports[k].id && has_plain_year(obs_secs(rows[i]) as int)
            && has_plain_year(obs_secs(rows[m]) as int) ==> obs_secs(rows[i]) <= obs_secs(rows[m])
}

/// The later of two moments with plain years has the later text.
pub open spec fn texts_follow(secs: i64) -> bool {
    has_plain_year(secs as int) ==> forall|earlier: i64|
        has_plain_year(earlier as int) && earlier < secs ==> text_before(
            #[trigger] rfc3339_text(earlier),
            rfc3339_text(secs),
        )
}

proof fn lemma_newest_kept(rows: Seq<AwcMetar>)
    requires
        forall|i: int|
            0 <= i < rows.len() && report_of(rows[i]) is Some ==> texts_follow(
                obs_secs(#[trigger] rows[i]),
            ),
    ensures
        newest_kept(rows, latest(rows)),
{
    let reports = latest(rows);
    latest_keeps_the_newest(rows);
    assert forall|i: int, k: int, m: int|
        0 <= i < rows.len() && 0 <= k < reports.len() && 0 <= m < rows.len() && report_of(
            #[trigger] rows[m],
        ) == Some(#[trigger] reports[k]) && report_of(#[trigger] rows[i]) is Some && report_of(
            rows[i],
        ).unwrap().id == reports[k].id && has_plain_year(obs_secs(rows[i]) as int)
            && has_plain_year(obs_secs(rows[m]) as int) implies obs_secs(rows[i]) <= obs_secs(
        rows[m],
    ) by {
        let r = report_of(rows[i]).unwrap();
        assert(kept_for(reports, r));
        let j = choose|j: int|
            0 <= j < reports.len() && (#[trigger] reports[j]).id == r.id && !text_before(
                reports[j].obs_time,
                r.obs_time,
            );
        assert(j == k);
        if obs_secs(rows[m]) < obs_secs(rows[i]) {
            assert(texts_follow(obs_secs(rows[i])));
            assert(text_before(rfc3339_text(obs_secs(rows[m])), rfc3339_text(obs_secs(rows[i]))));
        }
    }
}

/// The report of a row, given its id in upper case, its category and the text of its
/// time.
pub fn report_from(row: &AwcMetar, id: String, category: String, obs_time: String) -> (r: Option<
    MetarReport,
>)
    ensures
        r is Some <==> report_with(*row, id@, category@, obs_time@) is Some,
        r matches Some(report) ==> report_with(*row, id@, category@, obs_time@) == Some(report@),
{
    let raw = trim(row.raw_ob.as_str());
    if id.as_str().is_empty() || raw.as_str().is_empty() {
        return None;
    }
    if !latitude(row.lat) || !longitude(row.lon) {
        return None;
    }
    Some(MetarReport { id, lat: row.lat, lon: row.lon, category, raw, obs_time })
}

/// Reads one row.
pub fn read_row(row: &AwcMetar) -> (r: Option<MetarReport>)
    ensures
        r is Some <==> report_of(*row) is Some,
        r matches Some(report) ==> report_of(*row) == Some(report@),
        texts_follow(obs_secs(*row)),
{
    let id = to_upper(trim(row.icao_id.as_str()).as_str());
    let secs: i64 = match row.obs_time {
        Some(t) => t.to_whole(),
        None => 0,
    };
    report_from(row, id, category(row), format_obs(secs))
}

fn find_report(reports: &Vec<MetarReport>, id: &str) -> (r: usize)
    ensures
        r == slot(report_views(reports@), id@),
        r <= reports@.len(),
{
    let ghost all = report_views(reports@);
    let mut i: usize = 0;
    assert(all.skip(0) =~= all);
    while i < reports.len() && !same_text(reports[i].id.as_str(), id)
        invariant
            all == report_views(reports@),
            i <= reports@.len(),
            slot(all, id@) == i + slot(all.skip(i as int), id@),
        decreases reports@.len() - i,
    {
        assert(all.skip(i as int)[0] == reports@[i as int]@);
        assert(all.skip(i as int).drop_first() =~= all.skip(i + 1));
        i = i + 1;
    }
    proof {
        if i < reports@.len() {
            assert(all.skip(i as int)[0] == reports@[i as int]@);
        }
    }
    i
}

/// One report for each id: where there are several, the first of the latest.
pub fn keep_newest(reports: Vec<MetarReport>) -> (r: Vec<MetarReport>)
    ensures
        report_views(r@) == newest_of(report_views(reports@)),
{
    let ghost all = report_views(reports@);
    let mut kept: Vec<MetarReport> = Vec::new();
    let mut i: usize = 0;
    assert(report_views(kept@) =~= Seq::empty());
    while i < reports.len()
        invariant
            all == report_views(reports@),
            i <= reports@.len(),
            report_views(kept@) == newest_of(all.take(i as int)),
        decreases reports@.len() - i,
    {
        let report = &reports[i];
        let ghost prior = report_views(kept@);
        assert(all.take(i + 1).drop_last() =~= all.take(i as int));
        assert(all.take(i + 1).last() == report@);
        let at: usize = find_report(&kept, report.id.as_str());
        if at == kept.len() {
            kept.push(report.clone());
            assert(report_views(kept@) =~= prior.push(report@));
        } else if before(kept[at].obs_time.as_str(), report.obs_time.as_str()) {
            kept[at] = report.clone();
            assert(report_views(kept@) =~= prior.update(at as int, report@));
        }
        i = i + 1;
    }
    assert(all.take(all.len() as int) =~= all);
    kept
}

/// The newest report of each station. Rows without an id, an observation or a place
/// on the globe are passed over. The reports are the same in whatever order the rows
/// come, as long as whole seconds tell the rows of an id apart.
#[verifier::rlimit(40)]
pub fn parse_body(rows: &Vec<AwcMetar>) -> (r: Vec<MetarReport>)
    ensures
        report_views(r@) == latest(rows@),
        distinct_ids(report_views(r@)),
        newest_kept(rows@, report_views(r@)),
        forall|i: int, k: int, m: int|
            0 <= i < rows@.len() && 0 <= k < r@.len() && 0 <= m < rows@.len() && report_of(
                #[trigger] rows@[m],
            ) == Some((#[trigger] r@[k])@) && report_of(#[trigger] rows@[i]) is Some && report_of(
                rows@[i],
            )->0.id == r@[k].id@ && rows@[i].obs_time is Some && rows@[m].obs_time is Some
                && -62_167_219_200 <= rows@[i].obs_time->0.whole() <= 253_402_300_799
                && -62_167_219_200 <= rows@[m].obs_time->0.whole() <= 253_402_300_799
                ==> rows@[i].obs_time->0.whole() <= rows@[m].obs_time->0.whole(),
        seconds_tell_apart(rows@) ==> forall|other: Seq<AwcMetar>|
            same_rows(rows@, other) ==> same_reports(report_views(r@), #[trigger] latest(other)),
{
    let mut reports: Vec<MetarReport> = Vec::new();
    let mut i: usize = 0;
    assert(report_views(reports@) =~= Seq::empty());
    while i < rows.len()
        invariant
            i <= rows@.len(),
            newest_of(report_views(reports@)) == latest(rows@.take(i as int)),
            forall|j: int| 0 <= j < i ==> texts_follow(obs_secs(#[trigger] rows@[j])),
        decreases rows@.len() - i,
    {
        let ghost prior = report_views(reports@);
        assert(rows@.take(i + 1).drop_last() =~= rows@.take(i as int));
        assert(rows@.take(i + 1).last() == rows@[i as int]);
        if let Some(report) = read_row(&rows[i]) {
            let ghost new = report@;
            reports.push(report);
            assert(report_views(reports@) =~= prior.push(new));
            assert(prior.push(new).drop_last() =~= prior);
        }
        i = i + 1;
    }
    proof {
        assert(rows@.take(rows@.len() as int) =~= rows@);
        latest_keeps_the_newest(rows@);
        lemma_newest_kept(rows@);
        if seconds_tell_apart(rows@) {
            seconds_give_texts(rows@);
            assert forall|other: Seq<AwcMetar>| same_rows(rows@, other) implies same_reports(
                latest(rows@),
                #[trigger] latest(other),
            ) by {
                latest_ignores_order(rows@, other);
            }
        }
    }
    let newest = keep_newest(reports);
    proof {
        lemma_newest_by_seconds(rows@, newest@);
    }
    newest
}

proof fn lemma_newest_by_seconds(rows: Seq<AwcMetar>, reports: Seq<MetarReport>)
    requires
        newest_kept(rows, report_views(reports)),
    ensures
        forall|i: int, k: int, m: int|
            0 <= i < rows.len() && 0 <= k < reports.len() && 0 <= m < rows.len() && report_of(
                #[trigger] rows[m],
            ) == Some((#[trigger] reports[k])@) && report_of(#[trigger] rows[i]) is Some
                && report_of(rows[i])->0.id == reports[k].id@ && rows[i].obs_time is Some
                && rows[m].obs_time is Some && -62_167_219_200 <= rows[i].obs_time->0.whole()
                <= 253_402_300_799 && -62_167_219_200 <= rows[m].obs_time->0.whole()
                <= 253_402_300_799 ==> rows[i].obs_time->0.whole() <= rows[m].obs_time->0.whole(),
{
    assert forall|i: int, k: int, m: int|
        0 <= i < rows.len() && 0 <= k < reports.len() && 0 <= m < rows.len() && report_of(
            #[trigger] rows[m],
        ) == Some((#[trigger] reports[k])@) && report_of(#[trigger] rows[i]) is Some && report_of(
            rows[i],
        )->0.id == reports[k].id@ && rows[i].obs_time is Some && rows[m].obs_time is Some
            && -62_167_219_200 <= rows[i].obs_time->0.whole() <= 253_402_300_799 && -62_167_219_200
            <= rows[m].obs_time->0.whole() <= 253_402_300_799 implies rows[i].obs_time->0.whole()
        <= rows[m].obs_time->0.whole() by {
        let views = report_views(reports);
        assert(views[k] == reports[k]@);
        assert(obs_secs(rows[i]) == rows[i].obs_time->0.whole());
        assert(obs_secs(rows[m]) == rows[m].obs_time->0.whole());
    }
}

/// 90 and 180, and the same with a sign.
proof fn lemma_globe()
    ensures
        (Double { bits: NORTH_POLE }).value() == 90 * pow2(1074),
        (Double { bits: SOUTH_POLE }).value() == -90 * pow2(1074),
        (Double { bits: EAST_END }).value() == 180 * pow2(1074),
        (Double { bits: WEST_END }).value() == -180 * pow2(1074),
{
    lemma2_to64();
    lemma2_to64_rest();
    whole_number_pattern(Double { bits: NORTH_POLE }, 90, 46);
    whole_number_pattern(Double { bits: EAST_END }, 180, 45);
    patterns_tell_the_value(Double { bits: NORTH_POLE });
    patterns_tell_the_value(Double { bits: EAST_END });
}

/// A place is on the globe from 90 degrees south to 90 north and from 180 degrees west to
/// 180 east.
pub proof fn globe_reaches_from_pole_to_pole(x: Double)
    ensures
        is_latitude(x) <==> !x.is_nan() && -90 * pow2(1074) <= x.value() <= 90 * pow2(1074),
        is_longitude(x) <==> !x.is_nan() && -180 * pow2(1074) <= x.value() <= 180 * pow2(1074),
{
    lemma_globe();
}

proof fn lemma_pinned_order(ids: Seq<Seq<char>>, limit: nat, kept: Seq<Seq<char>>)
    ensures
        pinned(ids, limit, kept) matches Some(all) ==> {
            &&& all.len() >= kept.len()
            &&& all.take(kept.len() as int) == kept
            &&& forall|a: int, b: int|
                kept.len() <= a < b < all.len() && #[trigger] all[a] != #[trigger] all[b]
                    ==> comes_first(ids, all[a], all[b])
            &&& forall|a: int| kept.len() <= a < all.len() ==> ids.contains(#[trigger] all[a])
            &&& all.len() < limit ==> forall|i: int|
                0 <= i < ids.len() && ids[i].len() > 0 ==> all.contains(#[trigger] ids[i])
        },
    decreases ids.len(),
{
    if ids.len() == 0 {
        assert(kept.take(kept.len() as int) =~= kept);
    } else {
        let rest = ids.drop_first();
        let grown = if ids[0].len() == 0 || kept.contains(ids[0]) {
            kept
        } else {
            kept.push(ids[0])
        };
        if pinned(ids, limit, kept) is Some {
            let all = pinned(ids, limit, kept)->0;
            if ids[0].len() > 0 && kept.len() >= limit {
                assert(all.take(kept.len() as int) =~= kept);
            } else {
                lemma_pinned_order(rest, limit, grown);
                assert(all == pinned(rest, limit, grown)->0);
                assert(all.take(kept.len() as int) =~= grown.take(kept.len() as int)) by {
                    assert forall|n: int| 0 <= n < kept.len() implies all[n] == #[trigger] grown[n] by {
                        assert(all.take(grown.len() as int)[n] == grown[n]);
                    }
                }
                assert(grown.take(kept.len() as int) =~= kept);
                assert forall|a: int, b: int|
                    kept.len() <= a < b < all.len() && #[trigger] all[a] != #[trigger] all[
                    b] implies comes_first(ids, all[a], all[b]) by {
                    if a < grown.len() {
                        assert(all.take(grown.len() as int)[a] == grown[a]);
                        assert(ids[0] == all[a]);
                    } else {
                        assert(comes_first(rest, all[a], all[b]));
                        let n = choose|n: int|
                            0 <= n < rest.len() && #[trigger] rest[n] == all[a] && forall|j: int|
                                0 <= j <= n ==> #[trigger] rest[j] != all[b];
                        assert(ids[n + 1] == all[a]);
                        assert forall|j: int| 0 <= j <= n + 1 implies #[trigger] ids[j]
                            != all[b] by {
                            if j > 0 {
                                assert(rest[j - 1] != all[b]);
                            } else if ids[0] == all[b] {
                                lemma_pinned_once(rest, limit, grown, b);
                                if ids[0].len() > 0 && !kept.contains(ids[0]) {
                                    assert(grown[kept.len() as int] == ids[0]);
                                }
                            }
                        }
                    }
                }
                assert forall|a: int| kept.len() <= a < all.len() implies ids.contains(
                    #[trigger] all[a],
                ) by {
                    if a < grown.len() {
                        assert(all.take(grown.len() as int)[a] == grown[a]);
                        assert(ids[0] == all[a]);
                    } else {
                        let n = choose|n: int| 0 <= n < rest.len() && rest[n] == all[a];
                        assert(ids[n + 1] == all[a]);
                    }
                }
                if all.len() < limit {
                    assert forall|i: int| 0 <= i < ids.len() && ids[i].len() > 0 implies all.contains(
                        #[trigger] ids[i],
                    ) by {
                        if i > 0 {
                            assert(rest[i - 1] == ids[i]);
                        } else {
                            assert(grown.contains(ids[0])) by {
                                if !kept.contains(ids[0]) {
                                    assert(grown[kept.len() as int] == ids[0]);
                                }
                            }
                            let n = choose|n: int| 0 <= n < grown.len() && grown[n] == ids[0];
                            assert(all.take(grown.len() as int)[n] == ids[0]);
                            assert(all[n] == ids[0]);
                        }
                    }
                }
            }
        }
    }
}

/// An id that stands ahead of all copies of a kept one is kept too.
proof fn lemma_pinned_prefix(
    ids: Seq<Seq<char>>,
    limit: nat,
    kept: Seq<Seq<char>>,
    b: int,
    i: int,
)
    requires
        pinned(ids, limit, kept) is Some,
        kept.len() <= b < pinned(ids, limit, kept)->0.len(),
        0 <= i < ids.len(),
        ids[i].len() > 0,
        forall|j: int| 0 <= j <= i ==> #[trigger] ids[j] != pinned(ids, limit, kept)->0[b],
    ensures
        pinned(ids, limit, kept)->0.contains(ids[i]),
    decreases ids.len(),
{
    let all = pinned(ids, limit, kept)->0;
    let rest = ids.drop_first();
    let grown = if ids[0].len() == 0 || kept.contains(ids[0]) {
        kept
    } else {
        kept.push(ids[0])
    };
    assert(!(ids[0].len() > 0 && kept.len() >= limit));
    assert(all == pinned(rest, limit, grown)->0);
    lemma_pinned_order(rest, limit, grown);
    if i == 0 {
        if !kept.contains(ids[0]) {
            assert(grown[kept.len() as int] == ids[0]);
        }
        let n = choose|n: int| 0 <= n < grown.len() && grown[n] == ids[0];
        assert(all.take(grown.len() as int)[n] == ids[0]);
        assert(all[n] == ids[0]);
    } else {
        if b < grown.len() {
            assert(all.take(grown.len() as int)[b] == grown[b]);
            assert(all[b] == ids[0]);
        }
        assert forall|j: int| 0 <= j <= i - 1 implies #[trigger] rest[j] != all[b] by {
            assert(ids[j + 1] != all[b]);
        }
        assert(rest[i - 1] == ids[i]);
        lemma_pinned_prefix(rest, limit, grown, b, i - 1);
    }
}

/// What comes behind the kept ids is none of them, and not blank.
proof fn lemma_pinned_once(ids: Seq<Seq<char>>, limit: nat, kept: Seq<Seq<char>>, b: int)
    requires
        pinned(ids, limit, kept) is Some,
        kept.len() <= b < pinned(ids, limit, kept)->0.len(),
    ensures
        !kept.contains(pinned(ids, limit, kept)->0[b]),
        pinned(ids, limit, kept)->0[b].len() > 0,
    decreases ids.len(),
{
    let all = pinned(ids, limit, kept)->0;
    if ids.len() > 0 && !(ids[0].len() > 0 && kept.len() >= limit) {
        let rest = ids.drop_first();
        if ids[0].len() == 0 || kept.contains(ids[0]) {
            lemma_pinned_once(rest, limit, kept, b);
        } else {
            let more = kept.push(ids[0]);
            if b == kept.len() {
                lemma_pinned_order(rest, limit, more);
                assert(all.take(more.len() as int)[b] == more[b]);
            } else {
                lemma_pinned_once(rest, limit, more, b);
                if kept.contains(all[b]) {
                    let n = choose|n: int| 0 <= n < kept.len() && kept[n] == all[b];
                    assert(more[n] == all[b]);
                }
            }
        }
    }
}

/// Whether `x` stands in a list before `y` ever does.
pub open spec fn comes_first(list: Seq<Seq<char>>, x: Seq<char>, y: Seq<char>) -> bool {
    exists|n: int|
        0 <= n < list.len() && #[trigger] list[n] == x && forall|j: int|
            0 <= j <= n ==> #[trigger] list[j] != y
}

/// The query of an accepted request carries what was asked for: the place, the four
/// corners as the box or no box without them, the limit or 16 without one, the pick that
/// is named or the nearest stations without one, and the ids in the order in which they
/// first stand there: all of them unless the limit is reached, and otherwise the first.
pub proof fn accepted_query_carries_the_request(
    lat: Double,
    lon: Double,
    corners: (Option<Double>, Option<Double>, Option<Double>, Option<Double>),
    pick: Option<Seq<char>>,
    limit: Option<u32>,
    ids: Seq<Seq<char>>,
)
    ensures
        query_of(lat, lon, corners, pick, limit, ids) matches Ok(q) ==> {
            &&& q.lat == lat && q.lon == lon
            &&& corners.0 is Some <==> q.bbox is Some
            &&& corners.1 is Some <==> q.bbox is Some
            &&& corners.2 is Some <==> q.bbox is Some
            &&& corners.3 is Some <==> q.bbox is Some
            &&& q.bbox matches Some(b) ==> b.south == corners.0->0 && b.west == corners.1->0
                && b.north == corners.2->0 && b.east == corners.3->0
            &&& limit matches Some(n) ==> q.limit == n
            &&& limit is None ==> q.limit == 16
            &&& pick is None ==> q.pick == Pick::Nearest
            &&& pick matches Some(text) ==> (q.pick == Pick::Priority <==> trimmed(text)
                == "priority"@)
            &&& forall|a: int, b: int|
                0 <= a < b < q.always_on.len() ==> comes_first(
                    ids,
                    #[trigger] q.always_on[a],
                    #[trigger] q.always_on[b],
                )
            &&& q.always_on.len() < q.limit ==> forall|i: int|
                0 <= i < ids.len() && ids[i].len() > 0 ==> q.always_on.contains(#[trigger] ids[i])
            &&& forall|b: int, i: int|
                #![trigger q.always_on[b], ids[i]]
                0 <= b < q.always_on.len() && 0 <= i < ids.len() && ids[i].len() > 0 && (forall|
                    j: int,
                |
                    0 <= j <= i ==> #[trigger] ids[j] != q.always_on[b]) ==> q.always_on.contains(
                    ids[i],
                )
        },
{
    if query_of(lat, lon, corners, pick, limit, ids) is Ok {
        let q = query_of(lat, lon, corners, pick, limit, ids)->Ok_0;
        accepted_query_is_sound(lat, lon, corners, pick, limit, ids);
        assert forall|b: int, i: int|
            #![trigger q.always_on[b], ids[i]]
            0 <= b < q.always_on.len() && 0 <= i < ids.len() && ids[i].len() > 0 && (forall|j: int|
                0 <= j <= i ==> #[trigger] ids[j]
                    != q.always_on[b]) implies q.always_on.contains(ids[i]) by {
            lemma_pinned_prefix(ids, limited(limit)->0 as nat, Seq::empty(), b, i);
        }
        lemma_pinned_order(ids, limited(limit)->0 as nat, Seq::empty());
        reveal_strlit("nearest");
        reveal_strlit("priority");
        assert("nearest"@.len() != "priority"@.len());
        assert forall|a: int, b: int| 0 <= a < b < q.always_on.len() implies comes_first(
            ids,
            #[trigger] q.always_on[a],
            #[trigger] q.always_on[b],
        ) by {
            assert(q.always_on[a] != q.always_on[b]);
        }
    }
}

proof fn lemma_pinned_accepts(ids: Seq<Seq<char>>, limit: nat, kept: Seq<Seq<char>>)
    ensures
        (forall|i: int| 0 <= i < ids.len() ==> (#[trigger] ids[i]).len() == 0 || is_station_id(ids[i]))
            ==> pinned(ids, limit, kept) is Some,
    decreases ids.len(),
{
    if ids.len() > 0 {
        let rest = ids.drop_first();
        if forall|i: int| 0 <= i < ids.len() ==> (#[trigger] ids[i]).len() == 0 || is_station_id(ids[i]) {
            assert(ids[0].len() == 0 || is_station_id(ids[0]));
            assert forall|i: int| 0 <= i < rest.len() implies (#[trigger] rest[i]).len() == 0
                || is_station_id(rest[i]) by {
                assert(rest[i] == ids[i + 1]);
            }
        }
        lemma_pinned_accepts(rest, limit, kept);
        lemma_pinned_accepts(rest, limit, kept.push(ids[0]));
    }
}

proof fn lemma_pinned_refuses(ids: Seq<Seq<char>>, limit: nat, kept: Seq<Seq<char>>, i: int)
    requires
        0 <= i < ids.len(),
        kept.len() + i <= limit,
        ids[i].len() > 0,
        !is_station_id(ids[i]),
    ensures
        pinned(ids, limit, kept) is None,
    decreases ids.len(),
{
    if i > 0 {
        let rest = ids.drop_first();
        assert(rest[i - 1] == ids[i]);
        lemma_pinned_refuses(rest, limit, kept, i - 1);
        lemma_pinned_refuses(rest, limit, kept.push(ids[0]), i - 1);
    }
}

/// A request is refused for its place, its pick, its limit, its corners, a pick by
/// priority without a box, or an id that is no three or four letters and digits, in this
/// order; and it is accepted where there is nothing of the kind.
pub proof fn request_is_refused_for_a_reason(
    lat: Double,
    lon: Double,
    corners: (Option<Double>, Option<Double>, Option<Double>, Option<Double>),
    pick: Option<Seq<char>>,
    limit: Option<u32>,
    ids: Seq<Seq<char>>,
)
    ensures
        ({
            let r = query_of(lat, lon, corners, pick, limit, ids);
            let u = pow2(1074) as int;
            let (s, w, n, e) = corners;
            let place = !lat.is_nan() && !lon.is_nan() && -90 * u <= lat.value() <= 90 * u && -180
                * u <= lon.value() <= 180 * u;
            let named = pick matches Some(text) ==> trimmed(text).len() == 0 || trimmed(text)
                == "nearest"@ || trimmed(text) == "priority"@;
            let hubs = pick matches Some(text) && trimmed(text) == "priority"@;
            let counted = limit matches Some(m) ==> 1 <= m <= 16;
            let all = s is Some && w is Some && n is Some && e is Some;
            let nothing = s is None && w is None && n is None && e is None;
            let boxed = {
                &&& !s->0.is_nan() && !w->0.is_nan() && !n->0.is_nan() && !e->0.is_nan()
                &&& -90 * u <= s->0.value() <= n->0.value() <= 90 * u
                &&& -180 * u <= w->0.value() <= e->0.value() <= 180 * u
            };
            let stations = forall|i: int|
                0 <= i < ids.len() && (#[trigger] ids[i]).len() > 0 ==> 3 <= ids[i].len() <= 4
                    && forall|j: int|
                    0 <= j < ids[i].len() ==> {
                        let c = #[trigger] ids[i][j];
                        '0' <= c <= '9' || 'A' <= c <= 'Z' || 'a' <= c <= 'z'
                    };
            &&& !place ==> r == Err::<QueryView, Seq<char>>(
                "metar_query needs lat in [-90, 90] and lon in [-180, 180]."@,
            )
            &&& place && !named ==> r == Err::<QueryView, Seq<char>>(
                "metar_query pick must be nearest or priority."@,
            )
            &&& place && named && !counted ==> r == Err::<QueryView, Seq<char>>(
                "metar_query limit must be 1 through 16."@,
            )
            &&& place && named && counted && !all && !nothing ==> r == Err::<QueryView, Seq<char>>(
                "metar_query needs south, west, north, east together."@,
            )
            &&& place && named && counted && all && !boxed ==> r == Err::<QueryView, Seq<char>>(
                "metar_query needs south, west, north, east as a view box."@,
            )
            &&& place && named && counted && nothing && hubs ==> r == Err::<QueryView, Seq<char>>(
                "metar_query pick=priority needs the view box."@,
            )
            &&& place && named && counted && (all && boxed || nothing && !hubs) && stations
                ==> r is Ok
            &&& place && named && counted && (all && boxed || nothing && !hubs) && r is Err ==> r
                == Err::<QueryView, Seq<char>>(
                "metar_query always_on ids must be ICAO station ids."@,
            )
        }),
{
    lemma_globe();
    reveal_strlit("nearest");
    reveal_strlit("priority");
    assert("nearest"@.len() != "priority"@.len());
    if limited(limit) is Some {
        lemma_pinned_accepts(ids, limited(limit)->0 as nat, Seq::empty());
        let stations = forall|i: int|
            0 <= i < ids.len() && (#[trigger] ids[i]).len() > 0 ==> 3 <= ids[i].len() <= 4
                && forall|j: int|
                0 <= j < ids[i].len() ==> {
                    let c = #[trigger] ids[i][j];
                    '0' <= c <= '9' || 'A' <= c <= 'Z' || 'a' <= c <= 'z'
                };
        if stations {
            assert forall|i: int| 0 <= i < ids.len() implies (#[trigger] ids[i]).len() == 0
                || is_station_id(ids[i]) by {
            }
        }
    }
}

/// The ids of a request are its texts without white space around them, in upper case.
pub proof fn ids_are_trimmed_and_in_upper_case(texts: Seq<Seq<char>>)
    ensures
        ids_of(texts).len() == texts.len(),
        forall|i: int|
            0 <= i < texts.len() ==> #[trigger] ids_of(texts)[i] == uppercase(trimmed(texts[i])),
{
}

/// Among the first ids of a request, as many as the limit and one more, one that is
/// neither blank nor three or four letters and digits has the request refused.
pub proof fn bad_id_is_refused(
    lat: Double,
    lon: Double,
    corners: (Option<Double>, Option<Double>, Option<Double>, Option<Double>),
    pick: Option<Seq<char>>,
    limit: Option<u32>,
    ids: Seq<Seq<char>>,
    i: int,
    j: int,
)
    requires
        0 <= i < ids.len(),
        limit matches Some(n) ==> i <= n,
        limit is None ==> i <= 16,
        ids[i].len() == 1 || ids[i].len() == 2 || ids[i].len() > 4 || 0 <= j < ids[i].len()
            && !('0' <= ids[i][j] <= '9') && !('A' <= ids[i][j] <= 'Z') && !('a' <= ids[i][j]
            <= 'z'),
    ensures
        query_of(lat, lon, corners, pick, limit, ids) is Err,
{
    assert(!is_station_id(ids[i])) by {
        if is_station_id(ids[i]) && 0 <= j < ids[i].len() {
            assert(is_ascii_alphanumeric(ids[i][j]));
        }
    }
    if limited(limit) is Some {
        lemma_pinned_refuses(ids, limited(limit)->0 as nat, Seq::empty(), i);
    }
}

/// The report of a row says what the row says: its id in upper case, its place, its text
/// without white space around it, and the text of its time, in whole seconds. A time out
/// of the range of years, or none, reads as 1970. There is a report exactly where there
/// is an id, a text and a place on the globe.
pub proof fn report_says_what_its_row_says(row: AwcMetar)
    ensures
        report_of(row) is Some <==> uppercase(trimmed(row.icao_id@)).len() > 0 && trimmed(
            row.raw_ob@,
        ).len() > 0 && !row.lat.is_nan() && !row.lon.is_nan() && -90 * pow2(1074)
            <= row.lat.value() <= 90 * pow2(1074) && -180 * pow2(1074) <= row.lon.value() <= 180
            * pow2(1074),
        report_of(row) matches Some(r) ==> {
            &&& r.id == uppercase(trimmed(row.icao_id@))
            &&& r.lat == row.lat && r.lon == row.lon
            &&& r.raw == trimmed(row.raw_ob@)
            &&& r.category == category_of(row)
            &&& row.obs_time is None ==> r.obs_time == rfc3339_text(0)
            &&& row.obs_time matches Some(t) ==> r.obs_time == if -8_334_601_228_800 <= t.whole()
                <= 8_210_266_876_799 {
                rfc3339_text(t.whole() as i64)
            } else {
                rfc3339_text(0)
            }
        },
{
    lemma_globe();
    if row.obs_time is Some {
        whole_drops_the_fraction(row.obs_time->0);
    }
}

/// A row that was observed in the second that starts `secs` seconds after 1970 has the
/// text of that second.
pub proof fn report_names_the_second(row: AwcMetar, t: Double, secs: i64)
    requires
        row.obs_time == Some(t),
        !t.is_nan(),
        0 <= secs <= 8_210_266_876_799,
        secs * pow2(1074) <= t.value() < (secs + 1) * pow2(1074),
    ensures
        report_of(row) matches Some(r) ==> r.obs_time == rfc3339_text(secs),
{
    let u = pow2(1074) as int;
    lemma_pow2_pos(1074);
    let w = t.whole();
    let v = t.value();
    let top = 0x8000_0000_0000_0000int;
    assert(0 <= v < top * u) by (nonlinear_arith)
        requires
            secs * u <= v < (secs + 1) * u,
            0 <= secs,
            secs + 1 <= top,
            u >= 1,
    ;
    whole_drops_the_fraction(t);
    assert(w == secs) by (nonlinear_arith)
        requires
            secs * u <= v < (secs + 1) * u,
            w * u <= v < (w + 1) * u,
            u >= 1,
    ;
    report_says_what_its_row_says(row);
}

proof fn lemma_still_kept(rows: Seq<AwcMetar>, k: int)
    requires
        rows.len() > 0,
        0 <= k < latest(rows.drop_last()).len(),
        k < latest(rows).len(),
        latest(rows)[k] == latest(rows.drop_last())[k],
        is_kept_rightly(rows.drop_last(), latest(rows.drop_last())[k]),
        distinct_ids(latest(rows.drop_last())),
    ensures
        is_kept_rightly(rows, latest(rows)[k]),
{
    let prior = rows.drop_last();
    let n = rows.len() - 1;
    let rest = latest(prior);
    let all = latest(rows);
    let new = report_of(rows.last());
    let r = all[k];
    let m = choose|m: int| #[trigger] is_first_of_the_latest(prior, rest[k], m);
    assert(rows[m] == prior[m]);
    assert(rows[n] == rows.last());
    assert forall|i: int|
        0 <= i < rows.len() && report_of(#[trigger] rows[i]) is Some && report_of(rows[i])->0.id
            == r.id implies (i < m ==> text_before(report_of(rows[i])->0.obs_time, r.obs_time)) && (
    i > m ==> !text_before(r.obs_time, report_of(rows[i])->0.obs_time)) by {
        if i < n {
            assert(prior[i] == rows[i]);
        } else {
            let x = new->0;
            let at = slot(rest, x.id);
            slot_finds(rest, x.id);
            if at < k {
                assert(rest[at].id != rest[k].id);
            } else if k < at {
                assert(rest[k].id != x.id);
            }
            if text_before(r.obs_time, x.obs_time) {
                assert(all == rest.update(at, x));
                assert(all[at] == x);
                before_irreflexive(r.obs_time);
            }
        }
    }
    assert(is_first_of_the_latest(rows, r, m));
}

proof fn lemma_newly_kept(rows: Seq<AwcMetar>)
    requires
        rows.len() > 0,
        report_of(rows.last()) is Some,
        distinct_ids(latest(rows.drop_last())),
        ({
            let rest = latest(rows.drop_last());
            let x = report_of(rows.last())->0;
            let at = slot(rest, x.id);
            at == rest.len() || text_before(rest[at].obs_time, x.obs_time)
        }),
        forall|i: int|
            0 <= i < rows.drop_last().len() && report_of(#[trigger] rows.drop_last()[i]) is Some
                ==> kept_for(latest(rows.drop_last()), report_of(rows.drop_last()[i])->0),
    ensures
        is_kept_rightly(rows, report_of(rows.last())->0),
{
    let prior = rows.drop_last();
    let n = rows.len() - 1;
    let rest = latest(prior);
    let r = report_of(rows.last())->0;
    let at = slot(rest, r.id);
    slot_finds(rest, r.id);
    assert(rows[n] == rows.last());
    assert forall|i: int|
        0 <= i < rows.len() && report_of(#[trigger] rows[i]) is Some && report_of(rows[i])->0.id
            == r.id && i < n implies text_before(report_of(rows[i])->0.obs_time, r.obs_time) by {
        assert(prior[i] == rows[i]);
        let x = report_of(prior[i])->0;
        assert(kept_for(rest, x));
        let h = choose|h: int|
            0 <= h < rest.len() && (#[trigger] rest[h]).id == x.id && !text_before(
                rest[h].obs_time,
                x.obs_time,
            );
        if h < at {
            assert(rest[h].id != r.id);
        }
        if at < h {
            assert(rest[at].id != rest[h].id);
        }
        assert(h == at);
        if x.obs_time != rest[at].obs_time {
            before_total(x.obs_time, rest[at].obs_time);
            before_transitive(x.obs_time, rest[at].obs_time, r.obs_time);
        }
    }
    assert(is_first_of_the_latest(rows, r, n));
}

proof fn lemma_kept_rightly(rows: Seq<AwcMetar>)
    ensures
        forall|k: int|
            0 <= k < latest(rows).len() ==> is_kept_rightly(rows, #[trigger] latest(rows)[k]),
    decreases rows.len(),
{
    if rows.len() > 0 {
        let prior = rows.drop_last();
        let rest = latest(prior);
        let all = latest(rows);
        let new = report_of(rows.last());
        lemma_kept_rightly(prior);
        latest_keeps_the_newest(prior);
        assert forall|k: int| 0 <= k < all.len() implies is_kept_rightly(
            rows,
            #[trigger] all[k],
        ) by {
            if k < rest.len() && all[k] == rest[k] {
                assert(is_kept_rightly(prior, rest[k]));
                lemma_still_kept(rows, k);
            } else {
                lemma_merged(rest, new->0);
                slot_finds(rest, new->0.id);
                assert(all[k] == new->0);
                lemma_newly_kept(rows);
            }
        }
    }
}

/// Each station that has a report in the rows has one in the reply, and only one. It is
/// the report of a row; no row of the station ahead of that one has a text of its time
/// that is as late, and none behind it has a later one.
pub proof fn first_of_the_latest_is_kept(rows: Seq<AwcMetar>)
    ensures
        forall|i: int|
            0 <= i < rows.len() && report_of(#[trigger] rows[i]) is Some ==> exists|k: int|
                0 <= k < latest(rows).len() && (#[trigger] latest(rows)[k]).id == report_of(
                    rows[i],
                )->0.id,
        forall|j: int, k: int|
            0 <= j < k < latest(rows).len() ==> (#[trigger] latest(rows)[j]).id != (
            #[trigger] latest(rows)[k]).id,
        forall|k: int|
            0 <= k < latest(rows).len() ==> is_kept_rightly(rows, #[trigger] latest(rows)[k]),
{
    latest_keeps_the_newest(rows);
    lemma_kept_rightly(rows);
    let all = latest(rows);
    assert forall|i: int| 0 <= i < rows.len() && report_of(#[trigger] rows[i]) is Some implies exists|
        k: int,
    |
        0 <= k < all.len() && (#[trigger] all[k]).id == report_of(rows[i])->0.id by {
        assert(kept_for(all, report_of(rows[i])->0));
    }
}

/// Whether `r` is the report of some row, later than those of its id ahead of it and no
/// earlier than those behind it.
pub open spec fn is_kept_rightly(rows: Seq<AwcMetar>, r: ReportView) -> bool {
    exists|m: int| #[trigger] is_first_of_the_latest(rows, r, m)
}

/// Whether `r` is the report of row `m`, later than those of its id ahead of it and no
/// earlier than those behind it.
pub open spec fn is_first_of_the_latest(rows: Seq<AwcMetar>, r: ReportView, m: int) -> bool {
    &&& 0 <= m < rows.len()
    &&& report_of(rows[m]) == Some(r)
    &&& forall|i: int|
        0 <= i < rows.len() && report_of(#[trigger] rows[i]) is Some && report_of(rows[i])->0.id
            == r.id ==> (i < m ==> text_before(report_of(rows[i])->0.obs_time, r.obs_time)) && (i
            > m ==> !text_before(r.obs_time, report_of(rows[i])->0.obs_time))
}

/// Of two rows of a station the one whose number of seconds has the larger whole part is
/// kept, given that the later of their two moments has the later text.
pub proof fn later_observation_is_kept(rows: Seq<AwcMetar>, i: int, m: int, a: Double, b: Double)
    requires
        0 <= i < rows.len(),
        0 <= m < rows.len(),
        rows[i].obs_time == Some(a),
        rows[m].obs_time == Some(b),
        a.whole() < b.whole(),
        -8_334_601_228_800 <= a.whole(),
        b.whole() <= 8_210_266_876_799,
        text_before(rfc3339_text(a.whole() as i64), rfc3339_text(b.whole() as i64)),
        report_of(rows[i]) is Some,
        report_of(rows[m]) is Some,
        report_of(rows[i])->0.id == report_of(rows[m])->0.id,
    ensures
        !latest(rows).contains(report_of(rows[i])->0),
        exists|k: int|
            0 <= k < latest(rows).len() && (#[trigger] latest(rows)[k]).id == report_of(rows[m])->0.id,
{
    report_says_what_its_row_says(rows[i]);
    report_says_what_its_row_says(rows[m]);
    first_of_the_latest_is_kept(rows);
    let x = report_of(rows[i])->0;
    let y = report_of(rows[m])->0;
    assert(text_before(x.obs_time, y.obs_time));
    if latest(rows).contains(x) {
        let k = choose|k: int| 0 <= k < latest(rows).len() && latest(rows)[k] == x;
        assert(is_kept_rightly(rows, latest(rows)[k]));
        let j = choose|j: int| #[trigger] is_first_of_the_latest(rows, latest(rows)[k], j);
        before_irreflexive(x.obs_time);
        if m < j {
            assert(text_before(y.obs_time, x.obs_time));
            before_transitive(x.obs_time, y.obs_time, x.obs_time);
        } else if m > j {
            assert(!text_before(x.obs_time, y.obs_time));
        }
    }
}

/// 1, 3, 5, 500, 1000 and 3000.
proof fn lemma_breakpoints()
    ensures
        (Double { bits: ONE_MILE }).value() == 1 * pow2(1074),
        (Double { bits: THREE_MILES }).value() == 3 * pow2(1074),
        (Double { bits: FIVE_MILES }).value() == 5 * pow2(1074),
        (Double { bits: FEET_500 }).value() == 500 * pow2(1074),
        (Double { bits: FEET_1000 }).value() == 1000 * pow2(1074),
        (Double { bits: FEET_3000 }).value() == 3000 * pow2(1074),
        (Double { bits: UNLIMITED }).value() > 3000 * pow2(1074),
        (Double { bits: ZERO }).value() == 0,
{
    lemma2_to64();
    lemma2_to64_rest();
    whole_number_pattern(Double { bits: ONE_MILE }, 1, 52);
    whole_number_pattern(Double { bits: THREE_MILES }, 3, 51);
    whole_number_pattern(Double { bits: FIVE_MILES }, 5, 50);
    whole_number_pattern(Double { bits: FEET_500 }, 500, 44);
    whole_number_pattern(Double { bits: FEET_1000 }, 1000, 43);
    whole_number_pattern(Double { bits: FEET_3000 }, 3000, 41);
    patterns_tell_the_value(Double { bits: ZERO });
    patterns_tell_the_order(Double { bits: FEET_3000 }, Double { bits: UNLIMITED });
}

/// The flight category by its breakpoints: below 500 feet or 1 mile it is `lifr`, or else
/// below 1000 feet or 3 miles `ifr`, or else up to 3000 feet or 5 miles `mvfr`, or else
/// `vfr`. What is not told, or not a number, is below nothing.
pub proof fn category_goes_by_breakpoints(vis: Option<Double>, ceiling: Option<Double>)
    ensures
        ({
            let u = pow2(1074) as int;
            let v = vis is Some && !vis->0.is_nan();
            let c = ceiling is Some && !ceiling->0.is_nan();
            let worst = c && ceiling->0.value() < 500 * u || v && vis->0.value() < 1 * u;
            let bad = c && ceiling->0.value() < 1000 * u || v && vis->0.value() < 3 * u;
            let fair = c && ceiling->0.value() <= 3000 * u || v && vis->0.value() <= 5 * u;
            flight_category(vis, ceiling) == if worst {
                "lifr"@
            } else if bad {
                "ifr"@
            } else if fair {
                "mvfr"@
            } else {
                "vfr"@
            }
        }),
{
    lemma_breakpoints();
}

/// Lower clouds or a shorter sight never make a better category.
pub proof fn worse_weather_is_no_better_category(
    vis: Double,
    ceiling: Double,
    worse_vis: Double,
    worse_ceiling: Double,
)
    requires
        worse_vis.at_most(vis),
        worse_ceiling.at_most(ceiling),
    ensures
        ({
            let before = flight_category(Some(vis), Some(ceiling));
            let after = flight_category(Some(worse_vis), Some(worse_ceiling));
            &&& before == "lifr"@ ==> after == "lifr"@
            &&& before == "ifr"@ ==> after == "ifr"@ || after == "lifr"@
            &&& before == "mvfr"@ ==> after != "vfr"@
        }),
{
    lemma_category_names();
    category_goes_by_breakpoints(Some(vis), Some(ceiling));
    category_goes_by_breakpoints(Some(worse_vis), Some(worse_ceiling));
}

proof fn lemma_category_names()
    ensures
        "vfr"@ != "mvfr"@,
        "vfr"@ != "ifr"@,
        "vfr"@ != "lifr"@,
        "mvfr"@ != "ifr"@,
        "mvfr"@ != "lifr"@,
        "ifr"@ != "lifr"@,
{
    reveal_strlit("vfr");
    reveal_strlit("mvfr");
    reveal_strlit("ifr");
    reveal_strlit("lifr");
    assert("vfr"@[0] == 'v' && "ifr"@[0] == 'i' && "mvfr"@[0] == 'm' && "lifr"@[0] == 'l');
}

/// A row that names one of the four categories, in whatever case and with white space
/// around it, has that one; any other has the one of its visibility and its ceiling.
pub proof fn named_category_goes_first(row: AwcMetar)
    ensures
        ({
            let named = lowercase(trimmed(row.flt_cat@));
            category_of(row) == if named == "vfr"@ || named == "mvfr"@ || named == "ifr"@ || named
                == "lifr"@ {
                named
            } else {
                flight_category(visibility_sm(row.visib), ceiling_of(row.vert_vis, row.clouds@))
            }
        }),
{
}

proof fn lemma_lowest_base(layers: Seq<LayerView>)
    ensures
        lowest_base(layers) is None ==> forall|i: int|
            0 <= i < layers.len() && is_ceiling((#[trigger] layers[i]).name)
                ==> layers[i].base is None,
        lowest_base(layers) matches Some(low) ==> {
            &&& exists|i: int|
                0 <= i < layers.len() && is_ceiling((#[trigger] layers[i]).name) && layers[i].base
                    == Some(low)
            &&& forall|i: int|
                0 <= i < layers.len() && is_ceiling((#[trigger] layers[i]).name)
                    && layers[i].base is Some ==> low.rank() <= layers[i].base->0.rank()
        },
    decreases layers.len(),
{
    if layers.len() > 0 {
        let prior = layers.drop_last();
        let n = layers.len() - 1;
        lemma_lowest_base(prior);
        assert(layers[n] == layers.last());
        assert forall|i: int| 0 <= i < n implies #[trigger] layers[i] == prior[i] by {
        }
        if lowest_base(prior) is Some {
            let i = choose|i: int|
                0 <= i < prior.len() && is_ceiling((#[trigger] prior[i]).name) && prior[i].base
                    == Some(lowest_base(prior)->0);
            assert(layers[i] == prior[i]);
        }
    }
}

/// A vertical visibility above zero is the ceiling. Otherwise it is the lowest base among
/// the broken, overcast and obscured layers that have one, and there is none without such
/// a layer.
pub proof fn ceiling_is_the_lowest_covering_base(vert_vis: Option<Double>, clouds: Seq<AwcCloud>)
    ensures
        ({
            let r = ceiling_of(vert_vis, clouds);
            let up = vert_vis is Some && !vert_vis->0.is_nan() && vert_vis->0.value() > 0;
            &&& up ==> r == vert_vis
            &&& !up && r is None ==> forall|i: int|
                0 <= i < clouds.len() && ({
                    let name = uppercase((#[trigger] clouds[i]).cover@);
                    name == "BKN"@ || name == "OVC"@ || name == "VV"@ || name == "OVX"@
                }) ==> clouds[i].base is None
            &&& !up && r is Some ==> exists|i: int|
                0 <= i < clouds.len() && ({
                    let name = uppercase((#[trigger] clouds[i]).cover@);
                    name == "BKN"@ || name == "OVC"@ || name == "VV"@ || name == "OVX"@
                }) && clouds[i].base == r
            &&& !up && r is Some ==> forall|i: int|
                0 <= i < clouds.len() && ({
                    let name = uppercase((#[trigger] clouds[i]).cover@);
                    name == "BKN"@ || name == "OVC"@ || name == "VV"@ || name == "OVX"@
                }) && clouds[i].base is Some ==> r->0.rank() <= clouds[i].base->0.rank()
        }),
{
    lemma_breakpoints();
    let layers = layers_of(clouds);
    lemma_lowest_base(layers);
    assert forall|i: int| 0 <= i < clouds.len() implies layers[i].name == uppercase(
        (#[trigger] clouds[i]).cover@,
    ) && layers[i].base == clouds[i].base by {
    }
    let r = lowest_base(layers);
    if r is Some {
        let i = choose|i: int|
            0 <= i < layers.len() && is_ceiling((#[trigger] layers[i]).name) && layers[i].base
                == Some(r->0);
        assert(layers[i].name == uppercase(clouds[i].cover@));
    }
    assert forall|i: int|
        0 <= i < clouds.len() && is_ceiling(uppercase((#[trigger] clouds[i]).cover@)) implies (
    r is None ==> clouds[i].base is None) && (r is Some && clouds[i].base is Some ==> r->0.rank()
        <= clouds[i].base->0.rank()) by {
        assert(is_ceiling(layers[i].name));
    }
}

/// A visibility is the number that is sent, or the number that its text reads as; or else
/// the quotient of the numbers on the two sides of a slash, unless the second is zero.
pub proof fn visibility_is_number_or_fraction(value: Visibility)
    ensures
        value matches Visibility::Number(n) ==> visibility_sm(value) == n,
        value is Other ==> visibility_sm(value) is None,
        value matches Visibility::Text(t) ==> {
            &&& t.whole is Some ==> visibility_sm(value) == t.whole
            &&& t.whole is None && t.sides is None ==> visibility_sm(value) is None
            &&& t.whole is None && t.sides is Some ==> visibility_sm(value) == (if
            t.sides->0.numerator is Some && t.sides->0.denominator is Some && !(
            t.sides->0.denominator->0.bits == 0 || t.sides->0.denominator->0.bits
                == 0x8000_0000_0000_0000) {
                Some(t.sides->0.quotient)
            } else {
                None
            })
        },
{
    if value is Text && value->Text_0.sides is Some && value->Text_0.sides->0.denominator is Some {
        let d = value->Text_0.sides->0.denominator->0;
        key_orders(d, Double { bits: 0 });
        patterns_tell_the_value(Double { bits: 0 });
    }
}

proof fn lemma_first_of(s: Seq<char>, c: char)
    ensures
        0 <= first_of(s, c) <= s.len(),
        first_of(s, c) < s.len() ==> s[first_of(s, c)] == c,
        forall|i: int| 0 <= i < first_of(s, c) ==> #[trigger] s[i] != c,
    decreases s.len(),
{
    if s.len() > 0 && s[0] != c {
        let rest = s.drop_first();
        lemma_first_of(rest, c);
        assert forall|i: int| 0 <= i < first_of(s, c) implies #[trigger] s[i] != c by {
            if i > 0 {
                assert(rest[i - 1] == s[i]);
            }
        }
    }
}

/// A text splits at its first slash, if it has one: the two sides with the slash between
/// them are the text, and the first has no slash.
pub proof fn text_splits_at_its_first_slash(s: Seq<char>)
    ensures
        split_at_slash(s) is Some <==> s.contains('/'),
        split_at_slash(s) matches Some((a, b)) ==> s == a.push('/') + b && !a.contains('/'),
{
    lemma_first_of(s, '/');
    let at = first_of(s, '/');
    if at < s.len() {
        assert(s =~= s.take(at).push('/') + s.skip(at + 1));
        assert(s.contains(s[at]));
    } else if s.contains('/') {
        let i = choose|i: int| 0 <= i < s.len() && s[i] == '/';
        assert(s[i] != '/');
    }
}

/// The text of an observation time is that of its second from the year -262143 to the year
/// 262142, and that of 1970 otherwise.
pub proof fn observation_times_out_of_range_read_as_1970(secs: i64)
    ensures
        -8_334_601_228_800 <= secs <= 8_210_266_876_799 ==> obs_text(secs) == rfc3339_text(secs),
        secs < -8_334_601_228_800 || secs > 8_210_266_876_799 ==> obs_text(secs) == rfc3339_text(0),
{
}

/// A visibility text loses the white space around it and the plus signs behind it, and
/// nothing else.
pub proof fn visibility_loses_its_plus(a: Seq<char>, t: Seq<char>, plus: Seq<char>, b: Seq<char>)
    requires
        forall|i: int| 0 <= i < a.len() ==> #[trigger] a[i] == ' ',
        forall|i: int| 0 <= i < b.len() ==> #[trigger] b[i] == ' ',
        forall|i: int| 0 <= i < plus.len() ==> #[trigger] plus[i] == '+',
        t.len() > 0,
        '/' <= t[0] <= '9',
        '/' <= t.last() <= '9',
    ensures
        bare_visibility(a + (t + plus) + b) == t,
{
    let body = t + plus;
    assert(body[0] == t[0]);
    assert(body.last() == if plus.len() > 0 {
        '+'
    } else {
        t.last()
    });
    trimming_takes_off_white_space(a, body, b);
    trailing_copies_fall_away(t, '+', plus);
}

/// A query is seen field by field, its ids as texts.
pub proof fn queries_are_seen_field_by_field(q: Query)
    ensures
        q@.lat == q.lat,
        q@.lon == q.lon,
        q@.bbox == q.bbox,
        q@.pick == q.pick,
        q@.limit == q.limit,
        q@.always_on.len() == q.always_on@.len(),
        forall|i: int|
            0 <= i < q.always_on@.len() ==> #[trigger] q@.always_on[i] == q.always_on@[i]@,
{
}

} // verus!
