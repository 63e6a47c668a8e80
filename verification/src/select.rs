//! Which stations a reply holds, and in what order.

use crate::ieee::Double;
use crate::metar::{BBox, Pick, Query, QueryView};
use crate::protocol::{report_views, MetarReport, ReportView};
use crate::table::Table;
use crate::text::{
    before, before_irreflexive, before_total, before_transitive, chars_of, same_text, text_before,
    to_upper, trim, trimmed, uppercase,
};
use vstd::prelude::*;

verus! {

/// The rank of a station without a priority, behind every other.
pub const MISSING_PRIORITY: u8 = 99;

/// A station's priority as the service sends it: a number, with its value where it is
/// an unsigned integer; a text; or neither.
#[derive(Debug)]
pub enum PriorityValue {
    Number(Option<u64>),
    Text(String),
    Other,
}

#[derive(Debug)]
pub struct AwcStation {
    pub icao_id: String,
    pub priority: PriorityValue,
}

pub open spec fn is_digit(c: char) -> bool {
    '0' <= c <= '9'
}

pub open spec fn all_digits(s: Seq<char>) -> bool {
    forall|i: int| 0 <= i < s.len() ==> is_digit(#[trigger] s[i])
}

/// The number that a row of decimal digits writes.
pub open spec fn decimal(s: Seq<char>) -> nat
    decreases s.len(),
{
    if s.len() == 0 {
        0
    } else {
        10 * decimal(s.drop_last()) + (s.last() as nat - '0' as nat) as nat
    }
}

/// The text behind a plus sign, where it starts with one.
pub open spec fn behind_plus(s: Seq<char>) -> Seq<char> {
    if s.len() > 0 && s[0] == '+' {
        s.skip(1)
    } else {
        s
    }
}

/// The small number that a text writes: digits, behind at most one plus sign.
pub open spec fn small_number(s: Seq<char>) -> Option<u8> {
    let digits = behind_plus(s);
    if digits.len() == 0 || !all_digits(digits) || decimal(digits) > 255 {
        None
    } else {
        Some(decimal(digits) as u8)
    }
}

pub open spec fn priority_of(value: PriorityValue) -> Option<u8> {
    match value {
        PriorityValue::Number(Some(n)) => if n <= 255 {
            Some(n as u8)
        } else {
            None
        },
        PriorityValue::Number(None) => None,
        PriorityValue::Text(s) => small_number(trimmed(s@)),
        PriorityValue::Other => None,
    }
}

/// A longer row of digits writes no smaller number.
proof fn lemma_decimal_grows(s: Seq<char>, n: int)
    requires
        0 <= n <= s.len(),
    ensures
        decimal(s.take(n)) <= decimal(s),
    decreases s.len() - n,
{
    if n < s.len() {
        assert(s.take(n + 1).drop_last() =~= s.take(n));
        lemma_decimal_grows(s, n + 1);
    } else {
        assert(s.take(n) =~= s);
    }
}

fn read_small_number(s: &str) -> (r: Option<u8>)
    ensures
        r == small_number(s@),
{
    let chars = chars_of(s);
    let start: usize = if chars.len() > 0 && chars[0] == '+' {
        1
    } else {
        0
    };
    let ghost digits = behind_plus(s@);
    assert(digits =~= s@.skip(start as int));
    if start == chars.len() {
        return None;
    }
    let mut n: u32 = 0;
    let mut i: usize = start;
    while i < chars.len()
        invariant
            start <= i <= chars@.len(),
            chars@ == s@,
            digits == behind_plus(s@),
            digits == s@.skip(start as int),
            start < chars@.len(),
            n == decimal(digits.take(i - start)),
            n <= 255,
            forall|j: int| 0 <= j < i - start ==> is_digit(#[trigger] digits[j]),
        decreases chars@.len() - i,
    {
        let c = chars[i];
        assert(c == digits[i - start]);
        if !('0' <= c && c <= '9') {
            return None;
        }
        let digit: u32 = c as u32 - '0' as u32;
        n = 10 * n + digit;
        assert(digits.take(i + 1 - start).drop_last() =~= digits.take(i - start));
        assert(digits.take(i + 1 - start).last() == c);
        if n > 255 {
            proof {
                lemma_decimal_grows(digits, i + 1 - start);
            }
            return None;
        }
        i = i + 1;
    }
    assert(digits.take(digits.len() as int) =~= digits);
    Some(n as u8)
}

pub fn parse_priority(value: &PriorityValue) -> (r: Option<u8>)
    ensures
        r == priority_of(*value),
{
    match value {
        PriorityValue::Number(Some(n)) => if *n <= 255 {
            Some(*n as u8)
        } else {
            None
        },
        PriorityValue::Number(None) => None,
        PriorityValue::Text(s) => read_small_number(trim(s.as_str()).as_str()),
        PriorityValue::Other => None,
    }
}

/// A station's id in upper case, and its priority where it has one.
#[derive(Debug)]
pub struct Ranking {
    pub id: String,
    pub priority: Option<u8>,
}

impl View for Ranking {
    type V = (Seq<char>, Option<u8>);

    open spec fn view(&self) -> (Seq<char>, Option<u8>) {
        (self.id@, self.priority)
    }
}

pub open spec fn ranking_views(list: Seq<Ranking>) -> Seq<(Seq<char>, Option<u8>)> {
    list.map_values(|r: Ranking| r@)
}

/// The priorities by id, where there is an id and a priority; a later one of an id
/// counts.
pub open spec fn collected(list: Seq<(Seq<char>, Option<u8>)>) -> Map<Seq<char>, u8>
    decreases list.len(),
{
    if list.len() == 0 {
        Map::empty()
    } else {
        let rest = collected(list.drop_last());
        match list.last().1 {
            Some(p) if list.last().0.len() > 0 => rest.insert(list.last().0, p),
            _ => rest,
        }
    }
}

pub open spec fn rankings_of(rows: Seq<AwcStation>) -> Seq<(Seq<char>, Option<u8>)> {
    rows.map_values(
        |row: AwcStation| (uppercase(trimmed(row.icao_id@)), priority_of(row.priority)),
    )
}

/// The priorities in the rows, by station id.
pub open spec fn priorities_of(rows: Seq<AwcStation>) -> Map<Seq<char>, u8> {
    collected(rankings_of(rows))
}

/// The priorities by id.
pub fn collect_priorities(list: &Vec<Ranking>) -> (r: Table<String, u8>)
    ensures
        r@ == collected(ranking_views(list@)),
{
    let ghost all = ranking_views(list@);
    let mut by_id: Table<String, u8> = Table::new();
    let mut i: usize = 0;
    while i < list.len()
        invariant
            all == ranking_views(list@),
            i <= list@.len(),
            by_id@ == collected(all.take(i as int)),
        decreases list@.len() - i,
    {
        let entry = &list[i];
        assert(all.take(i + 1).drop_last() =~= all.take(i as int));
        assert(all.take(i + 1).last() == entry@);
        if !entry.id.as_str().is_empty() {
            if let Some(priority) = entry.priority {
                by_id.insert(entry.id.clone(), priority);
            }
        }
        i = i + 1;
    }
    assert(all.take(all.len() as int) =~= all);
    by_id
}

/// The priorities of the stations that have an id and a priority.
pub fn parse_stations(rows: &Vec<AwcStation>) -> (r: Table<String, u8>)
    ensures
        r@ == priorities_of(rows@),
{
    let mut list: Vec<Ranking> = Vec::new();
    let mut i: usize = 0;
    while i < rows.len()
        invariant
            i <= rows@.len(),
            ranking_views(list@) == rankings_of(rows@).take(i as int),
        decreases rows@.len() - i,
    {
        let row = &rows[i];
        let ghost fewer = ranking_views(list@);
        let id = to_upper(trim(row.icao_id.as_str()).as_str());
        list.push(Ranking { id, priority: parse_priority(&row.priority) });
        assert(ranking_views(list@) =~= fewer.push(list@.last()@));
        assert(ranking_views(list@) =~= rankings_of(rows@).take(i + 1));
        i = i + 1;
    }
    assert(ranking_views(list@) =~= rankings_of(rows@));
    collect_priorities(&list)
}

/// US and Canadian stations, by the first letters of their ids: `K` (CONUS), `C`
/// (Canada), `P` (Alaska, Hawaii, Guam and other US Pacific), `TJ` and `TI` (Puerto
/// Rico and the US Virgin Islands).
pub open spec fn is_na_station(id: Seq<char>) -> bool {
    ||| id.len() >= 1 && (id[0] == 'K' || id[0] == 'C' || id[0] == 'P')
    ||| id.len() >= 2 && id[0] == 'T' && (id[1] == 'J' || id[1] == 'I')
}

pub fn awc_na_station(id: &str) -> (r: bool)
    ensures
        r == is_na_station(id@),
{
    let len: usize = id.unicode_len();
    if len == 0 {
        return false;
    }
    let first = id.get_char(0);
    if first == 'K' || first == 'C' || first == 'P' {
        return true;
    }
    if first == 'T' && len >= 2 {
        let second = id.get_char(1);
        return second == 'J' || second == 'I';
    }
    false
}

pub open spec fn inside(lat: Double, lon: Double, b: BBox) -> bool {
    &&& b.south.at_most(lat)
    &&& lat.at_most(b.north)
    &&& b.west.at_most(lon)
    &&& lon.at_most(b.east)
}

pub fn in_bbox(lat: Double, lon: Double, b: BBox) -> (r: bool)
    ensures
        r == inside(lat, lon, b),
{
    b.south.less_or_same(lat) && lat.less_or_same(b.north) && b.west.less_or_same(lon)
        && lon.less_or_same(b.east)
}

/// A report and its distance from the query's place.
#[derive(Debug)]
pub struct Ranged {
    pub report: MetarReport,
    pub km: Double,
}

pub struct RangedView {
    pub report: ReportView,
    pub km: Double,
}

impl View for Ranged {
    type V = RangedView;

    open spec fn view(&self) -> RangedView {
        RangedView { report: self.report@, km: self.km }
    }
}

pub open spec fn ranged_views(items: Seq<Ranged>) -> Seq<RangedView> {
    items.map_values(|r: Ranged| r@)
}

pub open spec fn reports_in(items: Seq<RangedView>) -> Seq<ReportView> {
    items.map_values(|r: RangedView| r.report)
}

/// A station that the reply may hold.
pub open spec fn eligible(r: ReportView, q: QueryView) -> bool {
    is_na_station(r.id) && match q.bbox {
        Some(b) => inside(r.lat, r.lon, b),
        None => true,
    }
}

/// Where the report with an id first stands, or the number of reports.
pub open spec fn place(items: Seq<RangedView>, id: Seq<char>) -> int
    decreases items.len(),
{
    if items.len() == 0 || items[0].report.id == id {
        0
    } else {
        1 + place(items.drop_first(), id)
    }
}

pub open spec fn without_id(items: Seq<RangedView>, id: Seq<char>) -> Seq<RangedView> {
    if place(items, id) < items.len() {
        items.remove(place(items, id))
    } else {
        items
    }
}

/// The eligible reports; of several with one id the last.
pub open spec fn pool(items: Seq<RangedView>, q: QueryView) -> Seq<RangedView>
    decreases items.len(),
{
    if items.len() == 0 {
        Seq::empty()
    } else {
        let rest = pool(items.drop_last(), q);
        if eligible(items.last().report, q) {
            without_id(rest, items.last().report.id).push(items.last())
        } else {
            rest
        }
    }
}

/// The pinned reports behind `chosen`, in the order of the ids and no more than the
/// limit, and what is left of the pool.
pub open spec fn pin(
    ids: Seq<Seq<char>>,
    left: Seq<RangedView>,
    chosen: Seq<RangedView>,
    limit: nat,
) -> (Seq<RangedView>, Seq<RangedView>)
    decreases ids.len(),
{
    if ids.len() == 0 {
        (left, chosen)
    } else {
        let at = place(left, ids[0]);
        if at < left.len() {
            let more = chosen.push(left[at]);
            if more.len() >= limit {
                (left.remove(at), more)
            } else {
                pin(ids.drop_first(), left.remove(at), more, limit)
            }
        } else {
            pin(ids.drop_first(), left, chosen, limit)
        }
    }
}

/// The priority that a station is ranked by.
pub open spec fn rank_of(id: Seq<char>, pick: Pick, priorities: Map<Seq<char>, u8>) -> int {
    if pick == Pick::Priority {
        if priorities.dom().contains(id) {
            priorities[id] as int
        } else {
            MISSING_PRIORITY as int
        }
    } else {
        0
    }
}

/// Whether `a` ranks before `b`: by priority where the query picks by it, by
/// distance, and by id.
pub open spec fn ranks_before(
    a: RangedView,
    b: RangedView,
    pick: Pick,
    priorities: Map<Seq<char>, u8>,
) -> bool {
    let pa = rank_of(a.report.id, pick, priorities);
    let pb = rank_of(b.report.id, pick, priorities);
    ||| pa < pb
    ||| pa == pb && a.km.rank() < b.km.rank()
    ||| pa == pb && a.km.rank() == b.km.rank() && text_before(a.report.id, b.report.id)
}

/// Where `x` goes in a ranked list: before the first item that it ranks before.
pub open spec fn rank_place(
    items: Seq<RangedView>,
    x: RangedView,
    pick: Pick,
    priorities: Map<Seq<char>, u8>,
) -> int
    decreases items.len(),
{
    if items.len() == 0 || ranks_before(x, items[0], pick, priorities) {
        0
    } else {
        1 + rank_place(items.drop_first(), x, pick, priorities)
    }
}

/// The items in the order of their ranks.
pub open spec fn ranked(
    items: Seq<RangedView>,
    pick: Pick,
    priorities: Map<Seq<char>, u8>,
) -> Seq<RangedView>
    decreases items.len(),
{
    if items.len() == 0 {
        Seq::empty()
    } else {
        let rest = ranked(items.drop_first(), pick, priorities);
        rest.insert(rank_place(rest, items[0], pick, priorities), items[0])
    }
}

/// How many ranked stations follow so many pinned ones: as many as the limit leaves
/// room for, and at least one.
pub open spec fn room(pins: nat, limit: nat, left: nat) -> nat {
    let wanted = if limit > pins {
        (limit - pins) as nat
    } else {
        1
    };
    if left < wanted {
        left
    } else {
        wanted
    }
}

/// The stations of a reply: the pinned ones first, then the others by rank.
pub open spec fn selection(
    items: Seq<RangedView>,
    q: QueryView,
    priorities: Map<Seq<char>, u8>,
) -> Seq<RangedView> {
    let (left, pins) = pin(q.always_on, pool(items, q), Seq::empty(), q.limit as nat);
    if pins.len() > 0 && pins.len() >= q.limit {
        pins
    } else {
        pins + ranked(left, q.pick, priorities).take(
            room(pins.len(), q.limit as nat, left.len()) as int,
        )
    }
}

fn find_place(items: &Vec<Ranged>, id: &str) -> (r: usize)
    ensures
        r == place(ranged_views(items@), id@),
        r <= items@.len(),
{
    let ghost all = ranged_views(items@);
    let mut i: usize = 0;
    assert(all.skip(0) =~= all);
    while i < items.len() && !same_text(items[i].report.id.as_str(), id)
        invariant
            all == ranged_views(items@),
            i <= items@.len(),
            place(all, id@) == i + place(all.skip(i as int), id@),
        decreases items@.len() - i,
    {
        assert(all.skip(i as int)[0] == items@[i as int]@);
        assert(all.skip(i as int).drop_first() =~= all.skip(i + 1));
        i = i + 1;
    }
    proof {
        if i < items@.len() {
            assert(all.skip(i as int)[0] == items@[i as int]@);
        }
    }
    i
}

fn is_eligible(r: &MetarReport, q: &Query) -> (b: bool)
    ensures
        b == eligible(r@, q@),
{
    awc_na_station(r.id.as_str()) && match q.bbox {
        Some(b) => in_bbox(r.lat, r.lon, b),
        None => true,
    }
}

fn gather(items: &Vec<Ranged>, q: &Query) -> (r: Vec<Ranged>)
    ensures
        ranged_views(r@) == pool(ranged_views(items@), q@),
{
    let ghost all = ranged_views(items@);
    let mut kept: Vec<Ranged> = Vec::new();
    let mut i: usize = 0;
    assert(ranged_views(kept@) =~= Seq::empty());
    while i < items.len()
        invariant
            all == ranged_views(items@),
            i <= items@.len(),
            ranged_views(kept@) == pool(all.take(i as int), q@),
        decreases items@.len() - i,
    {
        let item = &items[i];
        let ghost prior = ranged_views(kept@);
        assert(all.take(i + 1).drop_last() =~= all.take(i as int));
        assert(all.take(i + 1).last() == item@);
        if is_eligible(&item.report, q) {
            let at: usize = find_place(&kept, item.report.id.as_str());
            if at < kept.len() {
                kept.remove(at);
            }
            assert(ranged_views(kept@) =~= without_id(prior, item.report.id@));
            let ghost fewer = ranged_views(kept@);
            kept.push(Ranged { report: item.report.clone(), km: item.km });
            assert(ranged_views(kept@) =~= fewer.push(item@));
        }
        i = i + 1;
    }
    assert(all.take(all.len() as int) =~= all);
    kept
}

fn precedes(a: &Ranged, b: &Ranged, pick: Pick, priorities: &Table<String, u8>) -> (r: bool)
    ensures
        r == ranks_before(a@, b@, pick, priorities@),
{
    let (pa, pb): (u8, u8) = if pick == Pick::Priority {
        (
            priority_or_missing(&a.report.id, priorities),
            priority_or_missing(&b.report.id, priorities),
        )
    } else {
        (0, 0)
    };
    if pa != pb {
        return pa < pb;
    }
    let (ka, kb): (i64, i64) = (a.km.total_rank(), b.km.total_rank());
    if ka != kb {
        return ka < kb;
    }
    before(a.report.id.as_str(), b.report.id.as_str())
}

fn priority_or_missing(id: &String, priorities: &Table<String, u8>) -> (r: u8)
    ensures
        r == rank_of(id@, Pick::Priority, priorities@),
{
    match priorities.get(id) {
        Some(p) => *p,
        None => MISSING_PRIORITY,
    }
}

fn find_rank_place(
    items: &Vec<Ranged>,
    x: &Ranged,
    pick: Pick,
    priorities: &Table<String, u8>,
) -> (r: usize)
    ensures
        r == rank_place(ranged_views(items@), x@, pick, priorities@),
        r <= items@.len(),
{
    let ghost all = ranged_views(items@);
    let mut i: usize = 0;
    assert(all.skip(0) =~= all);
    while i < items.len() && !precedes(x, &items[i], pick, priorities)
        invariant
            all == ranged_views(items@),
            i <= items@.len(),
            rank_place(all, x@, pick, priorities@) == i + rank_place(
                all.skip(i as int),
                x@,
                pick,
                priorities@,
            ),
        decreases items@.len() - i,
    {
        assert(all.skip(i as int)[0] == items@[i as int]@);
        assert(all.skip(i as int).drop_first() =~= all.skip(i + 1));
        i = i + 1;
    }
    proof {
        if i < items@.len() {
            assert(all.skip(i as int)[0] == items@[i as int]@);
        }
    }
    i
}

fn rank(items: Vec<Ranged>, pick: Pick, priorities: &Table<String, u8>) -> (r: Vec<Ranged>)
    ensures
        ranged_views(r@) == ranked(ranged_views(items@), pick, priorities@),
{
    let ghost all = ranged_views(items@);
    let mut left = items;
    let mut r: Vec<Ranged> = Vec::new();
    assert(ranged_views(r@) =~= Seq::empty());
    assert(all.skip(all.len() as int) =~= Seq::empty());
    while left.len() > 0
        invariant
            left@.len() <= all.len(),
            ranged_views(left@) == all.take(left@.len() as int),
            ranged_views(r@) == ranked(all.skip(left@.len() as int), pick, priorities@),
        decreases left@.len(),
    {
        let ghost n = left@.len() as int;
        let ghost rest = ranged_views(r@);
        if let Some(x) = left.pop() {
            assert(x@ == all.take(n)[n - 1]);
            assert(all.skip(n - 1).drop_first() =~= all.skip(n));
            let at: usize = find_rank_place(&r, &x, pick, priorities);
            let ghost xv = x@;
            r.insert(at, x);
            assert(ranged_views(r@) =~= rest.insert(at as int, xv));
            assert(ranged_views(left@) =~= all.take(n - 1));
        }
    }
    assert(all.skip(0) =~= all);
    r
}

/// The stations of a reply: first the pinned ones that report, in the order of the
/// query, then the others by rank, up to the limit of the query. Only stations of the
/// US and Canada count, and where there is a view box, only those inside it.
pub fn select(items: &Vec<Ranged>, q: &Query, priorities: &Table<String, u8>) -> (r: Vec<
    MetarReport,
>)
    ensures
        report_views(r@) == reports_in(selection(ranged_views(items@), q@, priorities@)),
        r@.len() == selection(ranged_views(items@), q@, priorities@).len(),
        forall|k: int|
            0 <= k < r@.len() ==> (#[trigger] r@[k])@ == selection(
                ranged_views(items@),
                q@,
                priorities@,
            )[k].report,
{
    let mut left = gather(items, q);
    let mut chosen: Vec<MetarReport> = Vec::new();
    let ghost start = ranged_views(left@);
    let ghost ids = q@.always_on;
    let ghost mut pins: Seq<RangedView> = Seq::empty();
    let mut i: usize = 0;
    assert(report_views(chosen@) =~= reports_in(pins));
    assert(ids.skip(0) =~= ids);
    while i < q.always_on.len()
        invariant
            ids == q@.always_on,
            i <= ids.len(),
            report_views(chosen@) == reports_in(pins),
            chosen@.len() == pins.len(),
            start == pool(ranged_views(items@), q@),
            pins.len() == 0 || pins.len() < q.limit,
            pin(ids, start, Seq::empty(), q.limit as nat) == pin(
                ids.skip(i as int),
                ranged_views(left@),
                pins,
                q.limit as nat,
            ),
        decreases ids.len() - i,
    {
        let ghost rest = ids.skip(i as int);
        let ghost before_take = ranged_views(left@);
        assert(rest[0] == q.always_on@[i as int]@);
        assert(rest.drop_first() =~= ids.skip(i + 1));
        let at: usize = find_place(&left, q.always_on[i].as_str());
        if at < left.len() {
            let item = left.remove(at);
            assert(ranged_views(left@) =~= before_take.remove(at as int));
            let ghost fewer = report_views(chosen@);
            chosen.push(item.report);
            proof {
                pins = pins.push(before_take[at as int]);
                assert(report_views(chosen@) =~= fewer.push(item.report@));
                assert(report_views(chosen@) =~= reports_in(pins));
            }
            if chosen.len() >= q.limit {
                proof {
                    lemma_each_report(chosen@, pins);
                }
                return chosen;
            }
        }
        i = i + 1;
    }
    let ghost rest = ranged_views(left@);
    let rest_ranked = rank(left, q.pick, priorities);
    let ghost order = ranged_views(rest_ranked@);
    let mut k: usize = 0;
    assert(pins + order.take(0) =~= pins);
    proof {
        lemma_ranked_len(rest, q.pick, priorities@);
    }
    let ghost most = room(pins.len(), q.limit as nat, rest.len());
    while k < rest_ranked.len() && (k == 0 || chosen.len() < q.limit)
        invariant
            order == ranged_views(rest_ranked@),
            order.len() == rest.len(),
            k <= most <= order.len(),
            most == room(pins.len(), q.limit as nat, rest.len()),
            pins.len() == 0 || pins.len() < q.limit,
            chosen@.len() == pins.len() + k,
            report_views(chosen@) == reports_in(pins + order.take(k as int)),
        decreases rest_ranked@.len() - k,
    {
        let ghost fewer = report_views(chosen@);
        chosen.push(rest_ranked[k].report.clone());
        assert(report_views(chosen@) =~= fewer.push(order[k as int].report));
        assert(report_views(chosen@) =~= reports_in(pins + order.take(k + 1)));
        k = k + 1;
    }
    proof {
        lemma_each_report(chosen@, pins + order.take(k as int));
    }
    chosen
}

proof fn lemma_each_report(reports: Seq<MetarReport>, items: Seq<RangedView>)
    requires
        report_views(reports) == reports_in(items),
    ensures
        reports.len() == items.len(),
        forall|k: int| 0 <= k < reports.len() ==> (#[trigger] reports[k])@ == items[k].report,
{
    assert(report_views(reports).len() == reports.len());
    assert(reports_in(items).len() == items.len());
    assert forall|k: int| 0 <= k < reports.len() implies (#[trigger] reports[k])@
        == items[k].report by {
        assert(report_views(reports)[k] == reports[k]@);
        assert(reports_in(items)[k] == items[k].report);
    }
}

proof fn lemma_ranked_len(
    items: Seq<RangedView>,
    pick: Pick,
    priorities: Map<Seq<char>, u8>,
)
    ensures
        ranked(items, pick, priorities).len() == items.len(),
    decreases items.len(),
{
    if items.len() > 0 {
        let rest = ranked(items.drop_first(), pick, priorities);
        lemma_ranked_len(items.drop_first(), pick, priorities);
        lemma_rank_place(rest, items[0], pick, priorities);
    }
}

/// Everything before the place of `x` is not ranked behind it, and what stands there is.
proof fn lemma_rank_place(
    items: Seq<RangedView>,
    x: RangedView,
    pick: Pick,
    priorities: Map<Seq<char>, u8>,
)
    ensures
        0 <= rank_place(items, x, pick, priorities) <= items.len(),
        forall|i: int|
            0 <= i < rank_place(items, x, pick, priorities) ==> !ranks_before(
                x,
                #[trigger] items[i],
                pick,
                priorities,
            ),
        rank_place(items, x, pick, priorities) < items.len() ==> ranks_before(
            x,
            items[rank_place(items, x, pick, priorities)],
            pick,
            priorities,
        ),
    decreases items.len(),
{
    if items.len() > 0 && !ranks_before(x, items[0], pick, priorities) {
        let rest = items.drop_first();
        lemma_rank_place(rest, x, pick, priorities);
        assert forall|i: int|
            0 <= i < rank_place(items, x, pick, priorities) implies !ranks_before(
            x,
            #[trigger] items[i],
            pick,
            priorities,
        ) by {
            if i > 0 {
                assert(rest[i - 1] == items[i]);
            }
        }
    }
}

/// No two items have one id.
pub open spec fn one_each(items: Seq<RangedView>) -> bool {
    forall|i: int, j: int|
        0 <= i < j < items.len() ==> #[trigger] items[i].report.id != #[trigger] items[j].report.id
}

/// Each item ranks before those behind it.
pub open spec fn ascending(
    items: Seq<RangedView>,
    pick: Pick,
    priorities: Map<Seq<char>, u8>,
) -> bool {
    forall|i: int, j: int|
        0 <= i < j < items.len() ==> ranks_before(
            #[trigger] items[i],
            #[trigger] items[j],
            pick,
            priorities,
        )
}

pub open spec fn same_members(a: Seq<RangedView>, b: Seq<RangedView>) -> bool {
    forall|x: RangedView| #[trigger] a.contains(x) <==> b.contains(x)
}

/// Nothing ranks before itself.
pub proof fn rank_irreflexive(a: RangedView, pick: Pick, priorities: Map<Seq<char>, u8>)
    ensures
        !ranks_before(a, a, pick, priorities),
{
    before_irreflexive(a.report.id);
}

pub proof fn rank_transitive(
    a: RangedView,
    b: RangedView,
    c: RangedView,
    pick: Pick,
    priorities: Map<Seq<char>, u8>,
)
    requires
        ranks_before(a, b, pick, priorities),
        ranks_before(b, c, pick, priorities),
    ensures
        ranks_before(a, c, pick, priorities),
{
    if text_before(a.report.id, b.report.id) && text_before(b.report.id, c.report.id) {
        before_transitive(a.report.id, b.report.id, c.report.id);
    }
}

/// Of two stations one ranks before the other.
pub proof fn rank_total(
    a: RangedView,
    b: RangedView,
    pick: Pick,
    priorities: Map<Seq<char>, u8>,
)
    requires
        a.report.id != b.report.id,
    ensures
        ranks_before(a, b, pick, priorities) || ranks_before(b, a, pick, priorities),
{
    before_total(a.report.id, b.report.id);
}

proof fn lemma_place(items: Seq<RangedView>, id: Seq<char>)
    ensures
        0 <= place(items, id) <= items.len(),
        place(items, id) < items.len() ==> items[place(items, id)].report.id == id,
        forall|i: int| 0 <= i < place(items, id) ==> (#[trigger] items[i]).report.id != id,
    decreases items.len(),
{
    if items.len() > 0 && items[0].report.id != id {
        let rest = items.drop_first();
        lemma_place(rest, id);
        assert forall|i: int| 0 <= i < place(items, id) implies (#[trigger] items[i]).report.id
            != id by {
            if i > 0 {
                assert(rest[i - 1] == items[i]);
            }
        }
    }
}

/// Taking out an id leaves the items of the other ids.
proof fn lemma_without(items: Seq<RangedView>, id: Seq<char>)
    requires
        one_each(items),
    ensures
        one_each(without_id(items, id)),
        forall|x: RangedView| #[trigger]
            without_id(items, id).contains(x) <==> items.contains(x) && x.report.id != id,
{
    let at = place(items, id);
    let rest = without_id(items, id);
    lemma_place(items, id);
    assert forall|x: RangedView| #[trigger] rest.contains(x) implies items.contains(x)
        && x.report.id != id by {
        let k = choose|k: int| 0 <= k < rest.len() && rest[k] == x;
        if at < items.len() {
            if k < at {
                assert(items[k] == x);
            } else {
                assert(items[k + 1] == x);
                assert(items[at].report.id != items[k + 1].report.id);
            }
        }
    }
    assert forall|x: RangedView| items.contains(x) && x.report.id != id implies #[trigger]
        rest.contains(x) by {
        let k = choose|k: int| 0 <= k < items.len() && items[k] == x;
        if at < items.len() {
            if k < at {
                assert(rest[k] == x);
            } else {
                assert(rest[k - 1] == x);
            }
        }
    }
}

/// Whether an item is the last eligible one of its id.
pub open spec fn stands(items: Seq<RangedView>, q: QueryView, x: RangedView) -> bool {
    exists|i: int|
        0 <= i < items.len() && #[trigger] items[i] == x && eligible(x.report, q) && forall|j: int|
            i < j < items.len() && eligible((#[trigger] items[j]).report, q) ==> items[j].report.id
                != x.report.id
}

/// The pool holds, once for each id, the last eligible report of the id.
pub proof fn pool_holds_the_last(items: Seq<RangedView>, q: QueryView)
    ensures
        one_each(pool(items, q)),
        forall|x: RangedView| #[trigger] pool(items, q).contains(x) <==> stands(items, q, x),
    decreases items.len(),
{
    if items.len() > 0 {
        let prior = items.drop_last();
        let last = items.last();
        let rest = pool(prior, q);
        let all = pool(items, q);
        pool_holds_the_last(prior, q);
        let n = items.len() - 1;
        assert forall|x: RangedView| stands(items, q, x) implies #[trigger] all.contains(x) by {
            let i = choose|i: int|
                0 <= i < items.len() && #[trigger] items[i] == x && eligible(x.report, q)
                    && forall|j: int|
                    i < j < items.len() && eligible((#[trigger] items[j]).report, q)
                        ==> items[j].report.id != x.report.id;
            if eligible(last.report, q) {
                lemma_without(rest, last.report.id);
                let fewer = without_id(rest, last.report.id);
                if i < n {
                    assert(prior[i] == x);
                    assert(items[n] == last);
                    assert(stands(prior, q, x)) by {
                        assert forall|j: int|
                            i < j < prior.len() && eligible((#[trigger] prior[j]).report, q) implies prior[j].report.id
                            != x.report.id by {
                            assert(items[j] == prior[j]);
                        }
                    }
                    assert(fewer.contains(x));
                    let k = choose|k: int| 0 <= k < fewer.len() && fewer[k] == x;
                    assert(all[k] == x);
                } else {
                    assert(all[all.len() - 1] == x);
                }
            } else {
                assert(i < n);
                assert(prior[i] == x);
                assert forall|j: int|
                    i < j < prior.len() && eligible((#[trigger] prior[j]).report, q) implies prior[j].report.id
                    != x.report.id by {
                    assert(items[j] == prior[j]);
                }
                assert(stands(prior, q, x));
            }
        }
        assert forall|x: RangedView| #[trigger] all.contains(x) implies stands(items, q, x) by {
            if eligible(last.report, q) {
                lemma_without(rest, last.report.id);
                let fewer = without_id(rest, last.report.id);
                let k = choose|k: int| 0 <= k < all.len() && all[k] == x;
                if k < fewer.len() {
                    assert(fewer[k] == x);
                    assert(fewer.contains(x));
                    lemma_stands_longer(items, q, x);
                } else {
                    assert(items[n] == x);
                }
            } else {
                lemma_stands_longer(items, q, x);
            }
        }
        if eligible(last.report, q) {
            lemma_without(rest, last.report.id);
            let fewer = without_id(rest, last.report.id);
            assert forall|i: int, j: int| 0 <= i < j < all.len() implies #[trigger] all[i].report.id
                != #[trigger] all[j].report.id by {
                if j == all.len() - 1 {
                    assert(fewer.contains(fewer[i]));
                }
            }
        }
    }
}

proof fn lemma_stands_longer(items: Seq<RangedView>, q: QueryView, x: RangedView)
    requires
        items.len() > 0,
        stands(items.drop_last(), q, x),
        eligible(items.last().report, q) ==> items.last().report.id != x.report.id,
    ensures
        stands(items, q, x),
{
    let prior = items.drop_last();
    let i = choose|i: int|
        0 <= i < prior.len() && #[trigger] prior[i] == x && eligible(x.report, q) && forall|j: int|
            i < j < prior.len() && eligible((#[trigger] prior[j]).report, q) ==> prior[j].report.id
                != x.report.id;
    assert(items[i] == x);
    assert forall|j: int|
        i < j < items.len() && eligible((#[trigger] items[j]).report, q) implies items[j].report.id
        != x.report.id by {
        if j < prior.len() {
            assert(prior[j] == items[j]);
        }
    }
}

/// Ranking keeps the items and puts each before those that it ranks before.
pub proof fn ranked_ascends(
    items: Seq<RangedView>,
    pick: Pick,
    priorities: Map<Seq<char>, u8>,
)
    requires
        one_each(items),
    ensures
        ascending(ranked(items, pick, priorities), pick, priorities),
        same_members(ranked(items, pick, priorities), items),
        ranked(items, pick, priorities).len() == items.len(),
    decreases items.len(),
{
    if items.len() > 0 {
        let tail = items.drop_first();
        let x = items[0];
        let rest = ranked(tail, pick, priorities);
        let all = ranked(items, pick, priorities);
        let at = rank_place(rest, x, pick, priorities);
        ranked_ascends(tail, pick, priorities);
        lemma_rank_place(rest, x, pick, priorities);
        assert forall|k: int| 0 <= k < rest.len() implies (#[trigger] rest[k]).report.id
            != x.report.id by {
            assert(rest.contains(rest[k]));
            assert(tail.contains(rest[k]));
            let m = choose|m: int| 0 <= m < tail.len() && tail[m] == rest[k];
            assert(items[m + 1] == rest[k]);
            assert(items[0].report.id != items[m + 1].report.id);
        }
        assert forall|i: int, j: int| 0 <= i < j < all.len() implies ranks_before(
            #[trigger] all[i],
            #[trigger] all[j],
            pick,
            priorities,
        ) by {
            if j == at {
                rank_total(x, rest[i], pick, priorities);
            } else if i == at {
                if j - 1 > at {
                    rank_transitive(x, rest[at], rest[j - 1], pick, priorities);
                }
            } else {
                let a = if i < at { i } else { i - 1 };
                let b = if j < at { j } else { j - 1 };
                assert(all[i] == rest[a] && all[j] == rest[b]);
            }
        }
        assert forall|y: RangedView| #[trigger] all.contains(y) <==> items.contains(y) by {
            if all.contains(y) {
                let k = choose|k: int| 0 <= k < all.len() && all[k] == y;
                if k == at {
                    assert(items[0] == y);
                } else {
                    let a = if k < at { k } else { k - 1 };
                    assert(rest[a] == y);
                    assert(rest.contains(y));
                    let m = choose|m: int| 0 <= m < tail.len() && tail[m] == y;
                    assert(items[m + 1] == y);
                }
            }
            if items.contains(y) {
                let m = choose|m: int| 0 <= m < items.len() && items[m] == y;
                if m == 0 {
                    assert(all[at] == y);
                } else {
                    assert(tail[m - 1] == y);
                    assert(tail.contains(y));
                    assert(rest.contains(y));
                    let a = choose|a: int| 0 <= a < rest.len() && rest[a] == y;
                    if a < at {
                        assert(all[a] == y);
                    } else {
                        assert(all[a + 1] == y);
                    }
                }
            }
        }
    }
}

/// There is one way to rank given items.
pub proof fn ascending_is_unique(
    a: Seq<RangedView>,
    b: Seq<RangedView>,
    pick: Pick,
    priorities: Map<Seq<char>, u8>,
)
    requires
        ascending(a, pick, priorities),
        ascending(b, pick, priorities),
        same_members(a, b),
    ensures
        a == b,
    decreases a.len(),
{
    if a.len() == 0 {
        if b.len() > 0 {
            assert(b.contains(b[0]));
            assert(a.contains(b[0]));
        }
        assert(a =~= b);
    } else {
        assert(a.contains(a[0]));
        let k = choose|k: int| 0 <= k < b.len() && b[k] == a[0];
        assert(b.contains(b[0]));
        assert(a.contains(b[0]));
        let m = choose|m: int| 0 <= m < a.len() && a[m] == b[0];
        rank_irreflexive(a[0], pick, priorities);
        if k > 0 && m > 0 {
            rank_transitive(a[0], b[0], a[0], pick, priorities);
        }
        let x = a.drop_first();
        let y = b.drop_first();
        lemma_tail_members(a, pick, priorities);
        lemma_tail_members(b, pick, priorities);
        assert(same_members(x, y)) by {
            assert forall|z: RangedView| #[trigger] x.contains(z) <==> y.contains(z) by {
                assert(a.contains(z) <==> b.contains(z));
            }
        }
        assert forall|i: int, j: int| 0 <= i < j < x.len() implies ranks_before(
            #[trigger] x[i],
            #[trigger] x[j],
            pick,
            priorities,
        ) by {
            assert(x[i] == a[i + 1] && x[j] == a[j + 1]);
        }
        assert forall|i: int, j: int| 0 <= i < j < y.len() implies ranks_before(
            #[trigger] y[i],
            #[trigger] y[j],
            pick,
            priorities,
        ) by {
            assert(y[i] == b[i + 1] && y[j] == b[j + 1]);
        }
        ascending_is_unique(x, y, pick, priorities);
        assert(a =~= seq![a[0]] + x);
        assert(b =~= seq![b[0]] + y);
    }
}

proof fn lemma_tail_members(
    a: Seq<RangedView>,
    pick: Pick,
    priorities: Map<Seq<char>, u8>,
)
    requires
        a.len() > 0,
        ascending(a, pick, priorities),
    ensures
        forall|z: RangedView| #[trigger]
            a.drop_first().contains(z) <==> a.contains(z) && z != a[0],
{
    let x = a.drop_first();
    assert forall|z: RangedView| #[trigger] x.contains(z) <==> a.contains(z) && z != a[0] by {
        if x.contains(z) {
            let i = choose|i: int| 0 <= i < x.len() && x[i] == z;
            assert(a[i + 1] == z);
            assert(ranks_before(a[0], a[i + 1], pick, priorities));
            rank_irreflexive(a[0], pick, priorities);
        }
        if a.contains(z) && z != a[0] {
            let i = choose|i: int| 0 <= i < a.len() && a[i] == z;
            assert(x[i - 1] == z);
        }
    }
}

/// The most stations of a reply: the limit, and at least one.
pub open spec fn most(limit: nat) -> nat {
    if limit == 0 {
        1
    } else {
        limit
    }
}

proof fn lemma_pin_step(left: Seq<RangedView>, chosen: Seq<RangedView>, at: int)
    requires
        one_each(chosen + left),
        0 <= at < left.len(),
    ensures
        one_each(left),
        one_each(chosen.push(left[at]) + left.remove(at)),
        same_members(chosen.push(left[at]) + left.remove(at), chosen + left),
{
    let all = chosen + left;
    let moved = chosen.push(left[at]) + left.remove(at);
    let n = chosen.len() as int;
    assert forall|i: int, j: int| 0 <= i < j < left.len() implies #[trigger] left[i].report.id
        != #[trigger] left[j].report.id by {
        assert(all[n + i] == left[i] && all[n + j] == left[j]);
    }
    assert forall|k: int| 0 <= k < moved.len() implies #[trigger] moved[k] == all[source(k, n, at)] by {
    }
    assert forall|i: int, j: int| 0 <= i < j < moved.len() implies #[trigger] moved[i].report.id
        != #[trigger] moved[j].report.id by {
        let a = source(i, n, at);
        let b = source(j, n, at);
        assert(moved[i] == all[a] && moved[j] == all[b]);
        if a < b {
            assert(all[a].report.id != all[b].report.id);
        } else {
            assert(all[b].report.id != all[a].report.id);
        }
    }
    assert forall|x: RangedView| #[trigger] moved.contains(x) <==> all.contains(x) by {
        if moved.contains(x) {
            let k = choose|k: int| 0 <= k < moved.len() && moved[k] == x;
            assert(all[source(k, n, at)] == x);
        }
        if all.contains(x) {
            let k = choose|k: int| 0 <= k < all.len() && all[k] == x;
            let m = if k < n {
                k
            } else if k == n + at {
                n
            } else if k < n + at {
                k + 1
            } else {
                k
            };
            assert(source(m, n, at) == k);
            assert(moved[m] == x);
        }
    }
}

/// Where the item at `k` stood before the one at `at` behind the first `n` moved up.
spec fn source(k: int, n: int, at: int) -> int {
    if k < n {
        k
    } else if k == n {
        n + at
    } else if k <= n + at {
        k - 1
    } else {
        k
    }
}

/// Pinning moves items from the pool to the chosen ones; unless the limit is reached,
/// it moves all that have one of the ids.
proof fn lemma_pin(
    ids: Seq<Seq<char>>,
    left: Seq<RangedView>,
    chosen: Seq<RangedView>,
    limit: nat,
)
    requires
        one_each(chosen + left),
    ensures
        ({
            let (l, c) = pin(ids, left, chosen, limit);
            &&& one_each(c + l)
            &&& same_members(c + l, chosen + left)
            &&& c.len() + l.len() == chosen.len() + left.len()
            &&& c.len() >= chosen.len()
            &&& chosen.len() < most(limit) ==> c.len() <= most(limit)
            &&& c.len() <= chosen.len() + ids.len()
            &&& forall|x: RangedView| #[trigger] l.contains(x) ==> left.contains(x)
            &&& c.len() < limit ==> forall|j: int, k: int|
                0 <= j < ids.len() && 0 <= k < l.len() ==> #[trigger] ids[j] != (
                #[trigger] l[k]).report.id
        }),
    decreases ids.len(),
{
    if ids.len() > 0 {
        let at = place(left, ids[0]);
        let tail = ids.drop_first();
        lemma_place(left, ids[0]);
        let (l, c) = pin(ids, left, chosen, limit);
        if at < left.len() {
            let more = chosen.push(left[at]);
            let fewer = left.remove(at);
            lemma_pin_step(left, chosen, at);
            assert(fewer == without_id(left, ids[0]));
            lemma_without(left, ids[0]);
            if more.len() < limit {
                lemma_pin(tail, fewer, more, limit);
                assert(same_members(c + l, chosen + left)) by {
                    assert forall|x: RangedView| #[trigger] (c + l).contains(x) <==> (chosen
                        + left).contains(x) by {
                        assert((more + fewer).contains(x) <==> (chosen + left).contains(x));
                    }
                }
                if c.len() < limit {
                    assert forall|j: int, k: int|
                        0 <= j < ids.len() && 0 <= k < l.len() implies #[trigger] ids[j] != (
                    #[trigger] l[k]).report.id by {
                        assert(l.contains(l[k]));
                        assert(fewer.contains(l[k]));
                        if j > 0 {
                            assert(tail[j - 1] == ids[j]);
                        }
                    }
                }
            }
        } else {
            lemma_pin(tail, left, chosen, limit);
            if c.len() < limit {
                assert forall|j: int, k: int|
                    0 <= j < ids.len() && 0 <= k < l.len() implies #[trigger] ids[j] != (
                #[trigger] l[k]).report.id by {
                    assert(l.contains(l[k]));
                    assert(left.contains(l[k]));
                    if j > 0 {
                        assert(tail[j - 1] == ids[j]);
                    }
                }
            }
        }
    }
}

/// How many of the stations of a reply are pinned ones.
pub open spec fn pin_count(items: Seq<RangedView>, q: QueryView) -> nat {
    pin(q.always_on, pool(items, q), Seq::empty(), q.limit as nat).1.len()
}

proof fn lemma_pins(items: Seq<RangedView>, q: QueryView) -> (r: (
    Seq<RangedView>,
    Seq<RangedView>,
))
    ensures
        r == pin(q.always_on, pool(items, q), Seq::empty(), q.limit as nat),
        one_each(r.1 + r.0),
        one_each(r.0),
        same_members(r.1 + r.0, pool(items, q)),
        r.1.len() + r.0.len() == pool(items, q).len(),
        r.1.len() <= most(q.limit as nat),
        r.1.len() <= q.always_on.len(),
        r.1.len() < q.limit ==> forall|j: int, k: int|
            0 <= j < q.always_on.len() && 0 <= k < r.0.len() ==> #[trigger] q.always_on[j] != (
            #[trigger] r.0[k]).report.id,
{
    let all = pool(items, q);
    let none = Seq::<RangedView>::empty();
    pool_holds_the_last(items, q);
    assert(none + all =~= all);
    lemma_pin(q.always_on, all, none, q.limit as nat);
    let (l, c) = pin(q.always_on, all, none, q.limit as nat);
    assert forall|i: int, j: int| 0 <= i < j < l.len() implies #[trigger] l[i].report.id
        != #[trigger] l[j].report.id by {
        let both = c + l;
        assert(both[c.len() + i] == l[i] && both[c.len() + j] == l[j]);
    }
    (l, c)
}

/// The parts of a selection: the pinned items, and the first of the others by rank.
proof fn lemma_parts(
    items: Seq<RangedView>,
    q: QueryView,
    priorities: Map<Seq<char>, u8>,
) -> (r: (Seq<RangedView>, Seq<RangedView>, int))
    ensures
        r.0 == pin(q.always_on, pool(items, q), Seq::empty(), q.limit as nat).1,
        r.1 == ranked(
            pin(q.always_on, pool(items, q), Seq::empty(), q.limit as nat).0,
            q.pick,
            priorities,
        ),
        0 <= r.2 <= r.1.len(),
        r.0.len() + r.1.len() == pool(items, q).len(),
        r.0.len() + r.2 == if pool(items, q).len() < most(q.limit as nat) {
            pool(items, q).len()
        } else {
            most(q.limit as nat)
        },
        selection(items, q, priorities) == r.0 + r.1.take(r.2),
{
    let (l, c) = lemma_pins(items, q);
    let order = ranked(l, q.pick, priorities);
    lemma_ranked_len(l, q.pick, priorities);
    if c.len() > 0 && c.len() >= q.limit {
        assert(c + order.take(0) =~= c);
        (c, order, 0)
    } else {
        (c, order, room(c.len(), q.limit as nat, l.len()) as int)
    }
}

/// A reply is as long as the limit and the pool allow, names no station twice, and
/// takes its reports from the pool.
pub proof fn selection_fills_up(
    items: Seq<RangedView>,
    q: QueryView,
    priorities: Map<Seq<char>, u8>,
)
    ensures
        selection(items, q, priorities).len() == if pool(items, q).len() < most(q.limit as nat) {
            pool(items, q).len()
        } else {
            most(q.limit as nat)
        },
        one_each(selection(items, q, priorities)),
        forall|x: RangedView| #[trigger]
            selection(items, q, priorities).contains(x) ==> pool(items, q).contains(x),
{
    let all = pool(items, q);
    let (l, c) = lemma_pins(items, q);
    let (pins, order, n) = lemma_parts(items, q, priorities);
    ranked_ascends(l, q.pick, priorities);
    let chosen = selection(items, q, priorities);
    let both = c + l;
    assert forall|k: int| 0 <= k < chosen.len() implies both.contains(#[trigger] chosen[k]) by {
        if k < c.len() {
            assert(both[k] == chosen[k]);
        } else {
            lemma_ranked_member(l, q.pick, priorities, k - c.len());
            let m = choose|m: int| 0 <= m < l.len() && l[m] == order[k - c.len()];
            assert(both[c.len() + m] == chosen[k]);
        }
    }
    assert forall|x: RangedView| #[trigger] chosen.contains(x) implies all.contains(x) by {
        let k = choose|k: int| 0 <= k < chosen.len() && chosen[k] == x;
        assert(both.contains(chosen[k]));
    }
    assert forall|i: int, j: int| 0 <= i < j < chosen.len() implies #[trigger] chosen[i].report.id
        != #[trigger] chosen[j].report.id by {
        if j < c.len() {
            assert(both[i] == chosen[i] && both[j] == chosen[j]);
        } else {
            lemma_ranked_member(l, q.pick, priorities, j - c.len());
            let b = choose|b: int| 0 <= b < l.len() && l[b] == order[j - c.len()];
            assert(both[c.len() + b] == chosen[j]);
            if i < c.len() {
                assert(both[i] == chosen[i]);
            } else {
                lemma_ranked_member(l, q.pick, priorities, i - c.len());
                let a = choose|a: int| 0 <= a < l.len() && l[a] == order[i - c.len()];
                assert(both[c.len() + a] == chosen[i]);
                assert(ranks_before(order[i - c.len()], order[j - c.len()], q.pick, priorities));
                if a == b {
                    rank_irreflexive(l[a], q.pick, priorities);
                } else if a < b {
                    assert(l[a].report.id != l[b].report.id);
                } else {
                    assert(l[b].report.id != l[a].report.id);
                }
            }
        }
    }
}

proof fn lemma_ranked_member(
    items: Seq<RangedView>,
    pick: Pick,
    priorities: Map<Seq<char>, u8>,
    k: int,
)
    requires
        one_each(items),
        0 <= k < items.len(),
    ensures
        items.contains(ranked(items, pick, priorities)[k]),
{
    ranked_ascends(items, pick, priorities);
    assert(ranked(items, pick, priorities).contains(ranked(items, pick, priorities)[k]));
}

/// Behind the pinned stations each one ranks before the next, and before every
/// station of the pool that the reply leaves out.
pub proof fn selection_takes_the_best(
    items: Seq<RangedView>,
    q: QueryView,
    priorities: Map<Seq<char>, u8>,
)
    ensures
        forall|i: int, j: int|
            pin_count(items, q) <= i < j < selection(items, q, priorities).len() ==> ranks_before(
                #[trigger] selection(items, q, priorities)[i],
                #[trigger] selection(items, q, priorities)[j],
                q.pick,
                priorities,
            ),
        forall|i: int, x: RangedView|
            pin_count(items, q) <= i < selection(items, q, priorities).len() && #[trigger] pool(
                items,
                q,
            ).contains(x) && !selection(items, q, priorities).contains(x) ==> ranks_before(
                #[trigger] selection(items, q, priorities)[i],
                x,
                q.pick,
                priorities,
            ),
{
    let all = pool(items, q);
    let (l, c) = lemma_pins(items, q);
    let (pins, order, n) = lemma_parts(items, q, priorities);
    ranked_ascends(l, q.pick, priorities);
    let chosen = selection(items, q, priorities);
    assert forall|i: int, j: int| c.len() <= i < j < chosen.len() implies ranks_before(
        #[trigger] chosen[i],
        #[trigger] chosen[j],
        q.pick,
        priorities,
    ) by {
        assert(chosen[i] == order[i - c.len()] && chosen[j] == order[j - c.len()]);
    }
    assert forall|i: int, x: RangedView|
        c.len() <= i < chosen.len() && #[trigger] all.contains(x) && !chosen.contains(
            x,
        ) implies ranks_before(#[trigger] chosen[i], x, q.pick, priorities) by {
        let both = c + l;
        assert(both.contains(x));
        let k = choose|k: int| 0 <= k < both.len() && both[k] == x;
        if k < c.len() {
            assert(chosen[k] == x);
        } else {
            assert(l[k - c.len()] == x);
            assert(l.contains(x));
            assert(order.contains(x));
            let m = choose|m: int| 0 <= m < order.len() && order[m] == x;
            if m < n {
                assert(chosen[c.len() + m] == x);
            }
            assert(chosen[i] == order[i - c.len()]);
        }
    }
}

/// A pinned station that reports is in the reply, as long as no more are pinned than
/// the reply may hold.
pub proof fn selection_keeps_the_pinned(
    items: Seq<RangedView>,
    q: QueryView,
    priorities: Map<Seq<char>, u8>,
)
    requires
        q.always_on.len() <= q.limit,
    ensures
        forall|x: RangedView, j: int|
            #[trigger] pool(items, q).contains(x) && 0 <= j < q.always_on.len()
                && #[trigger] q.always_on[j] == x.report.id ==> selection(
                items,
                q,
                priorities,
            ).contains(x),
        forall|k: int|
            0 <= k < pin_count(items, q) ==> q.always_on.contains(
                (#[trigger] selection(items, q, priorities)[k]).report.id,
            ),
{
    let all = pool(items, q);
    let (l, c) = lemma_pins(items, q);
    let (pins, order, n) = lemma_parts(items, q, priorities);
    let chosen = selection(items, q, priorities);
    let both = c + l;
    assert forall|x: RangedView, j: int|
        #[trigger] all.contains(x) && 0 <= j < q.always_on.len() && #[trigger] q.always_on[j]
            == x.report.id implies chosen.contains(x) by {
        assert(both.contains(x));
        let k = choose|k: int| 0 <= k < both.len() && both[k] == x;
        if k < c.len() {
            assert(chosen[k] == x);
        } else {
            assert(l[k - c.len()] == x);
            if c.len() < q.limit {
                assert(q.always_on[j] != l[k - c.len()].report.id);
            } else {
                assert(Seq::<RangedView>::empty() + all =~= all);
                pool_holds_the_last(items, q);
                lemma_all_pinned(q.always_on, all, Seq::empty(), q.limit as nat, j, x);
            }
        }
    }
    lemma_pins_are_named(q.always_on, all, Seq::empty(), q.limit as nat, q.always_on);
    assert forall|k: int| 0 <= k < c.len() implies q.always_on.contains(
        (#[trigger] chosen[k]).report.id,
    ) by {
        assert(chosen[k] == c[k]);
    }
}

/// When every one of the ids is pinned, none of them is left.
proof fn lemma_all_pinned(
    ids: Seq<Seq<char>>,
    left: Seq<RangedView>,
    chosen: Seq<RangedView>,
    limit: nat,
    j: int,
    x: RangedView,
)
    requires
        one_each(chosen + left),
        chosen.len() + ids.len() <= limit,
        0 <= j < ids.len(),
        ids[j] == x.report.id,
        pin(ids, left, chosen, limit).1.len() == limit,
    ensures
        !pin(ids, left, chosen, limit).0.contains(x),
    decreases ids.len(),
{
    let at = place(left, ids[0]);
    let tail = ids.drop_first();
    lemma_place(left, ids[0]);
    lemma_pin(ids, left, chosen, limit);
    if at < left.len() {
        let more = chosen.push(left[at]);
        let fewer = left.remove(at);
        lemma_pin_step(left, chosen, at);
        assert(fewer == without_id(left, ids[0]));
        lemma_without(left, ids[0]);
        if more.len() < limit {
            if j > 0 {
                assert(tail[j - 1] == ids[j]);
                lemma_all_pinned(tail, fewer, more, limit, j - 1, x);
            } else {
                lemma_pin(tail, fewer, more, limit);
            }
        } else {
            assert(ids.len() == 1);
        }
    } else {
        lemma_pin(tail, left, chosen, limit);
    }
}

/// What is pinned has one of the ids.
proof fn lemma_pins_are_named(
    ids: Seq<Seq<char>>,
    left: Seq<RangedView>,
    chosen: Seq<RangedView>,
    limit: nat,
    names: Seq<Seq<char>>,
)
    requires
        forall|j: int| 0 <= j < ids.len() ==> names.contains(#[trigger] ids[j]),
        forall|k: int| 0 <= k < chosen.len() ==> names.contains((#[trigger] chosen[k]).report.id),
    ensures
        forall|k: int|
            0 <= k < pin(ids, left, chosen, limit).1.len() ==> names.contains(
                (#[trigger] pin(ids, left, chosen, limit).1[k]).report.id,
            ),
    decreases ids.len(),
{
    if ids.len() > 0 {
        let at = place(left, ids[0]);
        let tail = ids.drop_first();
        lemma_place(left, ids[0]);
        assert forall|j: int| 0 <= j < tail.len() implies names.contains(#[trigger] tail[j]) by {
            assert(tail[j] == ids[j + 1]);
        }
        if at < left.len() {
            let more = chosen.push(left[at]);
            assert(names.contains(ids[0]));
            assert forall|k: int| 0 <= k < more.len() implies names.contains(
                (#[trigger] more[k]).report.id,
            ) by {
                if k < chosen.len() {
                    assert(more[k] == chosen[k]);
                }
            }
            if more.len() < limit {
                lemma_pins_are_named(tail, left.remove(at), more, limit, names);
                assert(pin(ids, left, chosen, limit) == pin(tail, left.remove(at), more, limit));
            } else {
                assert(pin(ids, left, chosen, limit).1 == more);
            }
        } else {
            lemma_pins_are_named(tail, left, chosen, limit, names);
            assert(pin(ids, left, chosen, limit) == pin(tail, left, chosen, limit));
        }
    }
}

/// The order in which the reports come in does not matter.
pub proof fn selection_ignores_order(
    a: Seq<RangedView>,
    b: Seq<RangedView>,
    q: QueryView,
    priorities: Map<Seq<char>, u8>,
)
    requires
        one_each(a),
        one_each(b),
        same_members(a, b),
    ensures
        selection(a, q, priorities) == selection(b, q, priorities),
{
    let pa = pool(a, q);
    let pb = pool(b, q);
    let none = Seq::<RangedView>::empty();
    pool_holds_the_last(a, q);
    pool_holds_the_last(b, q);
    assert forall|x: RangedView| #[trigger] pa.contains(x) <==> pb.contains(x) by {
        lemma_stands_alone(a, q, x);
        lemma_stands_alone(b, q, x);
        assert(a.contains(x) <==> b.contains(x));
    }
    lemma_pin_ignores_order(q.always_on, pa, pb, none, q.limit as nat);
    let (la, ca) = lemma_pins(a, q);
    let (lb, cb) = lemma_pins(b, q);
    ranked_ascends(la, q.pick, priorities);
    ranked_ascends(lb, q.pick, priorities);
    let ra = ranked(la, q.pick, priorities);
    let rb = ranked(lb, q.pick, priorities);
    assert forall|x: RangedView| #[trigger] ra.contains(x) <==> rb.contains(x) by {
        assert(la.contains(x) <==> lb.contains(x));
    }
    ascending_is_unique(ra, rb, q.pick, priorities);
}

proof fn lemma_stands_alone(items: Seq<RangedView>, q: QueryView, x: RangedView)
    requires
        one_each(items),
    ensures
        stands(items, q, x) <==> items.contains(x) && eligible(x.report, q),
{
    if items.contains(x) && eligible(x.report, q) {
        let i = choose|i: int| 0 <= i < items.len() && items[i] == x;
        assert forall|j: int|
            i < j < items.len() && eligible((#[trigger] items[j]).report, q) implies items[j].report.id
            != x.report.id by {
            assert(items[i].report.id != items[j].report.id);
        }
        assert(items[i] == x);
    }
}

proof fn lemma_pin_ignores_order(
    ids: Seq<Seq<char>>,
    a: Seq<RangedView>,
    b: Seq<RangedView>,
    chosen: Seq<RangedView>,
    limit: nat,
)
    requires
        one_each(a),
        one_each(b),
        same_members(a, b),
    ensures
        pin(ids, a, chosen, limit).1 == pin(ids, b, chosen, limit).1,
        same_members(pin(ids, a, chosen, limit).0, pin(ids, b, chosen, limit).0),
    decreases ids.len(),
{
    if ids.len() > 0 {
        let tail = ids.drop_first();
        let i = place(a, ids[0]);
        let j = place(b, ids[0]);
        lemma_place(a, ids[0]);
        lemma_place(b, ids[0]);
        if i < a.len() {
            assert(a.contains(a[i]));
            assert(b.contains(a[i]));
            let k = choose|k: int| 0 <= k < b.len() && b[k] == a[i];
            assert(j <= k);
            if j < k {
                assert(b[j].report.id != b[k].report.id);
            }
            assert(a.remove(i) == without_id(a, ids[0]));
            assert(b.remove(j) == without_id(b, ids[0]));
            lemma_without(a, ids[0]);
            lemma_without(b, ids[0]);
            assert forall|x: RangedView| #[trigger] a.remove(i).contains(x) <==> b.remove(
                j,
            ).contains(x) by {
                assert(a.contains(x) <==> b.contains(x));
            }
            let more = chosen.push(a[i]);
            if more.len() < limit {
                lemma_pin_ignores_order(tail, a.remove(i), b.remove(j), more, limit);
            }
        } else {
            if j < b.len() {
                assert(b.contains(b[j]));
                assert(a.contains(b[j]));
            }
            lemma_pin_ignores_order(tail, a, b, chosen, limit);
        }
    }
}

/// A query with another limit.
pub open spec fn with_limit(q: QueryView, limit: usize) -> QueryView {
    QueryView { limit, ..q }
}

proof fn lemma_pool_ignores_limit(items: Seq<RangedView>, q: QueryView, limit: usize)
    ensures
        pool(items, with_limit(q, limit)) == pool(items, q),
    decreases items.len(),
{
    if items.len() > 0 {
        lemma_pool_ignores_limit(items.drop_last(), q, limit);
    }
}

/// Pinning goes on behind what was chosen.
proof fn lemma_pin_extends(
    ids: Seq<Seq<char>>,
    left: Seq<RangedView>,
    chosen: Seq<RangedView>,
    limit: nat,
)
    ensures
        pin(ids, left, chosen, limit).1.len() >= chosen.len(),
        pin(ids, left, chosen, limit).1.take(chosen.len() as int) == chosen,
    decreases ids.len(),
{
    let c = pin(ids, left, chosen, limit).1;
    if ids.len() == 0 {
        assert(c.take(chosen.len() as int) =~= chosen);
    } else {
        let at = place(left, ids[0]);
        if at < left.len() {
            let more = chosen.push(left[at]);
            if more.len() < limit {
                lemma_pin_extends(ids.drop_first(), left.remove(at), more, limit);
                assert(c.take(chosen.len() as int) =~= more.take(chosen.len() as int));
            }
            assert(more.take(chosen.len() as int) =~= chosen);
        } else {
            lemma_pin_extends(ids.drop_first(), left, chosen, limit);
        }
    }
}

/// A smaller limit cuts the pins short, and where they do not reach it, it changes
/// nothing.
proof fn lemma_pin_limits(
    ids: Seq<Seq<char>>,
    left: Seq<RangedView>,
    chosen: Seq<RangedView>,
    small: nat,
    large: nat,
)
    requires
        chosen.len() < small <= large,
    ensures
        ({
            let few = pin(ids, left, chosen, small);
            let many = pin(ids, left, chosen, large);
            if many.1.len() < small {
                few == many
            } else {
                few.1 == many.1.take(small as int)
            }
        }),
    decreases ids.len(),
{
    if ids.len() > 0 {
        let at = place(left, ids[0]);
        let tail = ids.drop_first();
        if at < left.len() {
            let more = chosen.push(left[at]);
            let fewer = left.remove(at);
            if more.len() < small {
                lemma_pin_limits(tail, fewer, more, small, large);
            } else if more.len() < large {
                lemma_pin_extends(tail, fewer, more, large);
            } else {
                assert(more.take(small as int) =~= more);
            }
        } else {
            lemma_pin_limits(tail, left, chosen, small, large);
        }
    }
}

/// A smaller limit only cuts the reply short: its stations are the first ones of the
/// reply with the larger limit.
pub proof fn smaller_limit_cuts_short(
    items: Seq<RangedView>,
    q: QueryView,
    priorities: Map<Seq<char>, u8>,
    small: usize,
    large: usize,
)
    requires
        1 <= small <= large,
    ensures
        ({
            let few = selection(items, with_limit(q, small), priorities);
            let many = selection(items, with_limit(q, large), priorities);
            few == if many.len() < small {
                many
            } else {
                many.take(small as int)
            }
        }),
{
    let all = pool(items, q);
    let none = Seq::<RangedView>::empty();
    lemma_pool_ignores_limit(items, q, small);
    lemma_pool_ignores_limit(items, q, large);
    lemma_pin_limits(q.always_on, all, none, small as nat, large as nat);
    let few = selection(items, with_limit(q, small), priorities);
    let many = selection(items, with_limit(q, large), priorities);
    let (left, pins) = pin(q.always_on, all, none, large as nat);
    let order = ranked(left, q.pick, priorities);
    lemma_ranked_len(left, q.pick, priorities);
    if pins.len() >= small {
        assert(few == pins.take(small as int));
        assert(many.take(small as int) =~= pins.take(small as int));
    } else {
        let n = room(pins.len(), small as nat, left.len()) as int;
        let m = room(pins.len(), large as nat, left.len()) as int;
        assert(few == pins + order.take(n));
        assert(many == pins + order.take(m));
        if many.len() < small {
            assert(n == m);
        } else {
            assert(many.take(small as int) =~= few);
        }
    }
}

/// A station that no later report of the list has the id of, and that the reply may
/// hold, is in the pool.
proof fn lemma_in_pool(items: Seq<RangedView>, q: QueryView, i: int)
    requires
        0 <= i < items.len(),
        eligible(items[i].report, q),
        forall|j: int| i < j < items.len() ==> (#[trigger] items[j]).report.id
            != items[i].report.id,
    ensures
        pool(items, q).contains(items[i]),
{
    pool_holds_the_last(items, q);
    assert(stands(items, q, items[i]));
}

/// A reply holds only reports that were handed in, of stations whose ids start with K,
/// C, P, TJ or TI, inside the view box where there is one; no station twice; and no more
/// than the limit, or one where the limit is zero.
pub proof fn reply_holds_only_what_it_may(
    items: Seq<RangedView>,
    q: QueryView,
    priorities: Map<Seq<char>, u8>,
    k: int,
)
    requires
        0 <= k < selection(items, q, priorities).len(),
    ensures
        ({
            let x = selection(items, q, priorities)[k];
            let id = x.report.id;
            &&& exists|i: int| 0 <= i < items.len() && #[trigger] items[i] == x
            &&& id.len() >= 1
            &&& id[0] == 'K' || id[0] == 'C' || id[0] == 'P' || id.len() >= 2 && id[0] == 'T' && (
            id[1] == 'J' || id[1] == 'I')
            &&& q.bbox matches Some(b) ==> b.south.at_most(x.report.lat) && x.report.lat.at_most(
                b.north,
            ) && b.west.at_most(x.report.lon) && x.report.lon.at_most(b.east)
            &&& selection(items, q, priorities).len() <= if q.limit == 0 {
                1
            } else {
                q.limit as int
            }
            &&& forall|m: int|
                0 <= m < selection(items, q, priorities).len() && m != k ==> (
                #[trigger] selection(items, q, priorities)[m]).report.id != id
        }),
{
    let chosen = selection(items, q, priorities);
    selection_fills_up(items, q, priorities);
    pool_holds_the_last(items, q);
    assert(chosen.contains(chosen[k]));
    assert(pool(items, q).contains(chosen[k]));
    assert(stands(items, q, chosen[k]));
    assert forall|m: int| 0 <= m < chosen.len() && m != k implies (#[trigger] chosen[m]).report.id
        != chosen[k].report.id by {
        if m < k {
            assert(chosen[m].report.id != chosen[k].report.id);
        } else {
            assert(chosen[k].report.id != chosen[m].report.id);
        }
    }
}

/// A station of the US or Canada inside the view box, whose report is the last of its id
/// in the list, is in the reply, unless the reply is as long as it may be.
pub proof fn reply_leaves_out_only_for_want_of_room(
    items: Seq<RangedView>,
    q: QueryView,
    priorities: Map<Seq<char>, u8>,
    i: int,
)
    requires
        0 <= i < items.len(),
        ({
            let id = items[i].report.id;
            id.len() >= 1 && (id[0] == 'K' || id[0] == 'C' || id[0] == 'P' || id.len() >= 2 && id[0]
                == 'T' && (id[1] == 'J' || id[1] == 'I'))
        }),
        q.bbox matches Some(b) ==> b.south.at_most(items[i].report.lat)
            && items[i].report.lat.at_most(b.north) && b.west.at_most(items[i].report.lon)
            && items[i].report.lon.at_most(b.east),
        forall|j: int| i < j < items.len() ==> (#[trigger] items[j]).report.id
            != items[i].report.id,
    ensures
        selection(items, q, priorities).contains(items[i]) || selection(items, q, priorities).len()
            == if q.limit == 0 {
            1
        } else {
            q.limit as int
        },
{
    let chosen = selection(items, q, priorities);
    let x = items[i];
    lemma_in_pool(items, q, i);
    selection_fills_up(items, q, priorities);
    if chosen.len() < most(q.limit as nat) && !chosen.contains(x) {
        let (l, c) = lemma_pins(items, q);
        let (pins, order, n) = lemma_parts(items, q, priorities);
        ranked_ascends(l, q.pick, priorities);
        assert(n == order.len());
        assert(order.take(n) =~= order);
        let both = c + l;
        assert(both.contains(x));
        let k = choose|k: int| 0 <= k < both.len() && both[k] == x;
        if k < c.len() {
            assert(chosen[k] == x);
        } else {
            assert(l[k - c.len()] == x);
            assert(l.contains(x));
            assert(order.contains(x));
            let m = choose|m: int| 0 <= m < order.len() && order[m] == x;
            assert(chosen[c.len() + m] == x);
        }
    }
}

/// What pinning adds has one of the ids.
proof fn lemma_pin_ids(
    ids: Seq<Seq<char>>,
    left: Seq<RangedView>,
    chosen: Seq<RangedView>,
    limit: nat,
)
    ensures
        forall|k: int|
            chosen.len() <= k < pin(ids, left, chosen, limit).1.len() ==> ids.contains(
                (#[trigger] pin(ids, left, chosen, limit).1[k]).report.id,
            ),
    decreases ids.len(),
{
    if ids.len() > 0 {
        let at = place(left, ids[0]);
        let tail = ids.drop_first();
        let c = pin(ids, left, chosen, limit).1;
        lemma_place(left, ids[0]);
        lemma_pin_extends(ids, left, chosen, limit);
        assert(ids.contains(ids[0]));
        assert forall|x: Seq<char>| tail.contains(x) implies ids.contains(x) by {
            let j = choose|j: int| 0 <= j < tail.len() && tail[j] == x;
            assert(ids[j + 1] == x);
        }
        if at < left.len() {
            let more = chosen.push(left[at]);
            if more.len() < limit {
                lemma_pin_ids(tail, left.remove(at), more, limit);
                lemma_pin_extends(tail, left.remove(at), more, limit);
                assert(c.take(more.len() as int)[chosen.len() as int] == left[at]);
            }
            assert(c[chosen.len() as int] == left[at]);
        } else {
            lemma_pin_ids(tail, left, chosen, limit);
        }
        assert forall|k: int| chosen.len() <= k < c.len() implies ids.contains(
            (#[trigger] c[k]).report.id,
        ) by {
            if at < left.len() {
                let more = chosen.push(left[at]);
                if k > chosen.len() {
                    assert(tail.contains(pin(tail, left.remove(at), more, limit).1[k].report.id));
                }
            } else {
                assert(tail.contains(pin(tail, left, chosen, limit).1[k].report.id));
            }
        }
    }
}

/// Among the stations that are not pinned, one of lower priority number comes first where
/// the query picks by priority, and a station without one counts as 99; among those alike
/// the nearer comes first, and then the first by id. A station that comes before another
/// one of the reply is in the reply itself, ahead of it.
pub proof fn reply_goes_by_priority_then_distance(
    items: Seq<RangedView>,
    q: QueryView,
    priorities: Map<Seq<char>, u8>,
    i: int,
    m: int,
)
    requires
        0 <= i < items.len(),
        ({
            let id = items[i].report.id;
            id.len() >= 1 && (id[0] == 'K' || id[0] == 'C' || id[0] == 'P' || id.len() >= 2 && id[0]
                == 'T' && (id[1] == 'J' || id[1] == 'I'))
        }),
        q.bbox matches Some(b) ==> b.south.at_most(items[i].report.lat)
            && items[i].report.lat.at_most(b.north) && b.west.at_most(items[i].report.lon)
            && items[i].report.lon.at_most(b.east),
        forall|j: int| i < j < items.len() ==> (#[trigger] items[j]).report.id
            != items[i].report.id,
        0 <= m < selection(items, q, priorities).len(),
        !q.always_on.contains(items[i].report.id),
        !q.always_on.contains(selection(items, q, priorities)[m].report.id),
        ({
            let x = items[i];
            let y = selection(items, q, priorities)[m];
            let px = if priorities.dom().contains(x.report.id) {
                priorities[x.report.id] as int
            } else {
                99
            };
            let py = if priorities.dom().contains(y.report.id) {
                priorities[y.report.id] as int
            } else {
                99
            };
            let nearer = x.km.rank() < y.km.rank() || x.km.rank() == y.km.rank() && text_before(
                x.report.id,
                y.report.id,
            );
            if q.pick == Pick::Priority {
                px < py || px == py && nearer
            } else {
                nearer
            }
        }),
    ensures
        exists|k: int|
            0 <= k < m && #[trigger] selection(items, q, priorities)[k] == items[i],
{
    let chosen = selection(items, q, priorities);
    let x = items[i];
    let y = chosen[m];
    lemma_in_pool(items, q, i);
    assert(ranks_before(x, y, q.pick, priorities));
    selection_takes_the_best(items, q, priorities);
    let (pins, order, n) = lemma_parts(items, q, priorities);
    lemma_pin_ids(q.always_on, pool(items, q), Seq::empty(), q.limit as nat);
    assert(pins.len() == pin_count(items, q));
    assert(m >= pins.len()) by {
        if m < pins.len() {
            assert(chosen[m] == pins[m]);
        }
    }
    rank_irreflexive(x, q.pick, priorities);
    if !chosen.contains(x) {
        assert(ranks_before(chosen[m], x, q.pick, priorities));
        rank_transitive(x, y, x, q.pick, priorities);
    }
    let k = choose|k: int| 0 <= k < chosen.len() && chosen[k] == x;
    assert(k >= pins.len()) by {
        if k < pins.len() {
            assert(chosen[k] == pins[k]);
        }
    }
    if m < k {
        assert(ranks_before(chosen[m], chosen[k], q.pick, priorities));
        rank_transitive(x, y, x, q.pick, priorities);
    }
    assert(chosen[k] == x);
}

/// Pinned items come out in the order of their ids.
proof fn lemma_pin_order(
    ids: Seq<Seq<char>>,
    left: Seq<RangedView>,
    chosen: Seq<RangedView>,
    limit: nat,
    a: int,
    x: RangedView,
) -> (k: int)
    requires
        one_each(left),
        ids.no_duplicates(),
        chosen.len() + a < limit,
        0 <= a < ids.len(),
        left.contains(x),
        x.report.id == ids[a],
    ensures
        chosen.len() <= k <= chosen.len() + a,
        k < pin(ids, left, chosen, limit).1.len(),
        pin(ids, left, chosen, limit).1[k] == x,
        forall|m: int|
            chosen.len() <= m < k ==> ids.take(a).contains(
                (#[trigger] pin(ids, left, chosen, limit).1[m]).report.id,
            ),
    decreases ids.len(),
{
    let at = place(left, ids[0]);
    let tail = ids.drop_first();
    let c = pin(ids, left, chosen, limit).1;
    let n = chosen.len() as int;
    lemma_place(left, ids[0]);
    let w = choose|w: int| 0 <= w < left.len() && left[w] == x;
    assert forall|i: int, j: int| 0 <= i < j < tail.len() implies tail[i] != tail[j] by {
        assert(ids[i + 1] != ids[j + 1]);
    }
    if at < left.len() {
        let more = chosen.push(left[at]);
        let fewer = left.remove(at);
        if a == 0 {
            assert(w == at) by {
                if w < at {
                    assert(left[w].report.id != ids[0]);
                } else if at < w {
                    assert(left[at].report.id != left[w].report.id);
                }
            }
            if more.len() < limit {
                lemma_pin_extends(tail, fewer, more, limit);
                assert(c.take(more.len() as int)[n] == more[n]);
            }
            n
        } else {
            assert(ids[0] != ids[a]);
            lemma_without(left, ids[0]);
            assert(fewer == without_id(left, ids[0]));
            assert(fewer.contains(x));
            assert(tail[a - 1] == ids[a]);
            let k = lemma_pin_order(tail, fewer, more, limit, a - 1, x);
            lemma_pin_extends(tail, fewer, more, limit);
            assert forall|m: int| n <= m < k implies ids.take(a).contains(
                (#[trigger] c[m]).report.id,
            ) by {
                if m == n {
                    assert(c.take(more.len() as int)[n] == more[n]);
                    assert(ids.take(a)[0] == ids[0]);
                } else {
                    let v = c[m].report.id;
                    let early = tail.take(a - 1);
                    assert(early.contains(v));
                    let j = choose|j: int| 0 <= j < early.len() && early[j] == v;
                    assert(ids.take(a)[j + 1] == v);
                }
            }
            k
        }
    } else {
        assert(a > 0) by {
            if a == 0 {
                assert(left[w].report.id == ids[0]);
            }
        }
        assert(tail[a - 1] == ids[a]);
        let k = lemma_pin_order(tail, left, chosen, limit, a - 1, x);
        assert forall|m: int| n <= m < k implies ids.take(a).contains(
            (#[trigger] c[m]).report.id,
        ) by {
            let v = c[m].report.id;
            let early = tail.take(a - 1);
            assert(early.contains(v));
            let j = choose|j: int| 0 <= j < early.len() && early[j] == v;
            assert(ids.take(a)[j + 1] == v);
        }
        k
    }
}

/// The pinned stations that report come first, in the order in which they are pinned:
/// ahead of one of them stand only stations that are pinned before it.
pub proof fn pinned_stations_come_first_in_order(
    items: Seq<RangedView>,
    q: QueryView,
    priorities: Map<Seq<char>, u8>,
    i: int,
    a: int,
)
    requires
        0 <= i < items.len(),
        ({
            let id = items[i].report.id;
            id.len() >= 1 && (id[0] == 'K' || id[0] == 'C' || id[0] == 'P' || id.len() >= 2 && id[0]
                == 'T' && (id[1] == 'J' || id[1] == 'I'))
        }),
        q.bbox matches Some(b) ==> b.south.at_most(items[i].report.lat)
            && items[i].report.lat.at_most(b.north) && b.west.at_most(items[i].report.lon)
            && items[i].report.lon.at_most(b.east),
        forall|j: int| i < j < items.len() ==> (#[trigger] items[j]).report.id
            != items[i].report.id,
        q.always_on.no_duplicates(),
        0 <= a < q.always_on.len(),
        a < q.limit,
        q.always_on[a] == items[i].report.id,
    ensures
        exists|k: int|
            0 <= k <= a && k < selection(items, q, priorities).len() && #[trigger] selection(
                items,
                q,
                priorities,
            )[k] == items[i] && forall|m: int|
                0 <= m < k ==> q.always_on.take(a).contains(
                    (#[trigger] selection(items, q, priorities)[m]).report.id,
                ),
{
    let chosen = selection(items, q, priorities);
    let x = items[i];
    lemma_in_pool(items, q, i);
    pool_holds_the_last(items, q);
    let (pins, order, n) = lemma_parts(items, q, priorities);
    let k = lemma_pin_order(
        q.always_on,
        pool(items, q),
        Seq::empty(),
        q.limit as nat,
        a,
        x,
    );
    assert(chosen[k] == x);
    assert forall|m: int| 0 <= m < k implies q.always_on.take(a).contains(
        (#[trigger] chosen[m]).report.id,
    ) by {
        assert(chosen[m] == pins[m]);
    }
}

proof fn lemma_digit(d: int, c: char)
    requires
        0 <= d <= 9,
        c as u32 == 48 + d,
    ensures
        is_digit(c),
        c != '+',
        c as nat - '0' as nat == d,
{
}

/// A priority text is read as decimal: a digit alone is its number, another digit behind
/// a number makes ten times the number and the digit, and what passes 255 is none.
pub proof fn priority_text_is_decimal(s: Seq<char>, d: int, c: char)
    requires
        0 <= d <= 9,
        c as u32 == 48 + d,
    ensures
        small_number(seq![c]) == Some(d as u8),
        small_number(seq!['+', c]) == Some(d as u8),
        small_number(s) matches Some(n) ==> small_number(s.push(c)) == (if 10 * n + d <= 255 {
            Some((10 * n + d) as u8)
        } else {
            None
        }),
{
    lemma_digit(d, c);
    let one = seq![c];
    assert(one.drop_last() =~= Seq::empty());
    assert(decimal(one.drop_last()) == 0);
    assert(decimal(one) == d);
    assert(all_digits(one));
    assert(seq!['+', c].skip(1) =~= one);
    if small_number(s) is Some {
        let digits = behind_plus(s);
        let longer = behind_plus(s.push(c));
        assert(longer =~= digits.push(c));
        assert(longer.drop_last() =~= digits);
        assert forall|i: int| 0 <= i < longer.len() implies is_digit(#[trigger] longer[i]) by {
            if i < digits.len() {
                assert(longer[i] == digits[i]);
            }
        }
    }
}

/// A text that is empty, a plus sign alone, or holds anything but digits behind a plus
/// sign in front, is no priority.
pub proof fn priority_text_holds_digits_alone(s: Seq<char>, i: int)
    requires
        s.len() == 0 || s == seq!['+'] || 0 <= i < s.len() && !('0' <= s[i] <= '9') && (i > 0 || s[0]
            != '+'),
    ensures
        small_number(s) is None,
{
    let digits = behind_plus(s);
    if s == seq!['+'] {
        assert(digits.len() == 0);
    } else if s.len() > 0 {
        if s[0] == '+' {
            assert(digits[i - 1] == s[i]);
        } else {
            assert(digits[i] == s[i]);
        }
    }
}

/// A priority that is sent as a number counts up to 255, one that is sent as a text by
/// what the text reads without white space around it, and anything else not at all.
pub proof fn priority_is_a_small_number(value: PriorityValue)
    ensures
        value matches PriorityValue::Number(n) ==> priority_of(value) == (if n is Some && n->0
            <= 255 {
            Some(n->0 as u8)
        } else {
            None
        }),
        value matches PriorityValue::Text(s) ==> priority_of(value) == small_number(trimmed(s@)),
        value is Other ==> priority_of(value) is None,
{
}

proof fn lemma_collected(list: Seq<(Seq<char>, Option<u8>)>, id: Seq<char>)
    ensures
        collected(list).dom().contains(id) ==> exists|i: int|
            0 <= i < list.len() && (#[trigger] list[i]).0 == id && list[i].1 == Some(
                collected(list)[id],
            ) && forall|j: int|
                i < j < list.len() && (#[trigger] list[j]).0 == id ==> list[j].1 is None,
        !collected(list).dom().contains(id) ==> forall|i: int|
            0 <= i < list.len() && (#[trigger] list[i]).0 == id && id.len() > 0
                ==> list[i].1 is None,
        collected(list).dom().contains(id) ==> id.len() > 0,
    decreases list.len(),
{
    if list.len() > 0 {
        let prior = list.drop_last();
        let n = list.len() - 1;
        lemma_collected(prior, id);
        assert(list[n] == list.last());
        assert forall|i: int| 0 <= i < n implies #[trigger] list[i] == prior[i] by {
        }
        if collected(list).dom().contains(id) {
            if list[n].0 == id && list[n].1 is Some {
                assert(list[n].1 == Some(collected(list)[id]));
            } else {
                let i = choose|i: int|
                    0 <= i < prior.len() && (#[trigger] prior[i]).0 == id && prior[i].1 == Some(
                        collected(prior)[id],
                    ) && forall|j: int|
                        i < j < prior.len() && (#[trigger] prior[j]).0 == id ==> prior[j].1 is None;
                assert(list[i] == prior[i]);
                assert forall|j: int|
                    i < j < list.len() && (#[trigger] list[j]).0 == id implies list[j].1 is None by {
                    if j < n {
                        assert(prior[j].0 == id);
                    }
                }
            }
        } else {
            assert forall|i: int|
                0 <= i < list.len() && (#[trigger] list[i]).0 == id && id.len()
                    > 0 implies list[i].1 is None by {
                if i < n {
                    assert(prior[i].0 == id);
                }
            }
        }
    }
}

/// A station has the priority of its last row that tells one, by the row's id in upper
/// case; a station that no row tells one of has none.
pub proof fn station_has_its_last_priority(rows: Seq<AwcStation>, id: Seq<char>)
    requires
        id.len() > 0,
    ensures
        priorities_of(rows).dom().contains(id) <==> exists|i: int|
            0 <= i < rows.len() && uppercase(trimmed((#[trigger] rows[i]).icao_id@)) == id
                && priority_of(rows[i].priority) is Some,
        priorities_of(rows).dom().contains(id) ==> exists|i: int|
            0 <= i < rows.len() && uppercase(trimmed((#[trigger] rows[i]).icao_id@)) == id
                && priority_of(rows[i].priority) == Some(priorities_of(rows)[id]) && forall|j: int|
                i < j < rows.len() && uppercase(trimmed((#[trigger] rows[j]).icao_id@)) == id
                    ==> priority_of(rows[j].priority) is None,
        !priorities_of(rows).dom().contains(Seq::empty()),
{
    let list = rankings_of(rows);
    lemma_collected(list, id);
    lemma_collected(list, Seq::empty());
    assert forall|i: int| 0 <= i < rows.len() implies list[i] == (
        uppercase(trimmed((#[trigger] rows[i]).icao_id@)),
        priority_of(rows[i].priority),
    ) by {
    }
    if priorities_of(rows).dom().contains(id) {
        let i = choose|i: int|
            0 <= i < list.len() && (#[trigger] list[i]).0 == id && list[i].1 == Some(
                collected(list)[id],
            ) && forall|j: int|
                i < j < list.len() && (#[trigger] list[j]).0 == id ==> list[j].1 is None;
        assert(list[i] == (uppercase(trimmed(rows[i].icao_id@)), priority_of(rows[i].priority)));
        assert forall|j: int|
            i < j < rows.len() && uppercase(trimmed((#[trigger] rows[j]).icao_id@))
                == id implies priority_of(rows[j].priority) is None by {
            assert(list[j].0 == id);
        }
    } else {
        assert forall|i: int|
            0 <= i < rows.len() && uppercase(trimmed((#[trigger] rows[i]).icao_id@))
                == id implies priority_of(rows[i].priority) is None by {
            assert(list[i].0 == id);
        }
    }
}

/// Stations of the US and Canada are told by the first letters of their ids, and a place
/// is inside a box where it lies between its edges.
pub proof fn stations_are_told_by_letters_and_edges(id: Seq<char>, lat: Double, lon: Double, b: BBox)
    ensures
        is_na_station(id) <==> id.len() >= 1 && (id[0] == 'K' || id[0] == 'C' || id[0] == 'P'
            || id.len() >= 2 && id[0] == 'T' && (id[1] == 'J' || id[1] == 'I')),
        inside(lat, lon, b) <==> {
            &&& !lat.is_nan() && !lon.is_nan()
            &&& !b.south.is_nan() && !b.north.is_nan() && !b.west.is_nan() && !b.east.is_nan()
            &&& b.south.value() <= lat.value() <= b.north.value()
            &&& b.west.value() <= lon.value() <= b.east.value()
        },
{
}

/// A report with its distance is seen as both, and a list of them one by one.
pub proof fn distances_are_seen_with_their_reports(r: Ranged, list: Seq<Ranged>)
    ensures
        r@.report == r.report@,
        r@.km == r.km,
        ranged_views(list).len() == list.len(),
        forall|i: int| 0 <= i < list.len() ==> #[trigger] ranged_views(list)[i] == list[i]@,
{
}

} // verus!
