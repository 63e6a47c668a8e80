//! Which source shows the centre of the map.

use crate::ieee::{Double, HIDDEN64};
use crate::metar::BBox;
use crate::opera;
use crate::protocol::{AdapterTarget, Coverage, Family, GeoPoint, Kind, ProductClass, Selection};
use crate::select::{in_bbox, inside};
use crate::text::{
    before, before_irreflexive, before_total, before_transitive, same_text, text_before,
};
use vstd::arithmetic::div_mod::lemma_fundamental_div_mod_converse;
use vstd::arithmetic::power2::{
    lemma2_to64, lemma2_to64_rest, lemma_pow2_adds, lemma_pow2_pos, lemma_pow2_unfold, pow2,
};
use vstd::prelude::*;

verus! {

/// The coverage of a source: that of each of its dishes, or of its one mosaic.
#[derive(Debug)]
pub enum AdapterCoverage<'a> {
    Sites(&'a Vec<Site>),
    Mosaic { coverage: &'a Coverage, selection_priority: i32 },
}

#[derive(Debug)]
pub struct SourceMetadataBorrowed<'a> {
    pub id: &'a str,
    pub family: Family,
    pub kind: Kind,
    pub default_product_class: ProductClass,
    pub name: &'a str,
    pub attribution: &'a str,
    pub coverage: AdapterCoverage<'a>,
}

/// A dish of the polar feed.
#[derive(Debug)]
pub struct Site {
    pub id: String,
    pub lat: Double,
    pub lon: Double,
    pub radius_km: u32,
}

/// A source or dish that may be selected. `dish` is how far the dish is from the
/// centre, in metres.
#[derive(Debug)]
pub struct Candidate {
    pub selection: Selection,
    pub family: Family,
    pub product: ProductClass,
    pub priority: i32,
    pub coverage: Coverage,
    pub dish: Option<u64>,
}

impl Clone for Candidate {
    fn clone(&self) -> (r: Candidate)
        ensures
            r == *self,
    {
        Candidate {
            selection: self.selection.clone(),
            family: self.family,
            product: self.product,
            priority: self.priority,
            coverage: self.coverage,
            dish: self.dish,
        }
    }
}

/// The two names in a selection, the second empty for a mosaic.
pub open spec fn names(s: Selection) -> (Seq<char>, Seq<char>) {
    (
        s.source_id@,
        match s.target {
            AdapterTarget::Site { site_id } => site_id@,
            AdapterTarget::Mosaic => Seq::empty(),
        },
    )
}

pub open spec fn same_selection(a: Selection, b: Selection) -> bool {
    &&& a.source_id@ == b.source_id@
    &&& match (a.target, b.target) {
        (AdapterTarget::Site { site_id: x }, AdapterTarget::Site { site_id: y }) => x@ == y@,
        (AdapterTarget::Mosaic, AdapterTarget::Mosaic) => true,
        _ => false,
    }
}

/// Whether a candidate covers the centre: a dish by its distance, a mosaic by its box.
pub open spec fn covers(c: Candidate, centre: GeoPoint) -> bool {
    match c.coverage {
        Coverage::Circle { radius_km, .. } => match c.dish {
            Some(m) => m <= 1000 * radius_km,
            None => false,
        },
        Coverage::Box { north, south, east, west } => inside(
            centre.lat,
            centre.lon,
            BBox { south, west, north, east },
        ),
    }
}

pub open spec fn far(c: Candidate) -> int {
    match c.dish {
        Some(m) => m as int,
        None => 0,
    }
}

/// Whether the names of `a` come before those of `b`.
pub open spec fn names_before(a: Selection, b: Selection) -> bool {
    let x = names(a);
    let y = names(b);
    text_before(x.0, y.0) || x.0 == y.0 && text_before(x.1, y.1)
}

/// The nearer dish is the better one, and among equally near ones the first by name.
pub open spec fn better_dish(a: Candidate, b: Candidate) -> bool {
    far(a) < far(b) || far(a) == far(b) && names_before(a.selection, b.selection)
}

/// The grid with the higher priority is the better one, and among equal ones the first
/// by name.
pub open spec fn better_grid(a: Candidate, b: Candidate) -> bool {
    a.priority > b.priority || a.priority == b.priority && names_before(a.selection, b.selection)
}

pub open spec fn better(a: Candidate, b: Candidate, family: Family) -> bool {
    if family == Family::Polar {
        better_dish(a, b)
    } else {
        better_grid(a, b)
    }
}

/// A candidate of a family that covers the centre.
pub open spec fn in_play(c: Candidate, family: Family, centre: GeoPoint) -> bool {
    c.family == family && covers(c, centre)
}

/// The best candidate of a family that covers the centre.
pub open spec fn best(candidates: Seq<Candidate>, family: Family, centre: GeoPoint) -> Option<
    Candidate,
>
    decreases candidates.len(),
{
    if candidates.len() == 0 {
        None
    } else {
        let rest = best(candidates.drop_last(), family, centre);
        let last = candidates.last();
        if !in_play(last, family, centre) {
            rest
        } else {
            match rest {
                Some(r) if !better(last, r, family) => Some(r),
                _ => Some(last),
            }
        }
    }
}

/// The candidate of a family that is held and still covers the centre.
pub open spec fn held_in(
    candidates: Seq<Candidate>,
    family: Family,
    centre: GeoPoint,
    held: Selection,
) -> Option<Candidate>
    decreases candidates.len(),
{
    if candidates.len() == 0 {
        None
    } else if in_play(candidates[0], family, centre) && same_selection(
        candidates[0].selection,
        held,
    ) {
        Some(candidates[0])
    } else {
        held_in(candidates.drop_first(), family, centre, held)
    }
}

/// Whether `new` takes over from the candidate that is held: a dish that is nearer by
/// a fifth and by a kilometre, or a grid of higher priority.
pub open spec fn takes_over(new: Candidate, held: Candidate, family: Family) -> bool {
    if family == Family::Polar {
        10 * far(new) < 8 * far(held) && far(new) + 1000 < far(held)
    } else {
        new.priority > held.priority
    }
}

/// The choice within a family.
pub open spec fn chosen_in(
    candidates: Seq<Candidate>,
    family: Family,
    centre: GeoPoint,
    held: Option<Selection>,
) -> Option<Candidate> {
    match best(candidates, family, centre) {
        None => None,
        Some(top) => match held {
            None => Some(top),
            Some(h) => match held_in(candidates, family, centre, h) {
                Some(kept) if !takes_over(top, kept, family) => Some(kept),
                _ => Some(top),
            },
        },
    }
}

/// The choice for a centre: a dish that covers it if there is one, or else a grid.
pub open spec fn choice(
    candidates: Seq<Candidate>,
    centre: GeoPoint,
    held: Option<Selection>,
) -> Option<Candidate> {
    match chosen_in(candidates, Family::Polar, centre, held) {
        Some(c) => Some(c),
        None => chosen_in(candidates, Family::Grid, centre, held),
    }
}

fn site_name(s: &Selection) -> (r: String)
    ensures
        r@ == names(*s).1,
{
    match &s.target {
        AdapterTarget::Site { site_id } => site_id.clone(),
        AdapterTarget::Mosaic => {
            let r = String::new();
            assert(r@ =~= Seq::empty());
            r
        },
    }
}

fn comes_before(a: &Selection, b: &Selection) -> (r: bool)
    ensures
        r == names_before(*a, *b),
{
    if same_text(a.source_id.as_str(), b.source_id.as_str()) {
        proof {
            before_irreflexive(a.source_id@);
        }
        before(site_name(a).as_str(), site_name(b).as_str())
    } else {
        before(a.source_id.as_str(), b.source_id.as_str())
    }
}

fn is_same(a: &Selection, b: &Selection) -> (r: bool)
    ensures
        r == same_selection(*a, *b),
{
    same_text(a.source_id.as_str(), b.source_id.as_str()) && match (&a.target, &b.target) {
        (AdapterTarget::Site { site_id: x }, AdapterTarget::Site { site_id: y }) => same_text(
            x.as_str(),
            y.as_str(),
        ),
        (AdapterTarget::Mosaic, AdapterTarget::Mosaic) => true,
        _ => false,
    }
}

fn metres(c: &Candidate) -> (r: u64)
    ensures
        r == far(*c),
{
    match c.dish {
        Some(m) => m,
        None => 0,
    }
}

fn is_covering(c: &Candidate, family: Family, centre: GeoPoint) -> (r: bool)
    ensures
        r == in_play(*c, family, centre),
{
    c.family == family && match c.coverage {
        Coverage::Circle { radius_km, .. } => match c.dish {
            Some(m) => m <= 1000 * radius_km as u64,
            None => false,
        },
        Coverage::Box { north, south, east, west } => in_bbox(
            centre.lat,
            centre.lon,
            BBox { south, west, north, east },
        ),
    }
}

fn is_better(a: &Candidate, b: &Candidate, family: Family) -> (r: bool)
    ensures
        r == better(*a, *b, family),
{
    match family {
        Family::Polar => {
            let (x, y): (u64, u64) = (metres(a), metres(b));
            x < y || x == y && comes_before(&a.selection, &b.selection)
        },
        Family::Grid => a.priority > b.priority || a.priority == b.priority && comes_before(
            &a.selection,
            &b.selection,
        ),
    }
}

fn find_best<'a>(candidates: &'a [Candidate], family: Family, centre: GeoPoint) -> (r: Option<
    &'a Candidate,
>)
    ensures
        r == (match best(candidates@, family, centre) {
            Some(c) => Some(&c),
            None => None,
        }),
{
    let mut top: Option<&'a Candidate> = None;
    let mut i: usize = 0;
    while i < candidates.len()
        invariant
            i <= candidates@.len(),
            top == (match best(candidates@.take(i as int), family, centre) {
                Some(c) => Some(&c),
                None => None,
            }),
        decreases candidates@.len() - i,
    {
        let c = &candidates[i];
        assert(candidates@.take(i + 1).drop_last() =~= candidates@.take(i as int));
        assert(candidates@.take(i + 1).last() == *c);
        if is_covering(c, family, centre) {
            let keep = match top {
                Some(t) => !is_better(c, t, family),
                None => false,
            };
            if !keep {
                top = Some(c);
            }
        }
        i = i + 1;
    }
    assert(candidates@.take(candidates@.len() as int) =~= candidates@);
    top
}

fn find_held<'a>(
    candidates: &'a [Candidate],
    family: Family,
    centre: GeoPoint,
    held: &Selection,
) -> (r: Option<&'a Candidate>)
    ensures
        r == (match held_in(candidates@, family, centre, *held) {
            Some(c) => Some(&c),
            None => None,
        }),
{
    let mut i: usize = 0;
    assert(candidates@.skip(0) =~= candidates@);
    while i < candidates.len()
        invariant
            i <= candidates@.len(),
            held_in(candidates@, family, centre, *held) == held_in(
                candidates@.skip(i as int),
                family,
                centre,
                *held,
            ),
        decreases candidates@.len() - i,
    {
        let c = &candidates[i];
        assert(candidates@.skip(i as int)[0] == *c);
        assert(candidates@.skip(i as int).drop_first() =~= candidates@.skip(i + 1));
        if is_covering(c, family, centre) && is_same(&c.selection, held) {
            return Some(c);
        }
        i = i + 1;
    }
    None
}

fn does_take_over(new: &Candidate, held: &Candidate, family: Family) -> (r: bool)
    ensures
        r == takes_over(*new, *held, family),
{
    match family {
        Family::Polar => {
            let (n, h): (u128, u128) = (metres(new) as u128, metres(held) as u128);
            10 * n < 8 * h && n + 1000 < h
        },
        Family::Grid => new.priority > held.priority,
    }
}

fn choose_in<'a>(
    candidates: &'a [Candidate],
    family: Family,
    centre: GeoPoint,
    held: Option<&Selection>,
) -> (r: Option<&'a Candidate>)
    ensures
        r == (match chosen_in(
            candidates@,
            family,
            centre,
            match held {
                Some(h) => Some(*h),
                None => None,
            },
        ) {
            Some(c) => Some(&c),
            None => None,
        }),
{
    let top = match find_best(candidates, family, centre) {
        Some(c) => c,
        None => return None,
    };
    if let Some(h) = held {
        if let Some(kept) = find_held(candidates, family, centre, h) {
            if !does_take_over(top, kept, family) {
                return Some(kept);
            }
        }
    }
    Some(top)
}

/// The selection for a settled centre. A dish that covers it wins over every grid, and
/// the held dish or grid stays until another takes over.
pub fn covering_selection(
    centre: GeoPoint,
    held: Option<&Selection>,
    candidates: &[Candidate],
) -> (r: Option<Selection>)
    ensures
        r == (match choice(
            candidates@,
            centre,
            match held {
                Some(h) => Some(*h),
                None => None,
            },
        ) {
            Some(c) => Some(c.selection),
            None => None,
        }),
{
    match choose_in(candidates, Family::Polar, centre, held) {
        Some(c) => Some(c.selection.clone()),
        None => match choose_in(candidates, Family::Grid, centre, held) {
            Some(c) => Some(c.selection.clone()),
            None => None,
        },
    }
}

proof fn lemma_names_transitive(a: Selection, b: Selection, c: Selection)
    requires
        names_before(a, b),
        names_before(b, c),
    ensures
        names_before(a, c),
{
    let (x, y, z) = (names(a), names(b), names(c));
    if text_before(x.0, y.0) && text_before(y.0, z.0) {
        before_transitive(x.0, y.0, z.0);
    }
    if text_before(x.1, y.1) && text_before(y.1, z.1) {
        before_transitive(x.1, y.1, z.1);
    }
}

proof fn lemma_names_irreflexive(a: Selection)
    ensures
        !names_before(a, a),
{
    before_irreflexive(names(a).0);
    before_irreflexive(names(a).1);
}

proof fn lemma_names_total(a: Selection, b: Selection)
    requires
        names(a) != names(b),
    ensures
        names_before(a, b) || names_before(b, a),
{
    if names(a).0 != names(b).0 {
        before_total(names(a).0, names(b).0);
    } else {
        before_total(names(a).1, names(b).1);
    }
}

proof fn lemma_better_transitive(a: Candidate, b: Candidate, c: Candidate, family: Family)
    requires
        better(a, b, family),
        better(b, c, family),
    ensures
        better(a, c, family),
{
    if names_before(a.selection, b.selection) && names_before(b.selection, c.selection) {
        lemma_names_transitive(a.selection, b.selection, c.selection);
    }
}

/// No candidate of the family that covers the centre is better than `top`.
pub open spec fn is_top(
    candidates: Seq<Candidate>,
    family: Family,
    centre: GeoPoint,
    top: Candidate,
) -> bool {
    &&& candidates.contains(top)
    &&& in_play(top, family, centre)
    &&& forall|i: int|
        0 <= i < candidates.len() && in_play(#[trigger] candidates[i], family, centre) ==> !better(
            candidates[i],
            top,
            family,
        )
}

/// The best candidate covers the centre and no other that does is better; there is one
/// unless none covers it.
pub proof fn best_is_top(candidates: Seq<Candidate>, family: Family, centre: GeoPoint)
    ensures
        best(candidates, family, centre) matches Some(top) ==> is_top(
            candidates,
            family,
            centre,
            top,
        ),
        best(candidates, family, centre) is None ==> forall|i: int|
            0 <= i < candidates.len() ==> !in_play(#[trigger] candidates[i], family, centre),
    decreases candidates.len(),
{
    if candidates.len() > 0 {
        let prior = candidates.drop_last();
        let last = candidates.last();
        let n = candidates.len() - 1;
        let rest = best(prior, family, centre);
        let all = best(candidates, family, centre);
        best_is_top(prior, family, centre);
        assert(candidates[n] == last);
        assert forall|i: int| 0 <= i < n implies candidates[i] == #[trigger] prior[i] by {
        }
        if rest is None {
            assert forall|i: int|
                0 <= i < candidates.len() && in_play(
                    #[trigger] candidates[i],
                    family,
                    centre,
                ) implies i == n by {
                if i < n {
                    assert(!in_play(prior[i], family, centre));
                }
            }
            lemma_names_irreflexive(last.selection);
        } else {
            let r = rest->0;
            let k = choose|k: int| 0 <= k < prior.len() && prior[k] == r;
            assert(candidates[k] == r);
            let top = all->0;
            lemma_names_irreflexive(last.selection);
            assert forall|i: int|
                0 <= i < candidates.len() && in_play(
                    #[trigger] candidates[i],
                    family,
                    centre,
                ) implies !better(candidates[i], top, family) by {
                if i < n {
                    assert(in_play(prior[i], family, centre));
                    assert(!better(prior[i], r, family));
                    if top != r && better(prior[i], top, family) {
                        lemma_better_transitive(prior[i], last, r, family);
                    }
                }
            }
        }
    }
}

proof fn lemma_held(
    candidates: Seq<Candidate>,
    family: Family,
    centre: GeoPoint,
    held: Selection,
)
    ensures
        held_in(candidates, family, centre, held) matches Some(c) ==> candidates.contains(c)
            && in_play(c, family, centre) && same_selection(c.selection, held),
        held_in(candidates, family, centre, held) is None ==> forall|i: int|
            0 <= i < candidates.len() && in_play(#[trigger] candidates[i], family, centre)
                ==> !same_selection(candidates[i].selection, held),
    decreases candidates.len(),
{
    if candidates.len() > 0 {
        let rest = candidates.drop_first();
        lemma_held(rest, family, centre, held);
        if in_play(candidates[0], family, centre) && same_selection(
            candidates[0].selection,
            held,
        ) {
            assert(candidates.contains(candidates[0]));
        } else if held_in(rest, family, centre, held) is Some {
            let c = held_in(rest, family, centre, held)->0;
            let k = choose|k: int| 0 <= k < rest.len() && rest[k] == c;
            assert(candidates[k + 1] == c);
        } else {
            assert forall|i: int|
                0 <= i < candidates.len() && in_play(
                    #[trigger] candidates[i],
                    family,
                    centre,
                ) implies !same_selection(candidates[i].selection, held) by {
                if i > 0 {
                    assert(rest[i - 1] == candidates[i]);
                }
            }
        }
    }
}

proof fn lemma_chosen(
    candidates: Seq<Candidate>,
    family: Family,
    centre: GeoPoint,
    held: Option<Selection>,
)
    ensures
        chosen_in(candidates, family, centre, held) matches Some(c) ==> candidates.contains(c)
            && in_play(c, family, centre),
        chosen_in(candidates, family, centre, held) is None ==> forall|i: int|
            0 <= i < candidates.len() ==> !in_play(#[trigger] candidates[i], family, centre),
{
    best_is_top(candidates, family, centre);
    if held is Some {
        lemma_held(candidates, family, centre, held->0);
    }
}

/// What is chosen covers the centre; there is a choice exactly when something covers
/// it; and a dish that covers it goes before every grid.
pub proof fn choice_covers(candidates: Seq<Candidate>, centre: GeoPoint, held: Option<Selection>)
    ensures
        choice(candidates, centre, held) matches Some(c) ==> candidates.contains(c) && covers(
            c,
            centre,
        ),
        choice(candidates, centre, held) is None <==> forall|i: int|
            0 <= i < candidates.len() ==> !covers(#[trigger] candidates[i], centre),
        (exists|i: int|
            0 <= i < candidates.len() && in_play(
                #[trigger] candidates[i],
                Family::Polar,
                centre,
            )) ==> (choice(candidates, centre, held) matches Some(c) && c.family == Family::Polar),
{
    lemma_chosen(candidates, Family::Polar, centre, held);
    lemma_chosen(candidates, Family::Grid, centre, held);
    let picked = choice(candidates, centre, held);
    if picked is None {
        assert forall|i: int| 0 <= i < candidates.len() implies !covers(
            #[trigger] candidates[i],
            centre,
        ) by {
            assert(!in_play(candidates[i], Family::Polar, centre));
            assert(!in_play(candidates[i], Family::Grid, centre));
        }
    } else {
        let c = picked->0;
        let k = choose|k: int| 0 <= k < candidates.len() && candidates[k] == c;
        assert(covers(candidates[k], centre));
    }
}

/// A held grid stays while it covers the centre, no dish does and no grid that does
/// has a higher priority.
pub proof fn held_grid_stays(candidates: Seq<Candidate>, centre: GeoPoint, held: Selection)
    requires
        held_in(candidates, Family::Grid, centre, held) is Some,
        forall|i: int|
            0 <= i < candidates.len() ==> !in_play(#[trigger] candidates[i], Family::Polar, centre),
        forall|i: int|
            0 <= i < candidates.len() && in_play(#[trigger] candidates[i], Family::Grid, centre)
                ==> candidates[i].priority <= held_in(
                candidates,
                Family::Grid,
                centre,
                held,
            )->0.priority,
    ensures
        choice(candidates, centre, Some(held)) == held_in(candidates, Family::Grid, centre, held),
{
    best_is_top(candidates, Family::Polar, centre);
    best_is_top(candidates, Family::Grid, centre);
    lemma_held(candidates, Family::Grid, centre, held);
    if best(candidates, Family::Polar, centre) is Some {
        let top = best(candidates, Family::Polar, centre)->0;
        let k = choose|k: int| 0 <= k < candidates.len() && candidates[k] == top;
        assert(in_play(candidates[k], Family::Polar, centre));
    }
    let kept = held_in(candidates, Family::Grid, centre, held)->0;
    let m = choose|m: int| 0 <= m < candidates.len() && candidates[m] == kept;
    assert(in_play(candidates[m], Family::Grid, centre));
    let top = best(candidates, Family::Grid, centre)->0;
    let k = choose|k: int| 0 <= k < candidates.len() && candidates[k] == top;
    assert(in_play(candidates[k], Family::Grid, centre));
}

/// A held dish stays while it covers the centre, unless one that does is nearer by a
/// fifth and by a kilometre.
pub proof fn held_dish_stays(candidates: Seq<Candidate>, centre: GeoPoint, held: Selection)
    requires
        held_in(candidates, Family::Polar, centre, held) is Some,
        forall|i: int|
            0 <= i < candidates.len() && in_play(#[trigger] candidates[i], Family::Polar, centre)
                ==> 10 * far(candidates[i]) >= 8 * far(
                held_in(candidates, Family::Polar, centre, held)->0,
            ) || far(candidates[i]) + 1000 >= far(
                held_in(candidates, Family::Polar, centre, held)->0,
            ),
    ensures
        choice(candidates, centre, Some(held)) == held_in(candidates, Family::Polar, centre, held),
{
    best_is_top(candidates, Family::Polar, centre);
    lemma_held(candidates, Family::Polar, centre, held);
    let kept = held_in(candidates, Family::Polar, centre, held)->0;
    let m = choose|m: int| 0 <= m < candidates.len() && candidates[m] == kept;
    assert(in_play(candidates[m], Family::Polar, centre));
    let top = best(candidates, Family::Polar, centre)->0;
    let k = choose|k: int| 0 <= k < candidates.len() && candidates[k] == top;
    assert(in_play(candidates[k], Family::Polar, centre));
}

/// Without a dish that covers the centre, a grid of higher priority than the held one
/// takes over.
pub proof fn higher_priority_takes_over(
    candidates: Seq<Candidate>,
    centre: GeoPoint,
    held: Option<Selection>,
    i: int,
)
    requires
        forall|j: int|
            0 <= j < candidates.len() ==> !in_play(#[trigger] candidates[j], Family::Polar, centre),
        0 <= i < candidates.len(),
        in_play(candidates[i], Family::Grid, centre),
    ensures
        choice(candidates, centre, held) matches Some(c) && c.priority >= candidates[i].priority,
{
    lemma_chosen(candidates, Family::Polar, centre, held);
    best_is_top(candidates, Family::Polar, centre);
    best_is_top(candidates, Family::Grid, centre);
    if chosen_in(candidates, Family::Polar, centre, held) is Some {
        let c = chosen_in(candidates, Family::Polar, centre, held)->0;
        let k = choose|k: int| 0 <= k < candidates.len() && candidates[k] == c;
        assert(in_play(candidates[k], Family::Polar, centre));
    }
}

/// No two candidates have the same names.
pub open spec fn distinct_names(candidates: Seq<Candidate>) -> bool {
    forall|i: int, j: int|
        0 <= i < j < candidates.len() ==> names(#[trigger] candidates[i].selection) != names(
            #[trigger] candidates[j].selection,
        )
}

pub open spec fn same_candidates(a: Seq<Candidate>, b: Seq<Candidate>) -> bool {
    forall|c: Candidate| #[trigger] a.contains(c) <==> b.contains(c)
}

proof fn lemma_same_names(candidates: Seq<Candidate>, x: Candidate, y: Candidate)
    requires
        distinct_names(candidates),
        candidates.contains(x),
        candidates.contains(y),
        names(x.selection) == names(y.selection),
    ensures
        x == y,
{
    let i = choose|i: int| 0 <= i < candidates.len() && candidates[i] == x;
    let j = choose|j: int| 0 <= j < candidates.len() && candidates[j] == y;
    if i < j {
        assert(names(candidates[i].selection) != names(candidates[j].selection));
    } else if j < i {
        assert(names(candidates[j].selection) != names(candidates[i].selection));
    }
}

proof fn lemma_chosen_ignores_order(
    a: Seq<Candidate>,
    b: Seq<Candidate>,
    family: Family,
    centre: GeoPoint,
    held: Option<Selection>,
)
    requires
        distinct_names(a),
        same_candidates(a, b),
    ensures
        chosen_in(a, family, centre, held) == chosen_in(b, family, centre, held),
{
    best_is_top(a, family, centre);
    best_is_top(b, family, centre);
    let (x, y) = (best(a, family, centre), best(b, family, centre));
    if x is Some {
        assert(b.contains(x->0));
        let k = choose|k: int| 0 <= k < b.len() && b[k] == x->0;
        assert(in_play(b[k], family, centre));
    }
    if y is Some {
        assert(a.contains(y->0));
        let k = choose|k: int| 0 <= k < a.len() && a[k] == y->0;
        assert(in_play(a[k], family, centre));
    }
    if x is Some && y is Some {
        if names(x->0.selection) != names(y->0.selection) {
            lemma_names_total(x->0.selection, y->0.selection);
        }
        lemma_same_names(a, x->0, y->0);
    }
    if held is Some {
        let h = held->0;
        lemma_held(a, family, centre, h);
        lemma_held(b, family, centre, h);
        let (p, q) = (held_in(a, family, centre, h), held_in(b, family, centre, h));
        if p is Some {
            assert(b.contains(p->0));
            let k = choose|k: int| 0 <= k < b.len() && b[k] == p->0;
            assert(in_play(b[k], family, centre));
        }
        if q is Some {
            assert(a.contains(q->0));
            let k = choose|k: int| 0 <= k < a.len() && a[k] == q->0;
            assert(in_play(a[k], family, centre));
        }
        if p is Some && q is Some {
            lemma_same_names(a, p->0, q->0);
        }
    }
}

/// The order in which the candidates are listed does not change the choice.
pub proof fn choice_ignores_order(
    a: Seq<Candidate>,
    b: Seq<Candidate>,
    centre: GeoPoint,
    held: Option<Selection>,
)
    requires
        distinct_names(a),
        same_candidates(a, b),
    ensures
        choice(a, centre, held) == choice(b, centre, held),
{
    lemma_chosen_ignores_order(a, b, Family::Polar, centre, held);
    lemma_chosen_ignores_order(a, b, Family::Grid, centre, held);
}

/// A dish covers the centre where it is no farther away than it sees; a mosaic covers it
/// where the centre lies between its edges.
pub proof fn covering_is_range_or_box(c: Candidate, centre: GeoPoint)
    ensures
        c.coverage matches Coverage::Circle { radius_km, .. } ==> (covers(c, centre) <==> (
        c.dish matches Some(m) && m <= 1000 * radius_km)),
        c.coverage matches Coverage::Box { north, south, east, west } ==> (covers(c, centre) <==> {
            &&& !centre.lat.is_nan() && !centre.lon.is_nan()
            &&& !south.is_nan() && !north.is_nan() && !west.is_nan() && !east.is_nan()
            &&& south.value() <= centre.lat.value() <= north.value()
            &&& west.value() <= centre.lon.value() <= east.value()
        }),
{
}

/// Two selections are one where they name one source, and of it either one dish or both
/// the mosaic.
pub proof fn selections_go_by_their_names(a: Selection, b: Selection)
    ensures
        same_selection(a, b) ==> a.source_id@ == b.source_id@ && (a.target is Mosaic
            <==> b.target is Mosaic),
        same_selection(a, b) && a.target is Site ==> a.target->site_id@ == b.target->site_id@,
        a.source_id@ == b.source_id@ && a.target is Mosaic && b.target is Mosaic ==> same_selection(
            a,
            b,
        ),
        a.source_id@ == b.source_id@ && a.target is Site && b.target is Site && a.target->site_id@
            == b.target->site_id@ ==> same_selection(a, b),
{
}

/// With a dish that covers the centre, and none held that does, a dish is chosen, and no
/// dish that covers the centre is nearer; among equally near ones none comes before it
/// by the name of its source, nor by its own name within one source.
pub proof fn nearest_covering_dish_is_chosen(
    candidates: Seq<Candidate>,
    centre: GeoPoint,
    held: Option<Selection>,
    i: int,
)
    requires
        0 <= i < candidates.len(),
        candidates[i].family == Family::Polar,
        candidates[i].coverage is Circle,
        candidates[i].dish matches Some(m) && m <= 1000 * candidates[i].coverage->radius_km,
        held matches Some(h) ==> forall|j: int|
            0 <= j < candidates.len() && (#[trigger] candidates[j]).family == Family::Polar
                && covers(candidates[j], centre) ==> !same_selection(candidates[j].selection, h),
    ensures
        choice(candidates, centre, held) matches Some(c) && {
            &&& candidates.contains(c)
            &&& c.family == Family::Polar
            &&& covers(c, centre)
            &&& c.dish matches Some(n) ==> n <= candidates[i].dish->0
            &&& c.dish == candidates[i].dish ==> !text_before(
                candidates[i].selection.source_id@,
                c.selection.source_id@,
            )
            &&& c.dish == candidates[i].dish && c.selection.source_id@
                == candidates[i].selection.source_id@ && c.selection.target is Site
                && candidates[i].selection.target is Site ==> !text_before(
                candidates[i].selection.target->site_id@,
                c.selection.target->site_id@,
            )
        },
{
    let x = candidates[i];
    assert(in_play(x, Family::Polar, centre));
    best_is_top(candidates, Family::Polar, centre);
    let top = best(candidates, Family::Polar, centre)->0;
    assert(!better(candidates[i], top, Family::Polar));
    if held is Some {
        lemma_held(candidates, Family::Polar, centre, held->0);
        if held_in(candidates, Family::Polar, centre, held->0) is Some {
            let c = held_in(candidates, Family::Polar, centre, held->0)->0;
            let k = choose|k: int| 0 <= k < candidates.len() && candidates[k] == c;
            assert(candidates[k].family == Family::Polar);
        }
    }
    assert(choice(candidates, centre, held) == Some(top));
}

/// A held dish that covers the centre stays until another that does is nearer by a fifth
/// and by a kilometre; then the nearest takes over.
pub proof fn held_dish_hands_over(
    candidates: Seq<Candidate>,
    centre: GeoPoint,
    held: Selection,
    i: int,
)
    requires
        distinct_names(candidates),
        0 <= i < candidates.len(),
        candidates[i].family == Family::Polar,
        candidates[i].coverage is Circle,
        candidates[i].dish matches Some(m) && m <= 1000 * candidates[i].coverage->radius_km,
        same_selection(candidates[i].selection, held),
        forall|j: int|
            0 <= j < candidates.len() && (#[trigger] candidates[j]).family == Family::Polar
                ==> candidates[j].coverage is Circle,
    ensures
        choice(candidates, centre, Some(held)) matches Some(c) && {
            let m = candidates[i].dish->0;
            &&& c.family == Family::Polar && covers(c, centre) && c.dish is Some
            &&& c == candidates[i] || 10 * c.dish->0 < 8 * m && c.dish->0 + 1000 < m
            &&& forall|j: int|
                0 <= j < candidates.len() && (#[trigger] candidates[j]).family == Family::Polar
                    && covers(candidates[j], centre) && 10 * candidates[j].dish->0 < 8 * m
                    && candidates[j].dish->0 + 1000 < m ==> c.dish->0 <= candidates[j].dish->0
        },
{
    let x = candidates[i];
    assert(in_play(x, Family::Polar, centre));
    best_is_top(candidates, Family::Polar, centre);
    lemma_held(candidates, Family::Polar, centre, held);
    let top = best(candidates, Family::Polar, centre)->0;
    let kept = held_in(candidates, Family::Polar, centre, held);
    assert(kept is Some);
    assert(candidates.contains(x));
    lemma_same_names(candidates, kept->0, x);
    let k = choose|k: int| 0 <= k < candidates.len() && candidates[k] == top;
    assert(candidates[k].family == Family::Polar);
    let c = choice(candidates, centre, Some(held))->0;
    assert forall|j: int|
        0 <= j < candidates.len() && (#[trigger] candidates[j]).family == Family::Polar && covers(
            candidates[j],
            centre,
        ) && 10 * candidates[j].dish->0 < 8 * x.dish->0 && candidates[j].dish->0 + 1000
            < x.dish->0 implies c.dish->0 <= candidates[j].dish->0 by {
        assert(in_play(candidates[j], Family::Polar, centre));
        assert(!better(candidates[j], top, Family::Polar));
    }
}

/// Without a dish that covers the centre the choice is a grid that does, and no grid
/// that does has a higher priority. A held one stays among those of the highest
/// priority; otherwise none of them comes before the choice by the name of its source.
pub proof fn highest_grid_is_chosen(
    candidates: Seq<Candidate>,
    centre: GeoPoint,
    held: Option<Selection>,
    i: int,
)
    requires
        distinct_names(candidates),
        forall|j: int|
            0 <= j < candidates.len() && (#[trigger] candidates[j]).family == Family::Polar
                ==> !covers(candidates[j], centre),
        0 <= i < candidates.len(),
        candidates[i].family == Family::Grid,
        covers(candidates[i], centre),
    ensures
        choice(candidates, centre, held) matches Some(c) && {
            &&& candidates.contains(c)
            &&& c.family == Family::Grid
            &&& covers(c, centre)
            &&& c.priority >= candidates[i].priority
            &&& (held is Some ==> forall|j: int|
                0 <= j < candidates.len() && (#[trigger] candidates[j]).family == Family::Grid
                    && covers(candidates[j], centre) ==> !same_selection(
                    candidates[j].selection,
                    held->0,
                )) && c.priority == candidates[i].priority ==> !text_before(
                candidates[i].selection.source_id@,
                c.selection.source_id@,
            )
            &&& (held is Some && same_selection(candidates[i].selection, held->0) && forall|j: int|
                0 <= j < candidates.len() && (#[trigger] candidates[j]).family == Family::Grid
                    && covers(candidates[j], centre) ==> candidates[j].priority
                    <= candidates[i].priority) ==> c == candidates[i]
        },
{
    lemma_chosen(candidates, Family::Polar, centre, held);
    lemma_chosen(candidates, Family::Grid, centre, held);
    best_is_top(candidates, Family::Grid, centre);
    let x = candidates[i];
    assert(in_play(x, Family::Grid, centre));
    if chosen_in(candidates, Family::Polar, centre, held) is Some {
        let c = chosen_in(candidates, Family::Polar, centre, held)->0;
        let k = choose|k: int| 0 <= k < candidates.len() && candidates[k] == c;
        assert(candidates[k].family == Family::Polar);
    }
    let c = choice(candidates, centre, held)->0;
    let top = best(candidates, Family::Grid, centre)->0;
    assert(!better(candidates[i], top, Family::Grid));
    let k = choose|k: int| 0 <= k < candidates.len() && candidates[k] == top;
    assert(candidates[k].family == Family::Grid && covers(candidates[k], centre));
    if held is Some {
        lemma_held(candidates, Family::Grid, centre, held->0);
        if held_in(candidates, Family::Grid, centre, held->0) is Some {
            let kept = held_in(candidates, Family::Grid, centre, held->0)->0;
            let m = choose|m: int| 0 <= m < candidates.len() && candidates[m] == kept;
            assert(candidates[m].family == Family::Grid && covers(candidates[m], centre));
        }
        if same_selection(x.selection, held->0) {
            let kept = held_in(candidates, Family::Grid, centre, held->0);
            assert(candidates.contains(x));
            lemma_same_names(candidates, kept->0, x);
        }
    }
}

/// There is a choice exactly where something covers the centre.
pub proof fn something_is_chosen_where_something_covers(
    candidates: Seq<Candidate>,
    centre: GeoPoint,
    held: Option<Selection>,
)
    ensures
        choice(candidates, centre, held) is Some <==> exists|i: int|
            0 <= i < candidates.len() && covers(#[trigger] candidates[i], centre),
        choice(candidates, centre, held) is Some && choice(candidates, centre, held)->0.family
            == Family::Grid ==> forall|i: int|
            0 <= i < candidates.len() && (#[trigger] candidates[i]).family == Family::Polar
                ==> !covers(candidates[i], centre),
{
    choice_covers(candidates, centre, held);
    if choice(candidates, centre, held) is Some {
        let c = choice(candidates, centre, held)->0;
        let k = choose|k: int| 0 <= k < candidates.len() && candidates[k] == c;
        assert(covers(candidates[k], centre));
        if c.family == Family::Grid {
            assert forall|i: int|
                0 <= i < candidates.len() && (#[trigger] candidates[i]).family
                    == Family::Polar implies !covers(candidates[i], centre) by {
                assert(!in_play(candidates[i], Family::Polar, centre));
            }
        }
    }
}

/// The id of the polar feed.
pub const NEXRAD: &'static str = "nexrad";

/// How far a dish of the polar feed sees.
pub const NEXRAD_RANGE_KM: u32 = 460;

/// 35.33306, the latitude of KTLX.
pub const KTLX_LAT: u64 = 0x4041_aaa1_b5c7_cd8a;

/// -97.27748.
pub const KTLX_LON: u64 = 0xc058_51c2_3b79_52d2;

/// The sources of a build: the dishes of the polar feed, and the mosaic.
#[derive(Debug)]
pub struct SourceRegistry {
    pub sites: Vec<Site>,
}

/// The candidate of a dish at a distance.
pub open spec fn is_dish(c: Candidate, site: Site, metres: u64) -> bool {
    &&& c.selection.source_id@ == NEXRAD@
    &&& (c.selection.target matches AdapterTarget::Site { site_id } && site_id@ == site.id@)
    &&& c.family == Family::Polar
    &&& c.product == ProductClass::Reflectivity
    &&& c.priority == 0
    &&& c.coverage == (Coverage::Circle {
        lat: site.lat,
        lon: site.lon,
        radius_km: site.radius_km,
    })
    &&& c.dish == Some(metres)
}

/// The candidate of the mosaic.
pub open spec fn is_opera(c: Candidate) -> bool {
    &&& c.selection.source_id@ == opera::ID@
    &&& c.selection.target is Mosaic
    &&& c.family == Family::Grid
    &&& c.product == ProductClass::Reflectivity
    &&& c.priority == opera::SELECTION_PRIORITY
    &&& c.coverage == opera::footprint()
    &&& c.dish is None
}

/// Whether these are the candidates of a registry, given how far its dishes are.
pub open spec fn are_candidates(
    candidates: Seq<Candidate>,
    sites: Seq<Site>,
    metres: Seq<u64>,
) -> bool {
    &&& candidates.len() == sites.len() + 1
    &&& forall|i: int|
        0 <= i < sites.len() ==> is_dish(#[trigger] candidates[i], sites[i], metres[i])
    &&& is_opera(candidates.last())
}

impl SourceRegistry {
    /// The sources that are compiled in: of the polar network one dish, KTLX, and the
    /// mosaic. A registry of more dishes is made by listing them in `sites`.
    pub fn compiled() -> (r: SourceRegistry)
        ensures
            r.sites@.len() == 1,
            r.sites@[0].id@ == "KTLX"@,
            r.sites@[0].lat == (Double { bits: KTLX_LAT }),
            r.sites@[0].lon == (Double { bits: KTLX_LON }),
            r.sites@[0].radius_km == NEXRAD_RANGE_KM,
    {
        let mut sites: Vec<Site> = Vec::new();
        sites.push(
            Site {
                id: "KTLX".to_owned(),
                lat: Double { bits: KTLX_LAT },
                lon: Double { bits: KTLX_LON },
                radius_km: NEXRAD_RANGE_KM,
            },
        );
        SourceRegistry { sites }
    }

    /// The candidates, given how far each dish is from the centre, in metres.
    pub fn candidates(&self, metres: &[u64]) -> (r: Vec<Candidate>)
        requires
            metres@.len() == self.sites@.len(),
        ensures
            are_candidates(r@, self.sites@, metres@),
    {
        let mut r: Vec<Candidate> = Vec::new();
        let mut i: usize = 0;
        while i < self.sites.len()
            invariant
                metres@.len() == self.sites@.len(),
                i <= self.sites@.len(),
                r@.len() == i,
                forall|j: int|
                    0 <= j < i ==> is_dish(#[trigger] r@[j], self.sites@[j], metres@[j]),
            decreases self.sites@.len() - i,
        {
            let site = &self.sites[i];
            r.push(
                Candidate {
                    selection: Selection {
                        source_id: NEXRAD.to_owned(),
                        target: AdapterTarget::Site { site_id: site.id.clone() },
                    },
                    family: Family::Polar,
                    product: ProductClass::Reflectivity,
                    priority: 0,
                    coverage: Coverage::Circle {
                        lat: site.lat,
                        lon: site.lon,
                        radius_km: site.radius_km,
                    },
                    dish: Some(metres[i]),
                },
            );
            i = i + 1;
        }
        r.push(
            Candidate {
                selection: Selection {
                    source_id: opera::ID.to_owned(),
                    target: AdapterTarget::Mosaic,
                },
                family: Family::Grid,
                product: ProductClass::Reflectivity,
                priority: opera::SELECTION_PRIORITY,
                coverage: opera::coverage(),
                dish: None,
            },
        );
        r
    }

    /// The selection for a settled centre among the compiled sources.
    pub fn covering_selection(
        &self,
        centre: GeoPoint,
        held: Option<&Selection>,
        metres: &[u64],
    ) -> (r: Option<Selection>)
        requires
            metres@.len() == self.sites@.len(),
        ensures
            exists|candidates: Seq<Candidate>| #[trigger]
                are_candidates(candidates, self.sites@, metres@) && r == (match choice(
                    candidates,
                    centre,
                    match held {
                        Some(h) => Some(*h),
                        None => None,
                    },
                ) {
                    Some(c) => Some(c.selection),
                    None => None,
                }),
    {
        let candidates = self.candidates(metres);
        assert(are_candidates(candidates@, self.sites@, metres@));
        covering_selection(centre, held, candidates.as_slice())
    }
}

/// The candidates of a registry are its dishes, each at its distance and with its own
/// range, and behind them the mosaic.
pub proof fn candidates_are_the_sources(
    candidates: Seq<Candidate>,
    sites: Seq<Site>,
    metres: Seq<u64>,
    i: int,
)
    requires
        are_candidates(candidates, sites, metres),
        0 <= i < sites.len(),
    ensures
        candidates.len() == sites.len() + 1,
        ({
            let c = candidates[i];
            &&& c.selection.source_id@ == "nexrad"@
            &&& c.selection.target is Site && c.selection.target->site_id@ == sites[i].id@
            &&& c.family == Family::Polar && c.product == ProductClass::Reflectivity
            &&& c.coverage is Circle && c.coverage->radius_km == sites[i].radius_km
            &&& c.coverage->Circle_lat == sites[i].lat && c.coverage->Circle_lon == sites[i].lon
            &&& c.dish == Some(metres[i])
        }),
        ({
            let m = candidates[sites.len() as int];
            &&& m.selection.source_id@ == "opera"@
            &&& m.selection.target is Mosaic
            &&& m.family == Family::Grid && m.product == ProductClass::Reflectivity
            &&& m.priority == 10
            &&& m.coverage is Box && m.dish is None
        }),
{
    assert(is_dish(candidates[i], sites[i], metres[i]));
}

/// The dish that is compiled in stands at 35.33306 north and 97.27748 west, to a
/// millionth of a degree, and sees 460 kilometres far.
pub proof fn compiled_dish_stands_near_oklahoma_city()
    ensures
        ({
            let u = pow2(1074) as int;
            let lat = (Double { bits: KTLX_LAT }).value();
            let lon = (Double { bits: KTLX_LON }).value();
            &&& 35_333_059 * u <= 1_000_000 * lat <= 35_333_061 * u
            &&& -97_277_481 * u <= 1_000_000 * lon <= -97_277_479 * u
        }),
        NEXRAD_RANGE_KM == 460,
        NEXRAD@ == "nexrad"@,
{
    lemma2_to64();
    lemma2_to64_rest();
    let h = HIDDEN64 as int;
    let s: int = 0x11_aaa1_b5c7_cd8a;
    let t: int = 0x18_51c2_3b79_52d2;
    let lat = Double { bits: KTLX_LAT };
    let lon = Double { bits: KTLX_LON };
    assert(lat.magnitude() == h * 1028 + (s - h));
    assert(lon.magnitude() == h * 1029 + (t - h));
    lemma_fundamental_div_mod_converse(lat.magnitude(), h, 1028, s - h);
    lemma_fundamental_div_mod_converse(lon.magnitude(), h, 1029, t - h);
    let p = pow2(1027) as int;
    lemma_pow2_pos(1027);
    lemma_pow2_adds(1027, 47);
    lemma_pow2_unfold(1028);
    let u = pow2(1074) as int;
    let k: int = 0x8000_0000_0000;
    assert(u == p * k);
    assert(35_333_059 * (p * k) <= 1_000_000 * (s * p) <= 35_333_061 * (p * k)) by (nonlinear_arith)
        requires
            35_333_059 * k <= 1_000_000 * s <= 35_333_061 * k,
            p >= 1,
    ;
    assert(97_277_479 * (p * k) <= 1_000_000 * (t * (2 * p)) <= 97_277_481 * (p * k))
        by (nonlinear_arith)
        requires
            97_277_479 * k <= 2_000_000 * t <= 97_277_481 * k,
            p >= 1,
    ;
}

} // verus!
