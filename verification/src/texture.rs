//! Turning measured values into the pixels of a grid texture.
//!
//! A pixel holds, in R, the palette class plus one; in G, 1 for missing and 2 for
//! undetected; zero in B and 255 in A.

use crate::ieee::{
    half_is_half, key_orders, near_is_less_than_one_apart, single_key_orders,
    single_patterns_tell_the_value, steps, Double, Single, HIDDEN64, INFINITE64,
};
use vstd::arithmetic::power2::pow2;
use vstd::prelude::*;

verus! {

/// -9999000, which stands for a missing value unless a raster names another.
pub const FILL: u32 = 0xcb18_9298;

/// The height of a value on the scale of binary64 numbers.
pub open spec fn level(v: Single) -> int {
    if v.is_finite() {
        v.value() * pow2(925)
    } else if v.negative() {
        -steps(INFINITE64 as int, HIDDEN64 as int)
    } else {
        steps(INFINITE64 as int, HIDDEN64 as int)
    }
}

pub open spec fn reaches(level: int, edge: Double) -> bool {
    !edge.is_nan() && edge.value() <= level
}

pub open spec fn under(level: int, edge: Double) -> bool {
    !edge.is_nan() && level < edge.value()
}

/// The first edge from `from` on that lies above the level while the one before it
/// does not, or the number of edges.
pub open spec fn upper_edge(level: int, bounds: Seq<Double>, from: int) -> int
    decreases bounds.len() - from,
{
    if from >= bounds.len() {
        bounds.len() as int
    } else if reaches(level, bounds[from - 1]) && under(level, bounds[from]) {
        from
    } else {
        upper_edge(level, bounds, from + 1)
    }
}

/// The last edge, counted from one, that the level reaches, or zero.
pub open spec fn last_reached(level: int, bounds: Seq<Double>) -> int
    decreases bounds.len(),
{
    if bounds.len() < 2 {
        0
    } else if reaches(level, bounds.last()) {
        bounds.len() - 1
    } else {
        last_reached(level, bounds.drop_last())
    }
}

/// The interval of a level: the first that holds it, or else the one below the last
/// edge that it reaches.
pub open spec fn interval(level: int, bounds: Seq<Double>) -> int {
    if bounds.len() < 2 {
        0
    } else if upper_edge(level, bounds, 1) < bounds.len() {
        upper_edge(level, bounds, 1) - 1
    } else if last_reached(level, bounds) > 0 {
        last_reached(level, bounds) - 1
    } else {
        0
    }
}

/// The class of a level, as a byte: its interval, but at most the last class.
pub open spec fn class_byte(level: int, bounds: Seq<Double>, classes: int) -> int {
    if interval(level, bounds) < classes - 1 {
        interval(level, bounds) % 256
    } else {
        (classes - 1) % 256
    }
}

proof fn lemma_edges(level: int, bounds: Seq<Double>, from: int)
    requires
        1 <= from,
        from <= bounds.len(),
    ensures
        from <= upper_edge(level, bounds, from) <= bounds.len(),
    decreases bounds.len() - from,
{
    if from < bounds.len() {
        lemma_edges(level, bounds, from + 1);
    }
}

proof fn lemma_last_reached(level: int, bounds: Seq<Double>)
    ensures
        0 <= last_reached(level, bounds),
        bounds.len() > 0 ==> last_reached(level, bounds) < bounds.len(),
    decreases bounds.len(),
{
    if bounds.len() >= 2 {
        lemma_last_reached(level, bounds.drop_last());
    }
}

proof fn lemma_interval(level: int, bounds: Seq<Double>)
    ensures
        0 <= interval(level, bounds),
        bounds.len() >= 2 ==> interval(level, bounds) <= bounds.len() - 2,
{
    if bounds.len() >= 2 {
        lemma_edges(level, bounds, 1);
        lemma_last_reached(level, bounds);
    }
}

/// No edge is a NaN or lies below the one before it.
pub open spec fn never_descend(bounds: Seq<Double>) -> bool {
    &&& forall|i: int| 0 <= i < bounds.len() ==> !(#[trigger] bounds[i]).is_nan()
    &&& forall|i: int, j: int|
        0 <= i < j < bounds.len() ==> (#[trigger] bounds[i]).value() <= (
        #[trigger] bounds[j]).value()
}

/// How many of the edges from the second to the `n`-th a level reaches.
pub open spec fn reached_among(level: int, bounds: Seq<Double>, n: int) -> int
    decreases n,
{
    if n <= 1 {
        0
    } else {
        reached_among(level, bounds, n - 1) + if reaches(level, bounds[n - 1]) {
            1int
        } else {
            0
        }
    }
}

pub open spec fn least(a: int, b: int) -> int {
    if a <= b {
        a
    } else {
        b
    }
}

/// Where the edges do not descend, a level between two neighbours has their interval,
/// one below all of them the first, and one at or above all of them the last.
pub proof fn interval_lies_between_its_edges(level: int, bounds: Seq<Double>, k: int)
    requires
        bounds.len() >= 2,
        never_descend(bounds),
        0 <= k < bounds.len() - 1,
    ensures
        bounds[k].value() <= level < bounds[k + 1].value() ==> interval(level, bounds) == k,
        level < bounds[0].value() ==> interval(level, bounds) == 0,
        bounds.last().value() <= level ==> interval(level, bounds) == bounds.len() - 2,
{
    let n = bounds.len() as int;
    if bounds[k].value() <= level < bounds[k + 1].value() {
        lemma_upper_edge_at(level, bounds, 1, k + 1);
    } else if level < bounds[0].value() {
        lemma_none_reached(level, bounds);
        lemma_no_upper_edge(level, bounds, 1);
    } else if bounds.last().value() <= level {
        assert forall|i: int| 1 <= i < n implies !under(level, #[trigger] bounds[i]) by {
            if i < n - 1 {
                assert(bounds[i].value() <= bounds[n - 1].value());
            }
        }
        lemma_no_upper_edge(level, bounds, 1);
    }
}

/// Where the edges do not descend, the interval of a level is the number of inner edges
/// that it reaches, and its class is that number, but at most the last class, as a byte.
pub proof fn interval_counts_inner_edges(level: int, bounds: Seq<Double>, classes: int)
    requires
        bounds.len() >= 2,
        never_descend(bounds),
    ensures
        interval(level, bounds) == reached_among(level, bounds, bounds.len() - 1),
        class_byte(level, bounds, classes) == least(
            reached_among(level, bounds, bounds.len() - 1),
            classes - 1,
        ) % 256,
{
    let n = bounds.len() as int;
    if level < bounds[0].value() {
        interval_lies_between_its_edges(level, bounds, 0);
        lemma_none_reached(level, bounds);
        lemma_reached_up_to(level, bounds, 0, n - 1);
    } else if bounds.last().value() <= level {
        interval_lies_between_its_edges(level, bounds, 0);
        lemma_reached_up_to(level, bounds, n - 1, n - 1);
    } else {
        let k = lemma_neighbours(level, bounds, n - 1);
        interval_lies_between_its_edges(level, bounds, k);
        lemma_reached_up_to(level, bounds, k, n - 1);
    }
}

/// A level from the first edge on and below the `n`-th lies between two neighbours.
proof fn lemma_neighbours(level: int, bounds: Seq<Double>, n: int) -> (k: int)
    requires
        1 <= n < bounds.len(),
        bounds[0].value() <= level < bounds[n].value(),
    ensures
        0 <= k < n,
        bounds[k].value() <= level < bounds[k + 1].value(),
    decreases n,
{
    if bounds[n - 1].value() <= level {
        n - 1
    } else {
        lemma_neighbours(level, bounds, n - 1)
    }
}

/// A level that reaches the edges up to `k` and none behind reaches so many inner ones.
proof fn lemma_reached_up_to(level: int, bounds: Seq<Double>, k: int, n: int)
    requires
        0 <= k < bounds.len(),
        0 <= n < bounds.len(),
        never_descend(bounds),
        k > 0 ==> bounds[k].value() <= level,
        k + 1 < bounds.len() ==> level < bounds[k + 1].value(),
    ensures
        reached_among(level, bounds, n) == if n <= 1 {
            0
        } else if n - 1 < k {
            n - 1
        } else {
            k
        },
    decreases n,
{
    if n > 1 {
        lemma_reached_up_to(level, bounds, k, n - 1);
        if n - 1 < k {
            assert(bounds[n - 1].value() <= bounds[k].value());
        } else if n - 1 > k + 1 {
            assert(bounds[k + 1].value() <= bounds[n - 1].value());
        }
    }
}

proof fn lemma_upper_edge_at(level: int, bounds: Seq<Double>, from: int, at: int)
    requires
        1 <= from <= at < bounds.len(),
        reaches(level, bounds[at - 1]),
        under(level, bounds[at]),
        never_descend(bounds),
    ensures
        upper_edge(level, bounds, from) == at,
    decreases at - from,
{
    if from < at {
        if from < at - 1 {
            assert(bounds[from].value() <= bounds[at - 1].value());
        }
        assert(!under(level, bounds[from]));
        lemma_upper_edge_at(level, bounds, from + 1, at);
    }
}

proof fn lemma_no_upper_edge(level: int, bounds: Seq<Double>, from: int)
    requires
        1 <= from,
        forall|i: int|
            1 <= i < bounds.len() ==> !(reaches(level, bounds[i - 1]) && under(
                level,
                #[trigger] bounds[i],
            )),
    ensures
        upper_edge(level, bounds, from) == bounds.len(),
    decreases bounds.len() - from,
{
    if from < bounds.len() {
        assert(!(reaches(level, bounds[from - 1]) && under(level, bounds[from])));
        lemma_no_upper_edge(level, bounds, from + 1);
    }
}

proof fn lemma_none_reached(level: int, bounds: Seq<Double>)
    requires
        bounds.len() > 0,
        level < bounds[0].value(),
        never_descend(bounds),
    ensures
        last_reached(level, bounds) == 0,
        forall|i: int| 0 <= i < bounds.len() ==> !reaches(level, #[trigger] bounds[i]),
    decreases bounds.len(),
{
    let n = bounds.len() as int;
    assert forall|i: int| 0 <= i < n implies !reaches(level, #[trigger] bounds[i]) by {
        if i > 0 {
            assert(bounds[0].value() <= bounds[i].value());
        }
    }
    if n >= 2 {
        lemma_none_reached(level, bounds.drop_last());
    }
}

/// The class of a value among the edges of the palette; a NaN has class 0.
pub fn class_of(value: Double, bounds: &[Double], classes: usize) -> (r: u8)
    requires
        classes >= 1,
    ensures
        !value.is_nan() ==> r == class_byte(value.value(), bounds@, classes as int),
        value.is_nan() ==> r == 0,
{
    if bounds.len() < 2 || value.nan() {
        return 0;
    }
    let ghost level = value.value();
    let mut above: usize = 0;
    let mut i: usize = 1;
    assert(bounds@.take(1).len() < 2);
    while i < bounds.len()
        invariant
            1 <= i <= bounds@.len(),
            classes >= 1,
            level == value.value(),
            !value.is_nan(),
            bounds@.len() >= 2,
            above == last_reached(level, bounds@.take(i as int)),
            upper_edge(level, bounds@, 1) == upper_edge(level, bounds@, i as int),
        decreases bounds@.len() - i,
    {
        let edge = bounds[i];
        if bounds[i - 1].less_or_same(value) && value.less(edge) {
            return low_byte(at_most_last(i - 1, classes));
        }
        assert(bounds@.take(i + 1).drop_last() =~= bounds@.take(i as int));
        assert(bounds@.take(i + 1).last() == edge);
        if edge.less_or_same(value) {
            above = i;
        }
        i = i + 1;
    }
    assert(bounds@.take(bounds@.len() as int) =~= bounds@);
    let lower: usize = if above > 0 {
        above - 1
    } else {
        0
    };
    low_byte(at_most_last(lower, classes))
}

fn at_most_last(i: usize, classes: usize) -> (r: usize)
    requires
        classes >= 1,
    ensures
        r == if i < classes - 1 {
            i as int
        } else {
            classes - 1
        },
{
    if i < classes - 1 {
        i
    } else {
        classes - 1
    }
}

fn low_byte(n: usize) -> (r: u8)
    ensures
        r == n % 256,
{
    assert(n as u8 == n % 256) by (bit_vector);
    #[verifier::truncate]
    (n as u8)
}

/// What a value is painted as.
pub enum Paint {
    Undetected,
    Missing,
    Class(int),
}

/// The value that stands for a missing one.
pub open spec fn fill_of(nodata: Option<Single>) -> Single {
    match nodata {
        Some(v) => v,
        None => Single { bits: FILL },
    }
}

/// A NaN is undetected; a value near the fill value, or at or below half of it, is
/// missing; every other has a class.
pub open spec fn paint(
    v: Single,
    fill: Single,
    bounds: Seq<Double>,
    classes: int,
) -> Paint {
    if v.is_nan() {
        Paint::Undetected
    } else if v.near(fill) || !fill.is_nan() && v.value() <= fill.half_value() {
        Paint::Missing
    } else {
        Paint::Class(class_byte(level(v), bounds, classes))
    }
}

pub open spec fn pixel(p: Paint) -> Seq<u8> {
    match p {
        Paint::Undetected => seq![0u8, 2, 0, 255],
        Paint::Missing => seq![0u8, 1, 0, 255],
        Paint::Class(c) => seq![(c + 1) as u8, 0, 0, 255],
    }
}

pub open spec fn at_least_one(classes: nat) -> int {
    if classes == 0 {
        1
    } else {
        classes as int
    }
}

/// Every class plus one is a byte.
pub open spec fn classes_fit(
    values: Seq<Single>,
    nodata: Option<Single>,
    bounds: Seq<Double>,
    classes: nat,
) -> bool {
    forall|i: int|
        0 <= i < values.len() ==> paint(
            #[trigger] values[i],
            fill_of(nodata),
            bounds,
            at_least_one(classes),
        ) != Paint::Class(255)
}

/// The pixels of the values in a row.
pub open spec fn pixels_of(
    values: Seq<Single>,
    nodata: Option<Single>,
    bounds: Seq<Double>,
    classes: nat,
) -> Seq<u8>
    decreases values.len(),
{
    if values.len() == 0 {
        Seq::empty()
    } else {
        pixels_of(values.drop_last(), nodata, bounds, classes) + pixel(
            paint(values.last(), fill_of(nodata), bounds, at_least_one(classes)),
        )
    }
}

/// A palette of at most 255 colours, or at most 256 edges, always fits.
pub proof fn small_palette_fits(
    values: Seq<Single>,
    nodata: Option<Single>,
    bounds: Seq<Double>,
    classes: nat,
)
    requires
        classes <= 255 || bounds.len() <= 256,
    ensures
        classes_fit(values, nodata, bounds, classes),
{
    assert forall|i: int| 0 <= i < values.len() implies paint(
        #[trigger] values[i],
        fill_of(nodata),
        bounds,
        at_least_one(classes),
    ) != Paint::Class(255) by {
        lemma_interval(level(values[i]), bounds);
    }
}

/// There are four bytes for each value, the last of them 255.
pub proof fn pixels_are_opaque(
    values: Seq<Single>,
    nodata: Option<Single>,
    bounds: Seq<Double>,
    classes: nat,
)
    ensures
        pixels_of(values, nodata, bounds, classes).len() == 4 * values.len(),
        forall|i: int|
            0 <= i < values.len() ==> #[trigger] pixels_of(values, nodata, bounds, classes).subrange(
                4 * i,
                4 * i + 4,
            ) == pixel(paint(values[i], fill_of(nodata), bounds, at_least_one(classes))),
    decreases values.len(),
{
    if values.len() > 0 {
        let prior = values.drop_last();
        let rest = pixels_of(prior, nodata, bounds, classes);
        let all = pixels_of(values, nodata, bounds, classes);
        pixels_are_opaque(prior, nodata, bounds, classes);
        let last = pixel(paint(values.last(), fill_of(nodata), bounds, at_least_one(classes)));
        assert(last.len() == 4);
        assert forall|i: int| 0 <= i < values.len() implies #[trigger] all.subrange(
            4 * i,
            4 * i + 4,
        ) == pixel(paint(values[i], fill_of(nodata), bounds, at_least_one(classes))) by {
            if i < prior.len() {
                assert(all.subrange(4 * i, 4 * i + 4) =~= rest.subrange(4 * i, 4 * i + 4));
                assert(prior[i] == values[i]);
            } else {
                assert(all.subrange(4 * i, 4 * i + 4) =~= last);
            }
        }
    }
}

fn paint_value(v: Single, fill: Single, half: Single, bounds: &[Double], classes: usize) -> (r: (
    Option<u8>,
    u8,
))
    requires
        classes >= 1,
        half.is_nan() == fill.is_nan(),
        !fill.is_nan() ==> half.value() == fill.half_value(),
    ensures
        match paint(v, fill, bounds@, classes as int) {
            Paint::Undetected => r == (Some(0u8), 2u8),
            Paint::Missing => r == (Some(0u8), 1u8),
            Paint::Class(c) => 0 <= c <= 255 && r == (if c == 255 {
                None
            } else {
                Some((c + 1) as u8)
            }, 0u8),
        },
{
    if v.nan() {
        (Some(0), 2)
    } else if v.close_to(fill) || v.less_or_same(half) {
        (Some(0), 1)
    } else {
        let wide = v.widen();
        proof {
            assert(wide.value() == level(v));
            lemma_interval(level(v), bounds@);
        }
        (class_of(wide, bounds, classes).checked_add(1), 0)
    }
}

/// Whether every class plus one is a byte.
pub fn check_classes(
    values: &[Single],
    nodata: Option<Single>,
    bounds: &[Double],
    classes: usize,
) -> (r: bool)
    ensures
        r == classes_fit(values@, nodata, bounds@, classes as nat),
{
    if classes <= 255 || bounds.len() <= 256 {
        proof {
            small_palette_fits(values@, nodata, bounds@, classes as nat);
        }
        return true;
    }
    let fill: Single = match nodata {
        Some(v) => v,
        None => Single { bits: FILL },
    };
    let half = fill.half();
    let mut i: usize = 0;
    while i < values.len()
        invariant
            i <= values@.len(),
            classes >= 1,
            fill == fill_of(nodata),
            half.is_nan() == fill.is_nan(),
            !fill.is_nan() ==> half.value() == fill.half_value(),
            forall|j: int|
                0 <= j < i ==> paint(
                    #[trigger] values@[j],
                    fill,
                    bounds@,
                    at_least_one(classes as nat),
                ) != Paint::Class(255),
        decreases values@.len() - i,
    {
        if paint_value(values[i], fill, half, bounds, classes).0.is_none() {
            assert(paint(values@[i as int], fill, bounds@, classes as int) == Paint::Class(255));
            return false;
        }
        i = i + 1;
    }
    true
}

/// Classifies measured values into the grid texture's encoding.
pub fn classify(values: &[Single], nodata: Option<Single>, bounds: &[Double], classes: usize) -> (r:
    Vec<u8>)
    requires
        classes_fit(values@, nodata, bounds@, classes as nat),
    ensures
        r@ == pixels_of(values@, nodata, bounds@, classes as nat),
{
    let most: usize = if classes == 0 {
        1
    } else {
        classes
    };
    let fill: Single = match nodata {
        Some(v) => v,
        None => Single { bits: FILL },
    };
    let half = fill.half();
    let mut r: Vec<u8> = Vec::new();
    let mut i: usize = 0;
    while i < values.len()
        invariant
            i <= values@.len(),
            most == at_least_one(classes as nat),
            fill == fill_of(nodata),
            half.is_nan() == fill.is_nan(),
            !fill.is_nan() ==> half.value() == fill.half_value(),
            classes_fit(values@, nodata, bounds@, classes as nat),
            r@ == pixels_of(values@.take(i as int), nodata, bounds@, classes as nat),
        decreases values@.len() - i,
    {
        let ghost fewer = r@;
        assert(paint(values@[i as int], fill, bounds@, most as int) != Paint::Class(255));
        let (red, green): (Option<u8>, u8) = paint_value(values[i], fill, half, bounds, most);
        let red: u8 = red.unwrap();
        r.push(red);
        r.push(green);
        r.push(0);
        r.push(255);
        proof {
            let longer = values@.take(i + 1);
            assert(longer.drop_last() =~= values@.take(i as int));
            assert(longer.last() == values@[i as int]);
            assert(r@ =~= fewer + seq![red, green, 0, 255]);
        }
        i = i + 1;
    }
    assert(values@.take(values@.len() as int) =~= values@);
    r
}

/// The interval of a level is past exactly the inner edges that the level reaches.
#[verifier::spinoff_prover]
proof fn lemma_interval_past(level: int, bounds: Seq<Double>) -> (at: int)
    requires
        bounds.len() >= 2,
        never_descend(bounds),
    ensures
        at == interval(level, bounds),
        0 <= at <= bounds.len() - 2,
        forall|j: int|
            1 <= j < bounds.len() - 1 ==> (j <= at <==> (#[trigger] bounds[j]).value() <= level),
{
    let n = bounds.len() as int;
    if level < bounds[0].value() {
        interval_lies_between_its_edges(level, bounds, 0);
        assert forall|j: int| 1 <= j < n - 1 implies (#[trigger] bounds[j]).value() > level by {
            assert(bounds[0].value() <= bounds[j].value());
        }
        0
    } else if bounds.last().value() <= level {
        interval_lies_between_its_edges(level, bounds, 0);
        assert forall|j: int| 1 <= j < n - 1 implies (#[trigger] bounds[j]).value() <= level by {
            assert(bounds[j].value() <= bounds[n - 1].value());
        }
        n - 2
    } else {
        let k = lemma_neighbours(level, bounds, n - 1);
        interval_lies_between_its_edges(level, bounds, k);
        assert forall|j: int| 1 <= j < n - 1 implies (j <= k <==> (#[trigger] bounds[j]).value()
            <= level) by {
            if j < k {
                assert(bounds[j].value() <= bounds[k].value());
            } else if k + 1 < j {
                assert(bounds[k + 1].value() <= bounds[j].value());
            }
        }
        k
    }
}

/// The class of a level among edges that do not descend: it is past exactly the inner
/// edges that the level reaches, as far as there are classes.
pub proof fn class_is_past_the_reached_edges(level: int, bounds: Seq<Double>, classes: int)
    requires
        bounds.len() >= 2,
        forall|i: int| 0 <= i < bounds.len() ==> !(#[trigger] bounds[i]).is_nan(),
        forall|i: int, j: int|
            0 <= i < j < bounds.len() ==> (#[trigger] bounds[i]).value() <= (
            #[trigger] bounds[j]).value(),
        1 <= classes <= 256,
    ensures
        0 <= class_byte(level, bounds, classes) <= classes - 1,
        class_byte(level, bounds, classes) <= bounds.len() - 2,
        forall|k: int|
            1 <= k < bounds.len() - 1 ==> (k <= class_byte(level, bounds, classes) <==> k <= classes
                - 1 && (#[trigger] bounds[k]).value() <= level),
{
    let c = class_byte(level, bounds, classes);
    let at = lemma_interval_past(level, bounds);
    assert(c == if at < classes - 1 {
        at
    } else {
        classes - 1
    });
}

#[verifier::spinoff_prover]
proof fn lemma_four_bytes(
    values: Seq<Single>,
    nodata: Option<Single>,
    bounds: Seq<Double>,
    classes: nat,
    i: int,
)
    requires
        0 <= i < values.len(),
    ensures
        ({
            let p = pixels_of(values, nodata, bounds, classes);
            let (r, g) = (p[4 * i], p[4 * i + 1]);
            &&& p.len() == 4 * values.len()
            &&& p[4 * i + 2] == 0 && p[4 * i + 3] == 255
            &&& match paint(values[i], fill_of(nodata), bounds, at_least_one(classes)) {
                Paint::Undetected => r == 0 && g == 2,
                Paint::Missing => r == 0 && g == 1,
                Paint::Class(c) => r == (c + 1) as u8 && g == 0,
            }
        }),
{
    let p = pixels_of(values, nodata, bounds, classes);
    pixels_are_opaque(values, nodata, bounds, classes);
    let four = pixel(paint(values[i], fill_of(nodata), bounds, at_least_one(classes)));
    let part = p.subrange(4 * i, 4 * i + 4);
    assert(part == four);
    assert(p[4 * i] == part[0] && p[4 * i + 1] == part[1]);
    assert(p[4 * i + 2] == part[2] && p[4 * i + 3] == part[3]);
}

proof fn lemma_class_fits(v: Single, fill: Single, bounds: Seq<Double>, classes: nat)
    requires
        classes <= 255,
    ensures
        paint(v, fill, bounds, at_least_one(classes)) matches Paint::Class(c) ==> {
            &&& 0 <= c <= at_least_one(classes) - 1
            &&& c == class_byte(level(v), bounds, at_least_one(classes))
            &&& bounds.len() < 2 ==> c == 0
        },
{
    lemma_interval(level(v), bounds);
}

#[verifier::spinoff_prover]
proof fn lemma_paint_goes_by_size(v: Single, fill: Single, bounds: Seq<Double>, classes: int)
    ensures
        ({
            let p = paint(v, fill, bounds, classes);
            let apart = if v.value() < fill.value() {
                fill.value() - v.value()
            } else {
                v.value() - fill.value()
            };
            &&& p is Undetected <==> v.is_nan()
            &&& !v.is_nan() && fill.is_finite() && 2 * v.value() <= fill.value() ==> p is Missing
            &&& v.is_finite() && fill.is_finite() && apart < pow2(149) - pow2(124) ==> p is Missing
            &&& !v.is_nan() && fill.is_finite() && 2 * v.value() > fill.value() + 1 && (
            v.is_finite() ==> apart >= pow2(149) - pow2(124)) ==> p is Class
            &&& !v.is_nan() && fill.is_nan() ==> p is Class
            &&& !v.is_nan() && fill.bits == 0x7f80_0000 ==> p is Missing
            &&& !v.is_nan() && fill.bits == 0xff80_0000 ==> (p is Missing <==> v.bits
                == 0xff80_0000)
        }),
{
    near_is_less_than_one_apart(v, fill);
    single_key_orders(v, fill);
    if fill.is_finite() {
        half_is_half(fill);
    }
}

/// Positive infinity reaches every edge.
#[verifier::spinoff_prover]
proof fn lemma_top_class(v: Single, bounds: Seq<Double>)
    requires
        v.bits == 0x7f80_0000,
        bounds.len() >= 2,
        never_descend(bounds),
    ensures
        interval(level(v), bounds) == bounds.len() - 2,
{
    let n = bounds.len() as int;
    let top = Double { bits: INFINITE64 };
    assert(top.value() == level(v));
    key_orders(top, bounds[n - 1]);
    interval_lies_between_its_edges(level(v), bounds, 0);
}

/// Each value has four bytes. G is 2 for a NaN and for nothing else, 1 for a missing
/// value, and 0 for a measured one; only a measured one has an R; B is 0 and A is 255.
/// A value is missing where it lies within 1 of the fill value or is no more than half
/// of it, and measured where it is neither.
pub proof fn values_are_told_apart(
    values: Seq<Single>,
    nodata: Option<Single>,
    bounds: Seq<Double>,
    classes: nat,
    i: int,
)
    requires
        0 <= i < values.len(),
        classes <= 255,
    ensures
        ({
            let p = pixels_of(values, nodata, bounds, classes);
            let v = values[i];
            let fill = match nodata {
                Some(f) => f,
                None => Single { bits: 0xcb18_9298 },
            };
            let (r, g) = (p[4 * i], p[4 * i + 1]);
            let apart = if v.value() < fill.value() {
                fill.value() - v.value()
            } else {
                v.value() - fill.value()
            };
            &&& p.len() == 4 * values.len()
            &&& p[4 * i + 2] == 0 && p[4 * i + 3] == 255
            &&& g == 0 || g == 1 || g == 2
            &&& g == 2 <==> 0x7f80_0000 < v.bits < 0x8000_0000 || 0xff80_0000 < v.bits
            &&& r == 0 <==> g != 0
            &&& g == 0 ==> r == 1 + class_byte(level(v), bounds, if classes == 0 {
                1
            } else {
                classes as int
            })
            &&& v.is_finite() ==> level(v) == v.value() * pow2(925)
            &&& !v.is_nan() && fill.is_finite() && 2 * v.value() <= fill.value() ==> g == 1
            &&& v.is_finite() && fill.is_finite() && apart < pow2(149) - pow2(124) ==> g == 1
            &&& !v.is_nan() && fill.is_finite() && 2 * v.value() > fill.value() + 1 && (
            v.is_finite() ==> apart >= pow2(149) - pow2(124)) ==> g == 0
            &&& !v.is_nan() && fill.is_nan() ==> g == 0
            &&& !v.is_nan() && fill.bits == 0x7f80_0000 ==> g == 1
            &&& !v.is_nan() && fill.bits == 0xff80_0000 ==> (g == 1 <==> v.bits == 0xff80_0000)
        }),
{
    let v = values[i];
    let fill = fill_of(nodata);
    lemma_four_bytes(values, nodata, bounds, classes, i);
    lemma_class_fits(v, fill, bounds, classes);
    lemma_paint_goes_by_size(v, fill, bounds, at_least_one(classes));
    single_patterns_tell_the_value(v);
}

/// A measured value is painted with the palette class that its size has: where the edges
/// do not descend, R is one more than the number of inner edges that are not above the
/// value, but no more than the number of colours. Without two edges it is 1.
pub proof fn measured_values_are_painted_by_size(
    values: Seq<Single>,
    nodata: Option<Single>,
    bounds: Seq<Double>,
    classes: nat,
    i: int,
)
    requires
        0 <= i < values.len(),
        classes <= 255,
        pixels_of(values, nodata, bounds, classes)[4 * i + 1] == 0,
        forall|a: int| 0 <= a < bounds.len() ==> !(#[trigger] bounds[a]).is_nan(),
        forall|a: int, b: int|
            0 <= a < b < bounds.len() ==> (#[trigger] bounds[a]).value() <= (
            #[trigger] bounds[b]).value(),
    ensures
        ({
            let r = pixels_of(values, nodata, bounds, classes)[4 * i];
            let v = values[i];
            &&& 1 <= r
            &&& classes == 0 ==> r == 1
            &&& classes > 0 ==> r <= classes
            &&& bounds.len() < 2 ==> r == 1
            &&& bounds.len() >= 2 ==> r <= bounds.len() - 1
            &&& v.is_finite() && classes > 0 ==> forall|k: int|
                1 <= k < bounds.len() - 1 ==> (k < r <==> k < classes && (
                #[trigger] bounds[k]).value() <= v.value() * pow2(925))
            &&& v.bits == 0x7f80_0000 && bounds.len() >= 2 && classes > 0 ==> r == (if classes <= bounds.len() - 1 {
                classes as int
            } else {
                bounds.len() - 1
            })
        }),
{
    let v = values[i];
    let fill = fill_of(nodata);
    lemma_four_bytes(values, nodata, bounds, classes, i);
    lemma_class_fits(v, fill, bounds, classes);
    if bounds.len() >= 2 {
        class_is_past_the_reached_edges(level(v), bounds, at_least_one(classes));
        if v.bits == 0x7f80_0000 {
            lemma_top_class(v, bounds);
        }
    }
}

/// Whatever the order of the edges, a level belongs to the first interval that holds it.
pub proof fn first_interval_that_holds_counts(level: int, bounds: Seq<Double>, k: int)
    requires
        1 <= k < bounds.len(),
        !bounds[k - 1].is_nan() && !bounds[k].is_nan(),
        bounds[k - 1].value() <= level < bounds[k].value(),
        forall|j: int|
            1 <= j < k ==> !(!bounds[j - 1].is_nan() && bounds[j - 1].value() <= level
                && !bounds[j].is_nan() && level < (#[trigger] bounds[j]).value()),
    ensures
        interval(level, bounds) == k - 1,
{
    lemma_first_upper_edge(level, bounds, 1, k);
}

proof fn lemma_first_upper_edge(level: int, bounds: Seq<Double>, from: int, k: int)
    requires
        1 <= from <= k < bounds.len(),
        reaches(level, bounds[k - 1]),
        under(level, bounds[k]),
        forall|j: int|
            1 <= j < k ==> !(reaches(level, bounds[j - 1]) && under(level, #[trigger] bounds[j])),
    ensures
        upper_edge(level, bounds, from) == k,
    decreases k - from,
{
    if from < k {
        assert(!(reaches(level, bounds[from - 1]) && under(level, bounds[from])));
        lemma_first_upper_edge(level, bounds, from + 1, k);
    }
}

/// A level that no interval holds belongs to the one below the last edge that it
/// reaches, and to the first where it reaches none behind the first.
pub proof fn last_reached_edge_counts(level: int, bounds: Seq<Double>, k: int)
    requires
        0 <= k < bounds.len(),
        forall|j: int|
            1 <= j < bounds.len() ==> !(!bounds[j - 1].is_nan() && bounds[j - 1].value() <= level
                && !bounds[j].is_nan() && level < (#[trigger] bounds[j]).value()),
        k > 0 ==> !bounds[k].is_nan() && bounds[k].value() <= level,
        forall|j: int|
            k < j < bounds.len() ==> bounds[j].is_nan() || level < (#[trigger] bounds[j]).value(),
    ensures
        interval(level, bounds) == if k == 0 {
            0
        } else {
            k - 1
        },
{
    if bounds.len() >= 2 {
        lemma_no_upper_edge(level, bounds, 1);
        lemma_last_reached_at(level, bounds, k);
    }
}

proof fn lemma_last_reached_at(level: int, bounds: Seq<Double>, k: int)
    requires
        0 <= k < bounds.len(),
        k > 0 ==> reaches(level, bounds[k]),
        forall|j: int| k < j < bounds.len() ==> !reaches(level, #[trigger] bounds[j]),
    ensures
        last_reached(level, bounds) == k,
    decreases bounds.len(),
{
    if bounds.len() >= 2 && k < bounds.len() - 1 {
        assert(!reaches(level, bounds[bounds.len() - 1]));
        lemma_last_reached_at(level, bounds.drop_last(), k);
    }
}

/// A class is the interval of the level, but at most the last class.
pub proof fn class_is_the_interval_or_the_last(level: int, bounds: Seq<Double>, classes: int)
    requires
        1 <= classes <= 256,
    ensures
        class_byte(level, bounds, classes) <= interval(level, bounds),
        class_byte(level, bounds, classes) <= classes - 1,
        class_byte(level, bounds, classes) == interval(level, bounds) || class_byte(
            level,
            bounds,
            classes,
        ) == classes - 1,
        bounds.len() < 2 ==> class_byte(level, bounds, classes) == 0,
{
    lemma_interval(level, bounds);
}

} // verus!
