//! Where the North American radar network, and with it the observations, reach.

use crate::ieee::{patterns_tell_the_value, whole_number_pattern, Double};
use crate::metar::BBox;
use crate::select::{in_bbox, inside};
use vstd::arithmetic::power2::{lemma2_to64, lemma2_to64_rest, pow2};
use vstd::prelude::*;

verus! {

/// 24, the south of the contiguous states.
pub const CONTINENT_SOUTH: u64 = 0x4038_0000_0000_0000;

/// 84, the north of Canada.
pub const CONTINENT_NORTH: u64 = 0x4055_0000_0000_0000;

/// -141, the border of the Yukon with Alaska.
pub const CONTINENT_WEST: u64 = 0xc061_a000_0000_0000;

/// -52, the east of Newfoundland.
pub const CONTINENT_EAST: u64 = 0xc04a_0000_0000_0000;

/// 51.
pub const ALASKA_SOUTH: u64 = 0x4049_8000_0000_0000;

/// 72.
pub const ALASKA_NORTH: u64 = 0x4052_0000_0000_0000;

/// -180.
pub const ALASKA_WEST: u64 = 0xc066_8000_0000_0000;

/// -129.
pub const ALASKA_EAST: u64 = 0xc060_2000_0000_0000;

/// 18.5.
pub const HAWAII_SOUTH: u64 = 0x4032_8000_0000_0000;

/// 23.
pub const HAWAII_NORTH: u64 = 0x4037_0000_0000_0000;

/// -161.
pub const HAWAII_WEST: u64 = 0xc064_2000_0000_0000;

/// -154.
pub const HAWAII_EAST: u64 = 0xc063_4000_0000_0000;

/// 13.
pub const GUAM_SOUTH: u64 = 0x402a_0000_0000_0000;

/// 15.
pub const GUAM_NORTH: u64 = 0x402e_0000_0000_0000;

/// 144.
pub const GUAM_WEST: u64 = 0x4062_0000_0000_0000;

/// 146.
pub const GUAM_EAST: u64 = 0x4062_4000_0000_0000;

/// 17.5.
pub const PUERTO_RICO_SOUTH: u64 = 0x4031_8000_0000_0000;

/// 18.75.
pub const PUERTO_RICO_NORTH: u64 = 0x4032_c000_0000_0000;

/// -67.5.
pub const PUERTO_RICO_WEST: u64 = 0xc050_e000_0000_0000;

/// -64.5.
pub const PUERTO_RICO_EAST: u64 = 0xc050_2000_0000_0000;

pub open spec fn region(south: u64, west: u64, north: u64, east: u64) -> BBox {
    BBox {
        south: Double { bits: south },
        west: Double { bits: west },
        north: Double { bits: north },
        east: Double { bits: east },
    }
}

/// The contiguous states and Canada, Alaska, Hawaii, Guam, and Puerto Rico with the
/// Virgin Islands.
pub open spec fn in_network(lon: Double, lat: Double) -> bool {
    ||| inside(lat, lon, region(CONTINENT_SOUTH, CONTINENT_WEST, CONTINENT_NORTH, CONTINENT_EAST))
    ||| inside(lat, lon, region(ALASKA_SOUTH, ALASKA_WEST, ALASKA_NORTH, ALASKA_EAST))
    ||| inside(lat, lon, region(HAWAII_SOUTH, HAWAII_WEST, HAWAII_NORTH, HAWAII_EAST))
    ||| inside(lat, lon, region(GUAM_SOUTH, GUAM_WEST, GUAM_NORTH, GUAM_EAST))
    ||| inside(
        lat,
        lon,
        region(PUERTO_RICO_SOUTH, PUERTO_RICO_WEST, PUERTO_RICO_NORTH, PUERTO_RICO_EAST),
    )
}

fn corners(south: u64, west: u64, north: u64, east: u64) -> (r: BBox)
    ensures
        r == region(south, west, north, east),
{
    BBox {
        south: Double { bits: south },
        west: Double { bits: west },
        north: Double { bits: north },
        east: Double { bits: east },
    }
}

/// Whether a place is one that the network serves.
pub fn nexrad_network(lon: Double, lat: Double) -> (r: bool)
    ensures
        r == in_network(lon, lat),
{
    in_bbox(lat, lon, corners(CONTINENT_SOUTH, CONTINENT_WEST, CONTINENT_NORTH, CONTINENT_EAST))
        || in_bbox(lat, lon, corners(ALASKA_SOUTH, ALASKA_WEST, ALASKA_NORTH, ALASKA_EAST))
        || in_bbox(lat, lon, corners(HAWAII_SOUTH, HAWAII_WEST, HAWAII_NORTH, HAWAII_EAST))
        || in_bbox(lat, lon, corners(GUAM_SOUTH, GUAM_WEST, GUAM_NORTH, GUAM_EAST)) || in_bbox(
        lat,
        lon,
        corners(PUERTO_RICO_SOUTH, PUERTO_RICO_WEST, PUERTO_RICO_NORTH, PUERTO_RICO_EAST),
    )
}

/// A number that is `n` halves.
proof fn lemma_halves(x: Double, n: nat, k: nat)
    requires
        0x10_0000_0000_0000 <= x.bits < 0x7fe0_0000_0000_0000,
        k <= 52,
        x.bits as int + 0x10_0000_0000_0000 == (1074 - k) * 0x10_0000_0000_0000 + n * pow2(k),
        0x10_0000_0000_0000 <= n * pow2(k) < 0x20_0000_0000_0000,
    ensures
        2 * x.value() == n * pow2(1074),
        2 * (Double { bits: (x.bits + 0x8000_0000_0000_0000) as u64 }).value() == -(n * pow2(1074)),
{
    patterns_tell_the_value(x);
    whole_number_pattern(Double { bits: (x.bits + 0x10_0000_0000_0000) as u64 }, n, k);
}

proof fn lemma_regions()
    ensures
        ({
            let u = pow2(1074) as int;
            &&& 2 * (Double { bits: CONTINENT_SOUTH }).value() == 48 * u
            &&& 2 * (Double { bits: CONTINENT_NORTH }).value() == 168 * u
            &&& 2 * (Double { bits: CONTINENT_WEST }).value() == -282 * u
            &&& 2 * (Double { bits: CONTINENT_EAST }).value() == -104 * u
            &&& 2 * (Double { bits: ALASKA_SOUTH }).value() == 102 * u
            &&& 2 * (Double { bits: ALASKA_NORTH }).value() == 144 * u
            &&& 2 * (Double { bits: ALASKA_WEST }).value() == -360 * u
            &&& 2 * (Double { bits: ALASKA_EAST }).value() == -258 * u
            &&& 2 * (Double { bits: HAWAII_SOUTH }).value() == 37 * u
            &&& 2 * (Double { bits: HAWAII_NORTH }).value() == 46 * u
            &&& 2 * (Double { bits: HAWAII_WEST }).value() == -322 * u
            &&& 2 * (Double { bits: HAWAII_EAST }).value() == -308 * u
            &&& 2 * (Double { bits: GUAM_SOUTH }).value() == 26 * u
            &&& 2 * (Double { bits: GUAM_NORTH }).value() == 30 * u
            &&& 2 * (Double { bits: GUAM_WEST }).value() == 288 * u
            &&& 2 * (Double { bits: GUAM_EAST }).value() == 292 * u
            &&& 2 * (Double { bits: PUERTO_RICO_SOUTH }).value() == 35 * u
            &&& 4 * (Double { bits: PUERTO_RICO_NORTH }).value() == 75 * u
            &&& 2 * (Double { bits: PUERTO_RICO_WEST }).value() == -135 * u
            &&& 2 * (Double { bits: PUERTO_RICO_EAST }).value() == -129 * u
        }),
{
    lemma2_to64();
    lemma2_to64_rest();
    let sign: int = 0x8000_0000_0000_0000;
    lemma_halves(Double { bits: CONTINENT_SOUTH }, 48, 47);
    lemma_halves(Double { bits: CONTINENT_NORTH }, 168, 45);
    lemma_halves(Double { bits: (CONTINENT_WEST - sign) as u64 }, 282, 44);
    lemma_halves(Double { bits: (CONTINENT_EAST - sign) as u64 }, 104, 46);
    lemma_halves(Double { bits: ALASKA_SOUTH }, 102, 46);
    lemma_halves(Double { bits: ALASKA_NORTH }, 144, 45);
    lemma_halves(Double { bits: (ALASKA_WEST - sign) as u64 }, 360, 44);
    lemma_halves(Double { bits: (ALASKA_EAST - sign) as u64 }, 258, 44);
    lemma_halves(Double { bits: HAWAII_SOUTH }, 37, 47);
    lemma_halves(Double { bits: HAWAII_NORTH }, 46, 47);
    lemma_halves(Double { bits: (HAWAII_WEST - sign) as u64 }, 322, 44);
    lemma_halves(Double { bits: (HAWAII_EAST - sign) as u64 }, 308, 44);
    lemma_halves(Double { bits: GUAM_SOUTH }, 26, 48);
    lemma_halves(Double { bits: GUAM_NORTH }, 30, 48);
    lemma_halves(Double { bits: GUAM_WEST }, 288, 44);
    lemma_halves(Double { bits: GUAM_EAST }, 292, 44);
    lemma_halves(Double { bits: PUERTO_RICO_SOUTH }, 35, 47);
    patterns_tell_the_value(Double { bits: PUERTO_RICO_NORTH });
    lemma_halves(
        Double { bits: (PUERTO_RICO_NORTH + 0x10_0000_0000_0000) as u64 },
        75,
        46,
    );
    lemma_halves(Double { bits: (PUERTO_RICO_WEST - sign) as u64 }, 135, 45);
    lemma_halves(Double { bits: (PUERTO_RICO_EAST - sign) as u64 }, 129, 45);
}

/// The network in degrees: 24 to 84 north and 141 to 52 west, 51 to 72 north and 180 to
/// 129 west, 18.5 to 23 north and 161 to 154 west, 13 to 15 north and 144 to 146 east, and
/// 17.5 to 18.75 north and 67.5 to 64.5 west.
pub proof fn network_in_degrees(lon: Double, lat: Double)
    ensures
        in_network(lon, lat) <==> !lon.is_nan() && !lat.is_nan() && {
            let u = pow2(1074) as int;
            let (x, y) = (lon.value(), lat.value());
            ||| 24 * u <= y <= 84 * u && -141 * u <= x <= -52 * u
            ||| 51 * u <= y <= 72 * u && -180 * u <= x <= -129 * u
            ||| 37 * u <= 2 * y && y <= 23 * u && -161 * u <= x <= -154 * u
            ||| 13 * u <= y <= 15 * u && 144 * u <= x <= 146 * u
            ||| 35 * u <= 2 * y && 4 * y <= 75 * u && -135 * u <= 2 * x <= -129 * u
        },
{
    lemma_regions();
}

} // verus!
