//! Tiled rasters of binary32 values in TIFF files.
//!
//! A file is little-endian and not compressed. Its first directory holds the size of
//! the raster and of its tiles, where the tiles stand, the affine map from pixels to
//! the ground, the parameters of the projection and the value that stands for missing
//! data. With several bands, each has its own tiles, and the first band is read.

use crate::ieee::{steps, Double, Single, HIDDEN32, SIGN32};
use vstd::arithmetic::div_mod::{lemma_fundamental_div_mod, lemma_fundamental_div_mod_converse};
use vstd::arithmetic::power2::{lemma2_to64, lemma_pow2_unfold, pow2};
use vstd::prelude::*;

verus! {

pub const WIDTH: u16 = 256;

pub const HEIGHT: u16 = 257;

pub const BITS_PER_SAMPLE: u16 = 258;

pub const COMPRESSION: u16 = 259;

pub const PHOTOMETRIC: u16 = 262;

pub const SAMPLES_PER_PIXEL: u16 = 277;

pub const PLANAR_CONFIGURATION: u16 = 284;

pub const TILE_WIDTH: u16 = 322;

pub const TILE_LENGTH: u16 = 323;

pub const TILE_OFFSETS: u16 = 324;

pub const TILE_BYTE_COUNTS: u16 = 325;

pub const EXTRA_SAMPLES: u16 = 338;

pub const SAMPLE_FORMAT: u16 = 339;

/// The sixteen numbers of the map from pixels to the ground, row by row.
pub const MODEL_TRANSFORMATION: u16 = 34264;

pub const GEO_DOUBLE_PARAMS: u16 = 34736;

/// The value that stands for missing data, as a text.
pub const NODATA: u16 = 42113;

pub const ASCII: u16 = 2;

pub const SHORT: u16 = 3;

pub const LONG: u16 = 4;

pub const DOUBLE: u16 = 12;

/// Why a file is not read.
#[derive(Clone, Copy, Debug, PartialEq, Eq, Structural)]
pub enum CogError {
    NotTiff,
    Layout,
    Truncated,
    NoGeoreference,
}

impl CogError {
    pub open spec fn message(self) -> Seq<char> {
        match self {
            CogError::NotTiff => "not a little-endian TIFF"@,
            CogError::Layout => "unsupported COG layout"@,
            CogError::Truncated => "truncated COG"@,
            CogError::NoGeoreference => "COG without a model transformation"@,
        }
    }

    pub fn text(self) -> (r: String)
        ensures
            r@ == self.message(),
    {
        match self {
            CogError::NotTiff => "not a little-endian TIFF".to_owned(),
            CogError::Layout => "unsupported COG layout".to_owned(),
            CogError::Truncated => "truncated COG".to_owned(),
            CogError::NoGeoreference => "COG without a model transformation".to_owned(),
        }
    }
}

#[derive(Debug)]
pub struct DecodedRaster {
    pub width: u32,
    pub height: u32,
    /// The first band, row by row.
    pub values: Vec<Single>,
    pub nodata: Option<Single>,
    /// The x of the corner, of a step right and of a step down, then the y of each.
    pub geotransform: [Double; 6],
    pub geo_double_params: Vec<Double>,
}

pub struct RasterView {
    pub width: int,
    pub height: int,
    pub values: Seq<Single>,
    pub nodata: Option<Single>,
    pub geotransform: Seq<Double>,
    pub geo_double_params: Seq<Double>,
}

impl View for DecodedRaster {
    type V = RasterView;

    open spec fn view(&self) -> RasterView {
        RasterView {
            width: self.width as int,
            height: self.height as int,
            values: self.values@,
            nodata: self.nodata,
            geotransform: self.geotransform@,
            geo_double_params: self.geo_double_params@,
        }
    }
}

pub open spec fn u16_at(b: Seq<u8>, i: int) -> int {
    b[i] + 0x100 * b[i + 1]
}

pub open spec fn u32_at(b: Seq<u8>, i: int) -> int {
    b[i] + 0x100 * b[i + 1] + 0x1_0000 * b[i + 2] + 0x100_0000 * b[i + 3]
}

pub open spec fn u64_at(b: Seq<u8>, i: int) -> int {
    u32_at(b, i) + 0x1_0000_0000 * u32_at(b, i + 4)
}

/// Where the first directory stands.
pub open spec fn directory(b: Seq<u8>) -> int {
    u32_at(b, 4)
}

/// A header and a whole first directory.
pub open spec fn is_tiff(b: Seq<u8>) -> bool {
    &&& b.len() >= 8
    &&& b[0] == 0x49
    &&& b[1] == 0x49
    &&& u16_at(b, 2) == 42
    &&& directory(b) + 2 <= b.len()
    &&& directory(b) + 2 + 12 * u16_at(b, directory(b)) <= b.len()
}

/// Where the entry of a tag stands, from the `k`-th entry on.
pub open spec fn entry_from(b: Seq<u8>, tag: u16, k: int) -> Option<int>
    decreases u16_at(b, directory(b)) - k,
{
    if k >= u16_at(b, directory(b)) {
        None
    } else if u16_at(b, directory(b) + 2 + 12 * k) == tag {
        Some(directory(b) + 2 + 12 * k)
    } else {
        entry_from(b, tag, k + 1)
    }
}

pub open spec fn entry(b: Seq<u8>, tag: u16) -> Option<int> {
    entry_from(b, tag, 0)
}

pub open spec fn kind_at(b: Seq<u8>, e: int) -> int {
    u16_at(b, e + 2)
}

pub open spec fn count_at(b: Seq<u8>, e: int) -> int {
    u32_at(b, e + 4)
}

/// Where the values of an entry stand, if `size` bytes of them are in the file: in the
/// entry itself when they fit there, or else where the entry points.
pub open spec fn values_at(b: Seq<u8>, e: int, size: int) -> Option<int> {
    if size <= 4 {
        Some(e + 8)
    } else if u32_at(b, e + 8) + size <= b.len() {
        Some(u32_at(b, e + 8))
    } else {
        None
    }
}

/// The first number of a tag.
pub open spec fn scalar(b: Seq<u8>, tag: u16) -> Option<int> {
    match entry(b, tag) {
        None => None,
        Some(e) => if count_at(b, e) == 0 {
            None
        } else if kind_at(b, e) == SHORT {
            match values_at(b, e, 2 * count_at(b, e)) {
                Some(at) => Some(u16_at(b, at)),
                None => None,
            }
        } else if kind_at(b, e) == LONG {
            match values_at(b, e, 4 * count_at(b, e)) {
                Some(at) => Some(u32_at(b, at)),
                None => None,
            }
        } else {
            None
        },
    }
}

/// Where the values of a tag stand and how many there are, given their kind and size.
pub open spec fn list(b: Seq<u8>, tag: u16, kind: u16, size: int) -> Option<(int, int)> {
    match entry(b, tag) {
        None => None,
        Some(e) => if kind_at(b, e) != kind {
            None
        } else {
            match values_at(b, e, size * count_at(b, e)) {
                Some(at) => Some((at, count_at(b, e))),
                None => None,
            }
        },
    }
}

pub open spec fn doubles(b: Seq<u8>, tag: u16) -> Option<Seq<Double>> {
    match list(b, tag, DOUBLE, 8) {
        None => None,
        Some((at, n)) => Some(
            Seq::new(n as nat, |i: int| Double { bits: u64_at(b, at + 8 * i) as u64 }),
        ),
    }
}

pub open spec fn is_digit_byte(c: u8) -> bool {
    0x30 <= c <= 0x39
}

pub open spec fn are_digits(s: Seq<u8>) -> bool {
    forall|i: int| 0 <= i < s.len() ==> is_digit_byte(#[trigger] s[i])
}

/// The number that a row of digits writes.
pub open spec fn number(digits: Seq<u8>) -> nat
    decreases digits.len(),
{
    if digits.len() == 0 {
        0
    } else {
        10 * number(digits.drop_last()) + (digits.last() - 0x30) as nat
    }
}

/// The bits of a binary32 number that is a whole one, from 1 to 2^24 - 1, where `m` is
/// the number times 2^`s`.
pub open spec fn whole_bits(m: int, s: int) -> int
    decreases 24 - s,
{
    if m >= HIDDEN32 || s >= 24 {
        (150 - s) * HIDDEN32 + (m - HIDDEN32)
    } else {
        whole_bits(2 * m, s + 1)
    }
}

/// A whole number below 2^24, with a sign, as a binary32 number.
pub open spec fn whole_single(negative: bool, n: int) -> Single {
    let size = if n == 0 {
        0
    } else {
        whole_bits(n, 0)
    };
    Single {
        bits: (if negative {
            SIGN32 + size
        } else {
            size
        }) as u32,
    }
}

/// A text without the zero bytes at its end.
pub open spec fn text_of(b: Seq<u8>) -> Seq<u8>
    decreases b.len(),
{
    if b.len() > 0 && b.last() == 0 {
        text_of(b.drop_last())
    } else {
        b
    }
}

/// The number that digits write, where there are some and it is less than 2^24.
pub open spec fn whole_of(digits: Seq<u8>) -> Option<int> {
    if digits.len() == 0 || !are_digits(digits) || number(digits) >= 0x100_0000 {
        None
    } else {
        Some(number(digits) as int)
    }
}

pub open spec fn has_minus(s: Seq<u8>) -> bool {
    s.len() > 0 && s[0] == 0x2d
}

/// The whole number that a text writes, as a binary32 number: digits behind at most
/// one minus sign, less than 2^24.
pub open spec fn missing_value(text: Seq<u8>) -> Option<Single> {
    let bare = text_of(text);
    match whole_of(
        if has_minus(bare) {
            bare.skip(1)
        } else {
            bare
        },
    ) {
        Some(n) => Some(whole_single(has_minus(bare), n)),
        None => None,
    }
}

pub open spec fn nodata_of(b: Seq<u8>) -> Option<Single> {
    match list(b, NODATA, ASCII, 1) {
        None => None,
        Some((at, n)) => missing_value(b.subrange(at, at + n)),
    }
}

/// How many tiles of a size stand side by side.
pub open spec fn tiles_along(size: int, tile: int) -> int {
    (size + tile - 1) / tile
}

/// The size of a raster and of its tiles.
pub struct Layout {
    pub width: int,
    pub height: int,
    pub tile_width: int,
    pub tile_height: int,
}

impl Layout {
    pub open spec fn across(self) -> int {
        tiles_along(self.width, self.tile_width)
    }

    pub open spec fn down(self) -> int {
        tiles_along(self.height, self.tile_height)
    }

    pub open spec fn tiles(self) -> int {
        self.across() * self.down()
    }

    /// The number of pixels in a tile.
    pub open spec fn area(self) -> int {
        self.tile_width * self.tile_height
    }

    pub open spec fn proper(self) -> bool {
        &&& 0 < self.width <= u32::MAX
        &&& 0 < self.height <= u32::MAX
        &&& 0 < self.tile_width <= u32::MAX
        &&& 0 < self.tile_height <= u32::MAX
    }

    /// The tile of a pixel.
    pub open spec fn tile_of(self, x: int, y: int) -> int {
        (y / self.tile_height) * self.across() + x / self.tile_width
    }

    /// The place of a pixel in its tile.
    pub open spec fn place_of(self, x: int, y: int) -> int {
        (y % self.tile_height) * self.tile_width + x % self.tile_width
    }
}

/// Where the `t`-th tile stands, given where the list of the tiles does.
pub open spec fn tile_at(b: Seq<u8>, offsets: int, t: int) -> int {
    u32_at(b, offsets + 4 * t)
}

pub open spec fn tiles_inside(b: Seq<u8>, offsets: int, l: Layout) -> bool {
    forall|t: int|
        0 <= t < l.tiles() ==> #[trigger] tile_at(b, offsets, t) + 4 * l.area() <= b.len()
}

/// The value of a pixel.
pub open spec fn sample(b: Seq<u8>, offsets: int, l: Layout, x: int, y: int) -> Single {
    Single { bits: u32_at(b, tile_at(b, offsets, l.tile_of(x, y)) + 4 * l.place_of(x, y)) as u32 }
}

pub open spec fn samples(b: Seq<u8>, offsets: int, l: Layout) -> Seq<Single> {
    Seq::new(
        (l.width * l.height) as nat,
        |i: int| sample(b, offsets, l, i % l.width, i / l.width),
    )
}

/// Binary32 samples, not compressed, with the bands apart.
pub open spec fn plain(b: Seq<u8>) -> bool {
    &&& scalar(b, COMPRESSION) == Some(1int)
    &&& scalar(b, BITS_PER_SAMPLE) == Some(32int)
    &&& scalar(b, SAMPLE_FORMAT) == Some(3int)
    &&& scalar(b, SAMPLES_PER_PIXEL) == Some(1int) || scalar(b, PLANAR_CONFIGURATION) == Some(2int)
}

pub open spec fn layout_of(b: Seq<u8>) -> Option<Layout> {
    match (scalar(b, WIDTH), scalar(b, HEIGHT), scalar(b, TILE_WIDTH), scalar(b, TILE_LENGTH)) {
        (Some(width), Some(height), Some(tile_width), Some(tile_height)) => {
            let l = Layout { width, height, tile_width, tile_height };
            if width > 0 && height > 0 && tile_width > 0 && tile_height > 0 && plain(b) {
                Some(l)
            } else {
                None
            }
        },
        _ => None,
    }
}

/// The geotransform in the sixteen numbers of the map to the ground.
pub open spec fn geotransform_of(m: Seq<Double>) -> Seq<Double> {
    seq![m[3], m[0], m[1], m[7], m[4], m[5]]
}

/// The raster in a file, or why it is not read.
pub open spec fn decoded(b: Seq<u8>) -> Result<RasterView, CogError> {
    if !is_tiff(b) {
        Err(CogError::NotTiff)
    } else {
        match (layout_of(b), list(b, TILE_OFFSETS, LONG, 4)) {
            (Some(l), Some((offsets, n))) => if n < l.tiles() {
                Err(CogError::Layout)
            } else if 4 * (l.width * l.height) > b.len() || !tiles_inside(b, offsets, l) {
                Err(CogError::Truncated)
            } else {
                match doubles(b, MODEL_TRANSFORMATION) {
                    Some(m) if m.len() >= 16 => Ok(
                        RasterView {
                            width: l.width,
                            height: l.height,
                            values: samples(b, offsets, l),
                            nodata: nodata_of(b),
                            geotransform: geotransform_of(m),
                            geo_double_params: match doubles(b, GEO_DOUBLE_PARAMS) {
                                Some(params) => params,
                                None => Seq::empty(),
                            },
                        },
                    ),
                    _ => Err(CogError::NoGeoreference),
                }
            },
            _ => Err(CogError::Layout),
        }
    }
}

fn read16(b: &[u8], i: usize) -> (r: u16)
    requires
        i + 2 <= b.len(),
    ensures
        r == u16_at(b@, i as int),
{
    b[i] as u16 + 0x100 * b[i + 1] as u16
}

fn read32(b: &[u8], i: usize) -> (r: u32)
    requires
        i + 4 <= b.len(),
    ensures
        r == u32_at(b@, i as int),
{
    b[i] as u32 + 0x100 * b[i + 1] as u32 + 0x1_0000 * b[i + 2] as u32 + 0x100_0000 * b[i + 3]
        as u32
}

fn read64(b: &[u8], i: usize) -> (r: u64)
    requires
        i + 8 <= b.len(),
    ensures
        r == u64_at(b@, i as int),
{
    read32(b, i) as u64 + 0x1_0000_0000 * read32(b, i + 4) as u64
}

fn check_tiff(b: &[u8]) -> (r: bool)
    ensures
        r == is_tiff(b@),
{
    if b.len() < 8 || b[0] != 0x49 || b[1] != 0x49 || read16(b, 2) != 42 {
        return false;
    }
    let start: u64 = read32(b, 4) as u64;
    let len: u64 = b.len() as u64;
    if start + 2 > len {
        return false;
    }
    start + 2 + 12 * read16(b, start as usize) as u64 <= len
}

fn find_entry(b: &[u8], tag: u16) -> (r: Option<usize>)
    requires
        is_tiff(b@),
    ensures
        entry(b@, tag) == (match r {
            Some(e) => Some(e as int),
            None => None,
        }),
        r matches Some(e) ==> e + 12 <= b.len(),
{
    assert(b.len() == b@.len());
    let start: usize = read32(b, 4) as usize;
    let count: usize = read16(b, start) as usize;
    let mut k: usize = 0;
    while k < count
        invariant
            is_tiff(b@),
            b.len() == b@.len(),
            start == directory(b@),
            count == u16_at(b@, start as int),
            k <= count,
            entry(b@, tag) == entry_from(b@, tag, k as int),
        decreases count - k,
    {
        let e: usize = start + 2 + 12 * k;
        if read16(b, e) == tag {
            return Some(e);
        }
        k = k + 1;
    }
    None
}

fn find_values(b: &[u8], e: usize, size: u64) -> (r: Option<usize>)
    requires
        e + 12 <= b.len(),
        size <= 0x10_0000_0000,
    ensures
        values_at(b@, e as int, size as int) == (match r {
            Some(at) => Some(at as int),
            None => None,
        }),
        r matches Some(at) ==> at + size <= b.len(),
{
    if size <= 4 {
        return Some(e + 8);
    }
    let at: u32 = read32(b, e + 8);
    if at as u64 + size <= b.len() as u64 {
        Some(at as usize)
    } else {
        None
    }
}

fn read_scalar(b: &[u8], tag: u16) -> (r: Option<u32>)
    requires
        is_tiff(b@),
    ensures
        scalar(b@, tag) == (match r {
            Some(n) => Some(n as int),
            None => None,
        }),
{
    assert(b.len() == b@.len());
    let e: usize = match find_entry(b, tag) {
        Some(e) => e,
        None => return None,
    };
    let kind: u16 = read16(b, e + 2);
    let count: u32 = read32(b, e + 4);
    if count == 0 {
        return None;
    }
    if kind == SHORT {
        match find_values(b, e, 2 * count as u64) {
            Some(at) => Some(read16(b, at) as u32),
            None => None,
        }
    } else if kind == LONG {
        match find_values(b, e, 4 * count as u64) {
            Some(at) => Some(read32(b, at)),
            None => None,
        }
    } else {
        None
    }
}

fn read_list(b: &[u8], tag: u16, kind: u16, size: u64) -> (r: Option<(usize, u32)>)
    requires
        is_tiff(b@),
        1 <= size <= 8,
    ensures
        list(b@, tag, kind, size as int) == (match r {
            Some((at, n)) => Some((at as int, n as int)),
            None => None,
        }),
        r matches Some((at, n)) ==> at + size * n <= b.len(),
{
    assert(b.len() == b@.len());
    let e: usize = match find_entry(b, tag) {
        Some(e) => e,
        None => return None,
    };
    if read16(b, e + 2) != kind {
        return None;
    }
    let count: u32 = read32(b, e + 4);
    assert(size * count <= 8 * 0xffff_ffff) by (nonlinear_arith)
        requires
            1 <= size <= 8,
            count <= 0xffff_ffff,
    ;
    match find_values(b, e, size * count as u64) {
        Some(at) => Some((at, count)),
        None => None,
    }
}

fn read_doubles(b: &[u8], tag: u16) -> (r: Option<Vec<Double>>)
    requires
        is_tiff(b@),
    ensures
        doubles(b@, tag) == (match r {
            Some(v) => Some(v@),
            None => None,
        }),
{
    let (at, n): (usize, u32) = match read_list(b, tag, DOUBLE, 8) {
        Some(found) => found,
        None => return None,
    };
    let mut r: Vec<Double> = Vec::new();
    let mut i: u32 = 0;
    let ghost all = doubles(b@, tag)->0;
    while i < n
        invariant
            i <= n,
            at + 8 * n <= b.len(),
            all == Seq::new(n as nat, |i: int| Double { bits: u64_at(b@, at + 8 * i) as u64 }),
            r@ == all.take(i as int),
        decreases n - i,
    {
        r.push(Double { bits: read64(b, at + 8 * i as usize) });
        assert(r@ =~= all.take(i + 1));
        i = i + 1;
    }
    assert(r@ =~= all);
    Some(r)
}

proof fn lemma_whole_bits(m: int, s: int)
    requires
        0 < m < 0x100_0000,
        0 <= s <= 23,
        m >= pow2(s as nat),
    ensures
        HIDDEN32 <= whole_bits(m, s) < 151 * HIDDEN32,
    decreases 24 - s,
{
    lemma2_to64();
    if m < HIDDEN32 {
        lemma_pow2_unfold((s + 1) as nat);
        if s == 23 {
            assert(pow2(23) == 0x80_0000);
        }
        lemma_whole_bits(2 * m, s + 1);
    }
}

fn single_from(negative: bool, n: u32) -> (r: Single)
    requires
        n < 0x100_0000,
    ensures
        r == whole_single(negative, n as int),
{
    if n == 0 {
        return Single {
            bits: if negative {
                SIGN32
            } else {
                0
            },
        };
    }
    let mut m: u32 = n;
    let mut s: u32 = 0;
    proof {
        lemma2_to64();
        lemma_whole_bits(n as int, 0);
    }
    while m < HIDDEN32
        invariant
            0 < m < 0x100_0000,
            s <= 23,
            m >= pow2(s as nat),
            whole_bits(n as int, 0) == whole_bits(m as int, s as int),
        decreases 0x100_0000 - m,
    {
        proof {
            lemma2_to64();
            lemma_pow2_unfold((s + 1) as nat);
            if s == 23 {
                assert(pow2(23) == 0x80_0000);
            }
        }
        m = 2 * m;
        s = s + 1;
    }
    let size: u32 = (150 - s) * HIDDEN32 + (m - HIDDEN32);
    Single {
        bits: if negative {
            SIGN32 + size
        } else {
            size
        },
    }
}

proof fn lemma_number_grows(digits: Seq<u8>, n: int)
    requires
        0 <= n <= digits.len(),
    ensures
        number(digits.take(n)) <= number(digits),
    decreases digits.len() - n,
{
    if n < digits.len() {
        assert(digits.take(n + 1).drop_last() =~= digits.take(n));
        lemma_number_grows(digits, n + 1);
    } else {
        assert(digits.take(n) =~= digits);
    }
}

fn read_whole(b: &[u8], from: usize, to: usize) -> (r: Option<u32>)
    requires
        from <= to <= b.len(),
    ensures
        whole_of(b@.subrange(from as int, to as int)) == (match r {
            Some(n) => Some(n as int),
            None => None,
        }),
        r matches Some(n) ==> n < 0x100_0000,
{
    let ghost digits = b@.subrange(from as int, to as int);
    if from == to {
        return None;
    }
    let mut value: u32 = 0;
    let mut i: usize = from;
    while i < to
        invariant
            from <= i <= to <= b.len(),
            from < to,
            digits == b@.subrange(from as int, to as int),
            value == number(digits.take(i - from)),
            value < 0x100_0000,
            forall|j: int| 0 <= j < i - from ==> is_digit_byte(#[trigger] digits[j]),
        decreases to - i,
    {
        let c: u8 = b[i];
        assert(c == digits[i - from]);
        if c < 0x30 || c > 0x39 {
            assert(!is_digit_byte(digits[i - from]));
            return None;
        }
        assert(digits.take(i + 1 - from).drop_last() =~= digits.take(i - from));
        assert(digits.take(i + 1 - from).last() == c);
        value = 10 * value + (c - 0x30) as u32;
        if value >= 0x100_0000 {
            proof {
                lemma_number_grows(digits, i + 1 - from);
            }
            return None;
        }
        i = i + 1;
    }
    assert(digits.take(digits.len() as int) =~= digits);
    Some(value)
}

fn read_missing(b: &[u8], at: usize, n: usize) -> (r: Option<Single>)
    requires
        at + n <= b.len(),
    ensures
        r == missing_value(b@.subrange(at as int, at + n)),
{
    let ghost text = b@.subrange(at as int, at + n);
    let mut end: usize = n;
    assert(text.take(end as int) =~= text);
    while end > 0 && b[at + end - 1] == 0
        invariant
            end <= n,
            at + n <= b.len(),
            text == b@.subrange(at as int, at + n),
            text_of(text) == text_of(text.take(end as int)),
        decreases end,
    {
        assert(text.take(end as int).drop_last() =~= text.take(end - 1));
        end = end - 1;
    }
    let ghost bare = text_of(text);
    assert(bare =~= text.take(end as int));
    if end > 0 && b[at] == 0x2d {
        assert(bare.skip(1) =~= b@.subrange(at + 1, at + end));
        match read_whole(b, at + 1, at + end) {
            Some(value) => Some(single_from(true, value)),
            None => None,
        }
    } else {
        assert(bare =~= b@.subrange(at as int, at + end));
        match read_whole(b, at, at + end) {
            Some(value) => Some(single_from(false, value)),
            None => None,
        }
    }
}

fn read_nodata(b: &[u8]) -> (r: Option<Single>)
    requires
        is_tiff(b@),
    ensures
        r == nodata_of(b@),
{
    match read_list(b, NODATA, ASCII, 1) {
        Some((at, n)) => read_missing(b, at, n as usize),
        None => None,
    }
}

fn check_plain(b: &[u8]) -> (r: bool)
    requires
        is_tiff(b@),
    ensures
        r == plain(b@),
{
    read_scalar(b, COMPRESSION) == Some(1u32) && read_scalar(b, BITS_PER_SAMPLE) == Some(32u32)
        && read_scalar(b, SAMPLE_FORMAT) == Some(3u32) && (read_scalar(b, SAMPLES_PER_PIXEL) == Some(
        1u32,
    ) || read_scalar(b, PLANAR_CONFIGURATION) == Some(2u32))
}

/// The tiles along a side reach over all of it, and all but the last lie inside.
proof fn lemma_tiles_along(size: int, tile: int)
    requires
        size > 0,
        tile > 0,
    ensures
        tiles_along(size, tile) >= 1,
        tiles_along(size, tile) <= size,
        (tiles_along(size, tile) - 1) * tile < size <= tiles_along(size, tile) * tile,
        forall|x: int| 0 <= x < size ==> #[trigger] (x / tile) < tiles_along(size, tile),
{
    let n = tiles_along(size, tile);
    let a = size + tile - 1;
    lemma_fundamental_div_mod(a, tile);
    let r = a % tile;
    assert(tile * n == n * tile) by (nonlinear_arith);
    assert((n - 1) * tile == n * tile - tile) by (nonlinear_arith);
    assert(n >= 1) by (nonlinear_arith)
        requires
            n * tile >= size,
            size > 0,
            tile > 0,
    ;
    assert(n <= size) by (nonlinear_arith)
        requires
            (n - 1) * tile <= size - 1,
            tile >= 1,
            n >= 1,
    ;
    assert forall|x: int| 0 <= x < size implies #[trigger] (x / tile) < n by {
        lemma_fundamental_div_mod(x, tile);
        let q = x / tile;
        assert(tile * q == q * tile) by (nonlinear_arith);
        assert(q < n) by (nonlinear_arith)
            requires
                q * tile < n * tile,
                tile > 0,
        ;
    }
}

/// A pixel has a place in one of the tiles.
proof fn lemma_pixel(l: Layout, x: int, y: int)
    requires
        l.proper(),
        0 <= x < l.width,
        0 <= y < l.height,
    ensures
        l.across() >= 1,
        0 <= l.tile_of(x, y) < l.tiles(),
        0 <= l.place_of(x, y) < l.area(),
        l.tile_of(x, y) / l.across() == y / l.tile_height,
        l.tile_of(x, y) % l.across() == x / l.tile_width,
        l.place_of(x, y) / l.tile_width == y % l.tile_height,
        l.place_of(x, y) % l.tile_width == x % l.tile_width,
{
    lemma_tiles_along(l.width, l.tile_width);
    lemma_tiles_along(l.height, l.tile_height);
    let (i, j) = (x / l.tile_width, y / l.tile_height);
    let (p, q) = (x % l.tile_width, y % l.tile_height);
    let (across, down) = (l.across(), l.down());
    lemma_fundamental_div_mod(x, l.tile_width);
    lemma_fundamental_div_mod(y, l.tile_height);
    assert(0 <= i) by (nonlinear_arith)
        requires
            x >= 0,
            l.tile_width > 0,
            i == x / l.tile_width,
    ;
    assert(0 <= j) by (nonlinear_arith)
        requires
            y >= 0,
            l.tile_height > 0,
            j == y / l.tile_height,
    ;
    assert(0 <= j * across + i < across * down) by (nonlinear_arith)
        requires
            0 <= i < across,
            0 <= j < down,
    ;
    assert(0 <= q * l.tile_width + p < l.tile_width * l.tile_height) by (nonlinear_arith)
        requires
            0 <= p < l.tile_width,
            0 <= q < l.tile_height,
    ;
    lemma_fundamental_div_mod_converse(j * across + i, across, j, i);
    lemma_fundamental_div_mod_converse(q * l.tile_width + p, l.tile_width, q, p);
}

proof fn lemma_row(i: int, width: int, height: int)
    requires
        0 <= i < width * height,
        0 < width,
    ensures
        0 <= i % width < width,
        0 <= i / width < height,
        i == (i / width) * width + i % width,
{
    lemma_fundamental_div_mod(i, width);
    let q = i / width;
    assert(width * q == q * width) by (nonlinear_arith);
    assert(0 <= q < height) by (nonlinear_arith)
        requires
            q * width <= i < width * height,
            i >= 0,
            0 < width,
            q == i / width,
    ;
}

/// The sizes that a directory names.
struct Sizes {
    width: u32,
    height: u32,
    tile_width: u32,
    tile_height: u32,
}

impl Sizes {
    spec fn layout(self) -> Layout {
        Layout {
            width: self.width as int,
            height: self.height as int,
            tile_width: self.tile_width as int,
            tile_height: self.tile_height as int,
        }
    }
}

fn read_sizes(b: &[u8]) -> (r: Option<Sizes>)
    requires
        is_tiff(b@),
    ensures
        layout_of(b@) == (match r {
            Some(s) => Some(s.layout()),
            None => None,
        }),
        r matches Some(s) ==> s.layout().proper(),
{
    match (
        read_scalar(b, WIDTH),
        read_scalar(b, HEIGHT),
        read_scalar(b, TILE_WIDTH),
        read_scalar(b, TILE_LENGTH),
    ) {
        (Some(width), Some(height), Some(tile_width), Some(tile_height)) => {
            if width > 0 && height > 0 && tile_width > 0 && tile_height > 0 && check_plain(b) {
                Some(Sizes { width, height, tile_width, tile_height })
            } else {
                None
            }
        },
        _ => None,
    }
}

proof fn lemma_product(a: int, b: int)
    requires
        0 <= a <= 0xffff_ffff,
        0 <= b <= 0xffff_ffff,
    ensures
        0 <= a * b <= 0xffff_fffe_0000_0001,
{
    assert(0 <= a * b <= 0xffff_ffff * 0xffff_ffff) by (nonlinear_arith)
        requires
            0 <= a <= 0xffff_ffff,
            0 <= b <= 0xffff_ffff,
    ;
}

impl Sizes {
    fn across(&self) -> (r: u64)
        requires
            self.layout().proper(),
        ensures
            r == self.layout().across(),
            1 <= r <= 0xffff_ffff,
    {
        proof {
            lemma_tiles_along(self.width as int, self.tile_width as int);
        }
        (self.width as u64 + self.tile_width as u64 - 1) / self.tile_width as u64
    }

    fn tiles(&self) -> (r: u64)
        requires
            self.layout().proper(),
        ensures
            r == self.layout().tiles(),
    {
        let across: u64 = self.across();
        let down: u64 = (self.height as u64 + self.tile_height as u64 - 1) / self.tile_height as u64;
        proof {
            lemma_tiles_along(self.height as int, self.tile_height as int);
            lemma_product(across as int, down as int);
        }
        across * down
    }

    fn area(&self) -> (r: u64)
        ensures
            r == self.layout().area(),
            r <= 0xffff_fffe_0000_0001,
    {
        proof {
            lemma_product(self.tile_width as int, self.tile_height as int);
        }
        self.tile_width as u64 * self.tile_height as u64
    }

    fn pixels(&self) -> (r: u64)
        ensures
            r == self.layout().width * self.layout().height,
            r <= 0xffff_fffe_0000_0001,
    {
        proof {
            lemma_product(self.width as int, self.height as int);
        }
        self.width as u64 * self.height as u64
    }
}

fn check_tiles(b: &[u8], offsets: usize, tiles: u64, sizes: &Sizes) -> (r: bool)
    requires
        sizes.layout().proper(),
        tiles == sizes.layout().tiles(),
        offsets + 4 * tiles <= b.len(),
    ensures
        r == tiles_inside(b@, offsets as int, sizes.layout()),
{
    let size: u128 = 4 * sizes.area() as u128;
    let mut t: u64 = 0;
    while t < tiles
        invariant
            tiles == sizes.layout().tiles(),
            offsets + 4 * tiles <= b.len(),
            size == 4 * sizes.layout().area(),
            size <= 4 * 0xffff_fffe_0000_0001u128,
            t <= tiles,
            forall|k: int|
                0 <= k < t ==> #[trigger] tile_at(b@, offsets as int, k) + size <= b@.len(),
        decreases tiles - t,
    {
        let start: u32 = read32(b, offsets + 4 * t as usize);
        assert(start == tile_at(b@, offsets as int, t as int));
        if start as u128 + size > b.len() as u128 {
            return false;
        }
        t = t + 1;
    }
    true
}

fn read_sample(b: &[u8], offsets: usize, sizes: &Sizes, x: u64, y: u64) -> (r: Single)
    requires
        sizes.layout().proper(),
        offsets + 4 * sizes.layout().tiles() <= b.len(),
        tiles_inside(b@, offsets as int, sizes.layout()),
        x < sizes.width,
        y < sizes.height,
    ensures
        r == sample(b@, offsets as int, sizes.layout(), x as int, y as int),
{
    let ghost l = sizes.layout();
    let tile_width: u64 = sizes.tile_width as u64;
    let tile_height: u64 = sizes.tile_height as u64;
    let across: u64 = sizes.across();
    let (i, j): (u64, u64) = (x / tile_width, y / tile_height);
    let (p, q): (u64, u64) = (x % tile_width, y % tile_height);
    proof {
        lemma_pixel(l, x as int, y as int);
        lemma_tiles_along(l.width, l.tile_width);
        lemma_tiles_along(l.height, l.tile_height);
        lemma_product(j as int, across as int);
        lemma_product(q as int, tile_width as int);
        assert(b.len() == b@.len());
    }
    assert(i < across && across <= 0xffff_ffff);
    let tile: u64 = j * across + i;
    let place: u64 = q * tile_width + p;
    assert(tile == l.tile_of(x as int, y as int));
    assert(place == l.place_of(x as int, y as int));
    let start: u32 = read32(b, offsets + 4 * tile as usize);
    assert(start == tile_at(b@, offsets as int, tile as int));
    Single { bits: read32(b, start as usize + 4 * place as usize) }
}

fn read_samples(b: &[u8], offsets: usize, sizes: &Sizes) -> (r: Vec<Single>)
    requires
        sizes.layout().proper(),
        offsets + 4 * sizes.layout().tiles() <= b.len(),
        tiles_inside(b@, offsets as int, sizes.layout()),
    ensures
        r@ == samples(b@, offsets as int, sizes.layout()),
{
    let pixels: u64 = sizes.pixels();
    let width: u64 = sizes.width as u64;
    let ghost all = samples(b@, offsets as int, sizes.layout());
    let mut r: Vec<Single> = Vec::new();
    let mut i: u64 = 0;
    while i < pixels
        invariant
            sizes.layout().proper(),
            offsets + 4 * sizes.layout().tiles() <= b.len(),
            tiles_inside(b@, offsets as int, sizes.layout()),
            width == sizes.width,
            pixels == sizes.layout().width * sizes.layout().height,
            all == samples(b@, offsets as int, sizes.layout()),
            i <= pixels,
            r@ == all.take(i as int),
        decreases pixels - i,
    {
        proof {
            lemma_row(i as int, sizes.width as int, sizes.height as int);
        }
        r.push(read_sample(b, offsets, sizes, i % width, i / width));
        assert(r@ =~= all.take(i + 1));
        i = i + 1;
    }
    assert(r@ =~= all);
    r
}

/// Reads the raster in a file.
pub fn decode_float_cog(b: &[u8]) -> (r: Result<DecodedRaster, CogError>)
    ensures
        match decoded(b@) {
            Ok(raster) => r matches Ok(found) && found@ == raster,
            Err(e) => r == Err::<DecodedRaster, CogError>(e),
        },
{
    if !check_tiff(b) {
        return Err(CogError::NotTiff);
    }
    let sizes = match read_sizes(b) {
        Some(sizes) => sizes,
        None => return Err(CogError::Layout),
    };
    let (offsets, n): (usize, u32) = match read_list(b, TILE_OFFSETS, LONG, 4) {
        Some(found) => found,
        None => return Err(CogError::Layout),
    };
    let tiles: u64 = sizes.tiles();
    if (n as u64) < tiles {
        return Err(CogError::Layout);
    }
    if 4 * sizes.pixels() as u128 > b.len() as u128 || !check_tiles(b, offsets, tiles, &sizes) {
        return Err(CogError::Truncated);
    }
    let m = match read_doubles(b, MODEL_TRANSFORMATION) {
        Some(m) => m,
        None => return Err(CogError::NoGeoreference),
    };
    if m.len() < 16 {
        return Err(CogError::NoGeoreference);
    }
    let geotransform: [Double; 6] = [m[3], m[0], m[1], m[7], m[4], m[5]];
    assert(geotransform@ =~= geotransform_of(m@));
    let geo_double_params = match read_doubles(b, GEO_DOUBLE_PARAMS) {
        Some(params) => params,
        None => Vec::new(),
    };
    Ok(
        DecodedRaster {
            width: sizes.width,
            height: sizes.height,
            values: read_samples(b, offsets, &sizes),
            nodata: read_nodata(b),
            geotransform,
            geo_double_params,
        },
    )
}

/// `new` starts with `old`.
pub open spec fn grown(old: Seq<u8>, new: Seq<u8>) -> bool {
    old.len() <= new.len() && forall|i: int| 0 <= i < old.len() ==> #[trigger] new[i] == old[i]
}

fn put16(v: &mut Vec<u8>, x: u16)
    ensures
        grown(old(v)@, final(v)@),
        final(v)@.len() == old(v)@.len() + 2,
        u16_at(final(v)@, old(v)@.len() as int) == x,
{
    v.push((x % 0x100) as u8);
    v.push((x / 0x100) as u8);
}

fn put32(v: &mut Vec<u8>, x: u32)
    ensures
        grown(old(v)@, final(v)@),
        final(v)@.len() == old(v)@.len() + 4,
        u32_at(final(v)@, old(v)@.len() as int) == x,
{
    v.push((x % 0x100) as u8);
    v.push((x / 0x100 % 0x100) as u8);
    v.push((x / 0x1_0000 % 0x100) as u8);
    v.push((x / 0x100_0000) as u8);
}

fn put64(v: &mut Vec<u8>, x: u64)
    ensures
        grown(old(v)@, final(v)@),
        final(v)@.len() == old(v)@.len() + 8,
        u64_at(final(v)@, old(v)@.len() as int) == x,
{
    put32(v, (x % 0x1_0000_0000) as u32);
    put32(v, (x / 0x1_0000_0000) as u32);
}

/// An entry of a directory.
#[derive(Clone, Copy, Debug)]
pub struct Entry {
    pub tag: u16,
    pub kind: u16,
    pub count: u32,
    pub value: u32,
}

/// Whether an entry stands at `e`.
pub open spec fn stands_at(b: Seq<u8>, e: int, entry: Entry) -> bool {
    &&& e + 12 <= b.len()
    &&& u16_at(b, e) == entry.tag
    &&& kind_at(b, e) == entry.kind
    &&& count_at(b, e) == entry.count
    &&& u32_at(b, e + 8) == entry.value
}

fn put_entry(v: &mut Vec<u8>, entry: Entry)
    ensures
        grown(old(v)@, final(v)@),
        final(v)@.len() == old(v)@.len() + 12,
        stands_at(final(v)@, old(v)@.len() as int, entry),
{
    put16(v, entry.tag);
    put16(v, entry.kind);
    put32(v, entry.count);
    put32(v, entry.value);
}

/// A header whose directory follows it, with the given entries.
pub open spec fn has_directory(b: Seq<u8>, entries: Seq<Entry>) -> bool {
    &&& b.len() >= 14 + 12 * entries.len()
    &&& b[0] == 0x49
    &&& b[1] == 0x49
    &&& u16_at(b, 2) == 42
    &&& directory(b) == 8
    &&& u16_at(b, 8) == entries.len()
    &&& forall|k: int|
        0 <= k < entries.len() ==> stands_at(b, 10 + 12 * k, #[trigger] entries[k])
}

fn put_directory(entries: &Vec<Entry>) -> (v: Vec<u8>)
    requires
        entries@.len() <= 100,
    ensures
        has_directory(v@, entries@),
        v@.len() == 14 + 12 * entries@.len(),
{
    let mut v: Vec<u8> = Vec::new();
    put16(&mut v, 0x4949);
    put16(&mut v, 42);
    put32(&mut v, 8);
    put16(&mut v, entries.len() as u16);
    let mut k: usize = 0;
    while k < entries.len()
        invariant
            k <= entries@.len() <= 100,
            v@.len() == 10 + 12 * k,
            v@[0] == 0x49,
            v@[1] == 0x49,
            u16_at(v@, 2) == 42,
            directory(v@) == 8,
            u16_at(v@, 8) == entries@.len(),
            forall|j: int| 0 <= j < k ==> stands_at(v@, 10 + 12 * j, #[trigger] entries@[j]),
        decreases entries@.len() - k,
    {
        put_entry(&mut v, entries[k]);
        k = k + 1;
    }
    put32(&mut v, 0);
    v
}

proof fn lemma_directory_stays(a: Seq<u8>, b: Seq<u8>, entries: Seq<Entry>)
    requires
        has_directory(a, entries),
        grown(a, b),
    ensures
        has_directory(b, entries),
{
    assert forall|k: int| 0 <= k < entries.len() implies stands_at(
        b,
        10 + 12 * k,
        #[trigger] entries[k],
    ) by {
        assert(stands_at(a, 10 + 12 * k, entries[k]));
    }
}

fn put_doubles(v: &mut Vec<u8>, list: &[Double])
    ensures
        grown(old(v)@, final(v)@),
        final(v)@.len() == old(v)@.len() + 8 * list@.len(),
        forall|i: int|
            0 <= i < list@.len() ==> u64_at(final(v)@, old(v)@.len() + 8 * i) == (
            #[trigger] list@[i]).bits,
{
    let ghost start = v@.len();
    let mut i: usize = 0;
    while i < list.len()
        invariant
            start == old(v)@.len(),
            i <= list@.len(),
            grown(old(v)@, v@),
            v@.len() == start + 8 * i,
            forall|j: int|
                0 <= j < i ==> u64_at(v@, start + 8 * j) == (#[trigger] list@[j]).bits,
        decreases list@.len() - i,
    {
        put64(v, list[i].bits);
        i = i + 1;
    }
}

proof fn lemma_number_push(digits: Seq<u8>, d: u8)
    requires
        are_digits(digits),
        is_digit_byte(d),
    ensures
        are_digits(digits.push(d)),
        number(digits.push(d)) == 10 * number(digits) + (d - 0x30),
{
    assert(digits.push(d).drop_last() =~= digits);
}

/// Eight digits, and their number.
proof fn lemma_eight_digits(d: Seq<u8>)
    requires
        d.len() == 8,
        are_digits(d),
    ensures
        number(d) == 10_000_000 * (d[0] - 0x30) + 1_000_000 * (d[1] - 0x30) + 100_000 * (d[2] - 0x30)
            + 10_000 * (d[3] - 0x30) + 1_000 * (d[4] - 0x30) + 100 * (d[5] - 0x30) + 10 * (d[6]
            - 0x30) + (d[7] - 0x30),
{
    let none = Seq::<u8>::empty();
    assert(number(none) == 0);
    let d1 = none.push(d[0]);
    let d2 = d1.push(d[1]);
    let d3 = d2.push(d[2]);
    let d4 = d3.push(d[3]);
    let d5 = d4.push(d[4]);
    let d6 = d5.push(d[5]);
    let d7 = d6.push(d[6]);
    let d8 = d7.push(d[7]);
    lemma_number_push(none, d[0]);
    lemma_number_push(d1, d[1]);
    lemma_number_push(d2, d[2]);
    lemma_number_push(d3, d[3]);
    lemma_number_push(d4, d[4]);
    lemma_number_push(d5, d[5]);
    lemma_number_push(d6, d[6]);
    lemma_number_push(d7, d[7]);
    assert(d8 =~= d);
}

/// A text of a sign, or a zero in its place, and eight digits.
proof fn lemma_signed_text(text: Seq<u8>, negative: bool)
    requires
        text.len() == 10,
        text[0] == (if negative {
            0x2du8
        } else {
            0x30u8
        }),
        are_digits(text.subrange(1, 9)),
        number(text.subrange(1, 9)) < 0x100_0000,
        text[9] == 0,
    ensures
        missing_value(text) == Some(
            whole_single(negative, number(text.subrange(1, 9)) as int),
        ),
{
    let bare = text.drop_last();
    assert(bare[8] == text.subrange(1, 9)[7]);
    assert(is_digit_byte(text.subrange(1, 9)[7]));
    reveal_with_fuel(text_of, 2);
    assert(text_of(text) == bare);
    let digits = text.subrange(1, 9);
    assert(bare.skip(1) =~= digits);
    if !negative {
        assert forall|i: int| 0 <= i < bare.len() implies is_digit_byte(#[trigger] bare[i]) by {
            if i > 0 {
                assert(bare[i] == digits[i - 1]);
            }
        }
        assert(bare =~= seq![0x30u8] + digits);
        lemma_leading_zero(digits, bare);
    }
}

proof fn lemma_leading_zero(digits: Seq<u8>, longer: Seq<u8>)
    requires
        longer == seq![0x30u8] + digits,
    ensures
        number(longer) == number(digits),
    decreases digits.len(),
{
    if digits.len() == 0 {
        assert(longer.drop_last() =~= Seq::empty());
        assert(number(longer.drop_last()) == 0);
    } else {
        assert(longer.drop_last() =~= seq![0x30u8] + digits.drop_last());
        lemma_leading_zero(digits.drop_last(), longer.drop_last());
    }
}

proof fn lemma_decimal_places(n: int)
    requires
        0 <= n < 100_000_000,
    ensures
        n == 10_000_000 * (n / 10_000_000 % 10) + 1_000_000 * (n / 1_000_000 % 10) + 100_000 * (n
            / 100_000 % 10) + 10_000 * (n / 10_000 % 10) + 1_000 * (n / 1_000 % 10) + 100 * (n / 100
            % 10) + 10 * (n / 10 % 10) + n % 10,
{
    assert(n / 10 == 10 * (n / 100) + n / 10 % 10);
    assert(n / 100 == 10 * (n / 1_000) + n / 100 % 10);
    assert(n / 1_000 == 10 * (n / 10_000) + n / 1_000 % 10);
    assert(n / 10_000 == 10 * (n / 100_000) + n / 10_000 % 10);
    assert(n / 100_000 == 10 * (n / 1_000_000) + n / 100_000 % 10);
    assert(n / 1_000_000 == 10 * (n / 10_000_000) + n / 1_000_000 % 10);
}

fn eight_digits(n: u32) -> (r: Vec<u8>)
    requires
        n < 100_000_000,
    ensures
        r@.len() == 8,
        are_digits(r@),
        number(r@) == n,
{
    let r = vec![
        (n / 10_000_000 % 10) as u8 + 0x30,
        (n / 1_000_000 % 10) as u8 + 0x30,
        (n / 100_000 % 10) as u8 + 0x30,
        (n / 10_000 % 10) as u8 + 0x30,
        (n / 1_000 % 10) as u8 + 0x30,
        (n / 100 % 10) as u8 + 0x30,
        (n / 10 % 10) as u8 + 0x30,
        (n % 10) as u8 + 0x30,
    ];
    proof {
        lemma_decimal_places(n as int);
        lemma_eight_digits(r@);
    }
    r
}

/// Writes a whole number with a sign, or a zero in its place, and eight digits, and a
/// zero byte behind them.
fn put_whole(v: &mut Vec<u8>, n: i32)
    requires
        -0x100_0000 < n < 0x100_0000,
    ensures
        grown(old(v)@, final(v)@),
        final(v)@.len() == old(v)@.len() + 10,
        missing_value(final(v)@.subrange(old(v)@.len() as int, final(v)@.len() as int)) == Some(
            whole_single(
                n < 0,
                if n < 0 {
                    -n
                } else {
                    n as int
                },
            ),
        ),
{
    let size: u32 = if n < 0 {
        (-n) as u32
    } else {
        n as u32
    };
    let ghost start = v@.len() as int;
    let digits = eight_digits(size);
    v.push(if n < 0 {
        0x2d
    } else {
        0x30
    });
    v.extend_from_slice(digits.as_slice());
    v.push(0);
    proof {
        let text = v@.subrange(start, start + 10);
        assert(text.subrange(1, 9) =~= digits@);
        lemma_signed_text(text, n < 0);
    }
}

/// Writes the numbers `first`, `first + step` and so on.
fn put_progression(v: &mut Vec<u8>, first: u32, step: u32, n: u32)
    requires
        first + step * n <= 0xffff_ffff,
    ensures
        grown(old(v)@, final(v)@),
        final(v)@.len() == old(v)@.len() + 4 * n,
        forall|t: int|
            0 <= t < n ==> #[trigger] tile_at(final(v)@, old(v)@.len() as int, t) == first + step
                * t,
{
    let ghost start = v@.len();
    let mut t: u32 = 0;
    let mut x: u32 = first;
    assert(step * 0 == 0);
    while t < n
        invariant
            first + step * n <= 0xffff_ffff,
            start == old(v)@.len(),
            t <= n,
            x == first + step * t,
            grown(old(v)@, v@),
            v@.len() == start + 4 * t,
            forall|k: int|
                0 <= k < t ==> #[trigger] tile_at(v@, start as int, k) == first + step * k,
        decreases n - t,
    {
        let ghost prior = v@;
        put32(v, x);
        proof {
            assert forall|k: int| 0 <= k < t implies #[trigger] tile_at(v@, start as int, k)
                == first + step * k by {
                assert(tile_at(prior, start as int, k) == first + step * k);
            }
            assert(tile_at(v@, start as int, t as int) == x);
            assert(step * (t + 1) == step * t + step) by (nonlinear_arith);
            assert(step * (t + 1) <= step * n) by (nonlinear_arith)
                requires
                    t + 1 <= n,
                    step >= 0,
            ;
        }
        t = t + 1;
        x = x + step;
    }
}

impl Layout {
    /// The value at the `k`-th place of all tiles in a row: that of its pixel, or zero
    /// beyond the edge of the raster.
    pub open spec fn cell(self, band: Seq<Single>, k: int) -> Single {
        let (t, p) = (k / self.area(), k % self.area());
        let x = (t % self.across()) * self.tile_width + p % self.tile_width;
        let y = (t / self.across()) * self.tile_height + p / self.tile_width;
        if x < self.width && y < self.height {
            band[y * self.width + x]
        } else {
            Single { bits: 0 }
        }
    }
}

/// Each pixel stands at the place of its tile.
proof fn lemma_cell(l: Layout, band: Seq<Single>, x: int, y: int)
    requires
        l.proper(),
        0 <= x < l.width,
        0 <= y < l.height,
    ensures
        0 <= l.tile_of(x, y) * l.area() + l.place_of(x, y) < l.tiles() * l.area(),
        l.cell(band, l.tile_of(x, y) * l.area() + l.place_of(x, y)) == band[y * l.width + x],
{
    let (t, p, area) = (l.tile_of(x, y), l.place_of(x, y), l.area());
    let k = t * area + p;
    lemma_pixel(l, x, y);
    lemma_fundamental_div_mod_converse(k, area, t, p);
    assert(0 <= k < l.tiles() * area) by (nonlinear_arith)
        requires
            0 <= t < l.tiles(),
            0 <= p < area,
            k == t * area + p,
    ;
    lemma_fundamental_div_mod(x, l.tile_width);
    lemma_fundamental_div_mod(y, l.tile_height);
    let (i, j) = (x / l.tile_width, y / l.tile_height);
    assert(l.tile_width * i == i * l.tile_width) by (nonlinear_arith);
    assert(l.tile_height * j == j * l.tile_height) by (nonlinear_arith);
}

proof fn lemma_index(x: int, y: int, width: int, height: int)
    requires
        0 <= x < width,
        0 <= y < height,
    ensures
        0 <= y * width + x < width * height,
{
    assert(0 <= y * width + x < width * height) by (nonlinear_arith)
        requires
            0 <= x < width,
            0 <= y < height,
    ;
}

fn cell_value(sizes: &Sizes, band: &[Single], k: u64) -> (r: Single)
    requires
        sizes.layout().proper(),
        band@.len() == sizes.layout().width * sizes.layout().height,
        sizes.layout().tiles() <= 0xffff_ffff,
        k < sizes.layout().tiles() * sizes.layout().area(),
    ensures
        r == sizes.layout().cell(band@, k as int),
{
    let ghost l = sizes.layout();
    let area: u64 = sizes.area();
    let across: u64 = sizes.across();
    let tile_width: u64 = sizes.tile_width as u64;
    let tile_height: u64 = sizes.tile_height as u64;
    let width: u64 = sizes.width as u64;
    proof {
        assert(area > 0) by (nonlinear_arith)
            requires
                tile_width > 0,
                tile_height > 0,
                area == tile_width * tile_height,
        ;
    }
    let (t, p): (u64, u64) = (k / area, k % area);
    proof {
        lemma_fundamental_div_mod(k as int, area as int);
        assert(t < l.tiles()) by (nonlinear_arith)
            requires
                area * t <= k,
                k < l.tiles() * area,
                area > 0,
        ;
        lemma_fundamental_div_mod(p as int, tile_width as int);
        assert(p / tile_width < tile_height) by (nonlinear_arith)
            requires
                p < tile_width * tile_height,
                tile_width * (p / tile_width) <= p,
                tile_width > 0,
        ;
        lemma_fundamental_div_mod(t as int, across as int);
        assert(t / across <= t) by (nonlinear_arith)
            requires
                across >= 1,
        ;
        lemma_product((t % across) as int, tile_width as int);
        lemma_product((t / across) as int, tile_height as int);
    }
    let x: u64 = (t % across) * tile_width + p % tile_width;
    let y: u64 = (t / across) * tile_height + p / tile_width;
    if x < width && y < sizes.height as u64 {
        proof {
            lemma_index(x as int, y as int, l.width, l.height);
            lemma_product(y as int, width as int);
            assert(band.len() == band@.len());
        }
        band[(y * width + x) as usize]
    } else {
        Single { bits: 0 }
    }
}

/// Writes the tiles of a band.
fn put_tiles(v: &mut Vec<u8>, sizes: &Sizes, band: &[Single], cells: u64)
    requires
        sizes.layout().proper(),
        band@.len() == sizes.layout().width * sizes.layout().height,
        sizes.layout().tiles() <= 0xffff_ffff,
        cells == sizes.layout().tiles() * sizes.layout().area(),
    ensures
        grown(old(v)@, final(v)@),
        final(v)@.len() == old(v)@.len() + 4 * cells,
        forall|k: int|
            0 <= k < cells ==> #[trigger] tile_at(final(v)@, old(v)@.len() as int, k)
                == sizes.layout().cell(band@, k).bits,
{
    let ghost start = v@.len();
    let mut k: u64 = 0;
    while k < cells
        invariant
            sizes.layout().proper(),
            band@.len() == sizes.layout().width * sizes.layout().height,
            sizes.layout().tiles() <= 0xffff_ffff,
            cells == sizes.layout().tiles() * sizes.layout().area(),
            start == old(v)@.len(),
            k <= cells,
            grown(old(v)@, v@),
            v@.len() == start + 4 * k,
            forall|j: int|
                0 <= j < k ==> #[trigger] tile_at(v@, start as int, j) == sizes.layout().cell(
                    band@,
                    j,
                ).bits,
        decreases cells - k,
    {
        let ghost prior = v@;
        put32(v, cell_value(sizes, band, k).bits);
        proof {
            assert forall|j: int| 0 <= j < k implies #[trigger] tile_at(v@, start as int, j)
                == sizes.layout().cell(band@, j).bits by {
                assert(tile_at(prior, start as int, j) == sizes.layout().cell(band@, j).bits);
            }
            assert(tile_at(v@, start as int, k as int) == sizes.layout().cell(
                band@,
                k as int,
            ).bits);
        }
        k = k + 1;
    }
}

/// The entries of a file that is written here.
pub open spec fn entries_of(
    width: u32,
    height: u32,
    tile_width: u32,
    tile_height: u32,
    tiles: u32,
    doubles: u32,
    nodata: u32,
    offsets: u32,
    counts: u32,
) -> Seq<Entry> {
    seq![
        Entry { tag: WIDTH, kind: LONG, count: 1, value: width },
        Entry { tag: HEIGHT, kind: LONG, count: 1, value: height },
        Entry { tag: BITS_PER_SAMPLE, kind: SHORT, count: 2, value: 0x20_0020 },
        Entry { tag: COMPRESSION, kind: SHORT, count: 1, value: 1 },
        Entry { tag: PHOTOMETRIC, kind: SHORT, count: 1, value: 1 },
        Entry { tag: SAMPLES_PER_PIXEL, kind: SHORT, count: 1, value: 2 },
        Entry { tag: PLANAR_CONFIGURATION, kind: SHORT, count: 1, value: 2 },
        Entry { tag: TILE_WIDTH, kind: LONG, count: 1, value: tile_width },
        Entry { tag: TILE_LENGTH, kind: LONG, count: 1, value: tile_height },
        Entry { tag: TILE_OFFSETS, kind: LONG, count: (2 * tiles) as u32, value: offsets },
        Entry { tag: TILE_BYTE_COUNTS, kind: LONG, count: (2 * tiles) as u32, value: counts },
        Entry { tag: EXTRA_SAMPLES, kind: SHORT, count: 1, value: 0 },
        Entry { tag: SAMPLE_FORMAT, kind: SHORT, count: 2, value: 0x3_0003 },
        Entry { tag: MODEL_TRANSFORMATION, kind: DOUBLE, count: 16, value: 206 },
        Entry { tag: GEO_DOUBLE_PARAMS, kind: DOUBLE, count: doubles, value: 334 },
        Entry { tag: NODATA, kind: ASCII, count: 10, value: nodata },
    ]
}

/// Each tag that is read is found at its entry.
proof fn lemma_lookup(b: Seq<u8>, entries: Seq<Entry>)
    requires
        has_directory(b, entries),
        entries.len() == 16,
        entries[0].tag == WIDTH,
        entries[1].tag == HEIGHT,
        entries[2].tag == BITS_PER_SAMPLE,
        entries[3].tag == COMPRESSION,
        entries[4].tag == PHOTOMETRIC,
        entries[5].tag == SAMPLES_PER_PIXEL,
        entries[6].tag == PLANAR_CONFIGURATION,
        entries[7].tag == TILE_WIDTH,
        entries[8].tag == TILE_LENGTH,
        entries[9].tag == TILE_OFFSETS,
        entries[10].tag == TILE_BYTE_COUNTS,
        entries[11].tag == EXTRA_SAMPLES,
        entries[12].tag == SAMPLE_FORMAT,
        entries[13].tag == MODEL_TRANSFORMATION,
        entries[14].tag == GEO_DOUBLE_PARAMS,
        entries[15].tag == NODATA,
    ensures
        is_tiff(b),
        entry(b, WIDTH) == Some(10int),
        entry(b, HEIGHT) == Some(22int),
        entry(b, BITS_PER_SAMPLE) == Some(34int),
        entry(b, COMPRESSION) == Some(46int),
        entry(b, SAMPLES_PER_PIXEL) == Some(70int),
        entry(b, PLANAR_CONFIGURATION) == Some(82int),
        entry(b, TILE_WIDTH) == Some(94int),
        entry(b, TILE_LENGTH) == Some(106int),
        entry(b, TILE_OFFSETS) == Some(118int),
        entry(b, SAMPLE_FORMAT) == Some(154int),
        entry(b, MODEL_TRANSFORMATION) == Some(166int),
        entry(b, GEO_DOUBLE_PARAMS) == Some(178int),
        entry(b, NODATA) == Some(190int),
        stands_at(b, 10, entries[0]),
        stands_at(b, 22, entries[1]),
        stands_at(b, 34, entries[2]),
        stands_at(b, 46, entries[3]),
        stands_at(b, 58, entries[4]),
        stands_at(b, 70, entries[5]),
        stands_at(b, 82, entries[6]),
        stands_at(b, 94, entries[7]),
        stands_at(b, 106, entries[8]),
        stands_at(b, 118, entries[9]),
        stands_at(b, 130, entries[10]),
        stands_at(b, 142, entries[11]),
        stands_at(b, 154, entries[12]),
        stands_at(b, 166, entries[13]),
        stands_at(b, 178, entries[14]),
        stands_at(b, 190, entries[15]),
{
    assert(stands_at(b, 10, entries[0]));
    assert(stands_at(b, 22, entries[1]));
    assert(stands_at(b, 34, entries[2]));
    assert(stands_at(b, 46, entries[3]));
    assert(stands_at(b, 58, entries[4]));
    assert(stands_at(b, 70, entries[5]));
    assert(stands_at(b, 82, entries[6]));
    assert(stands_at(b, 94, entries[7]));
    assert(stands_at(b, 106, entries[8]));
    assert(stands_at(b, 118, entries[9]));
    assert(stands_at(b, 130, entries[10]));
    assert(stands_at(b, 142, entries[11]));
    assert(stands_at(b, 154, entries[12]));
    assert(stands_at(b, 166, entries[13]));
    assert(stands_at(b, 178, entries[14]));
    assert(stands_at(b, 190, entries[15]));
    reveal_with_fuel(entry_from, 17);
}

/// The sixteen numbers of the map to the ground for a geotransform.
pub open spec fn transformation(gt: Seq<Double>) -> Seq<Double> {
    let zero = Double { bits: 0 };
    let one = Double { bits: 0x3ff0_0000_0000_0000 };
    seq![
        gt[1], gt[2], zero, gt[0], gt[4], gt[5], zero, gt[3],
        zero, zero, zero, zero, zero, zero, zero, one,
    ]
}

fn write_transformation(gt: &[Double]) -> (r: Vec<Double>)
    requires
        gt@.len() == 6,
    ensures
        r@ == transformation(gt@),
{
    let zero = Double { bits: 0 };
    let one = Double { bits: 0x3ff0_0000_0000_0000 };
    let r = vec![
        gt[1], gt[2], zero, gt[0], gt[4], gt[5], zero, gt[3],
        zero, zero, zero, zero, zero, zero, zero, one,
    ];
    assert(r@ =~= transformation(gt@));
    r
}

/// What can be written: a raster and tiles of some size, two bands of the raster's
/// size, six numbers of the geotransform, some parameters, a whole number below 2^24
/// for missing values, and a file of less than 2^32 bytes.
pub open spec fn writable(
    l: Layout,
    gt: Seq<Double>,
    params: Seq<Double>,
    nodata: int,
    band0: Seq<Single>,
    band1: Seq<Single>,
) -> bool {
    &&& l.proper()
    &&& gt.len() == 6
    &&& params.len() >= 1
    &&& -0x100_0000 < nodata < 0x100_0000
    &&& band0.len() == l.width * l.height
    &&& band1.len() == l.width * l.height
    &&& file_size(l, params.len() as int) <= 0xffff_ffff
}

/// Where the tiles start.
pub open spec fn data_start(l: Layout, params: int) -> int {
    344 + 8 * params + 16 * l.tiles()
}

pub open spec fn file_size(l: Layout, params: int) -> int {
    data_start(l, params) + 8 * (l.tiles() * l.area())
}

/// The value for missing data.
pub open spec fn missing_number(nodata: int) -> Single {
    whole_single(
        nodata < 0,
        if nodata < 0 {
            -nodata
        } else {
            nodata
        },
    )
}

/// The entries of a file with so many parameters.
pub open spec fn written_entries(l: Layout, m: int) -> Seq<Entry> {
    entries_of(
        l.width as u32,
        l.height as u32,
        l.tile_width as u32,
        l.tile_height as u32,
        l.tiles() as u32,
        m as u32,
        (334 + 8 * m) as u32,
        (344 + 8 * m) as u32,
        (344 + 8 * m + 8 * l.tiles()) as u32,
    )
}

/// What stands before the tiles, each part where the directory says.
#[verifier::opaque]
spec fn has_head(
    b: Seq<u8>,
    l: Layout,
    gt: Seq<Double>,
    params: Seq<Double>,
    nodata: int,
) -> bool {
    let m = params.len() as int;
    &&& has_directory(b, written_entries(l, m))
    &&& forall|i: int|
        0 <= i < 16 ==> u64_at(b, 206 + 8 * i) == (#[trigger] transformation(gt)[i]).bits
    &&& forall|i: int| 0 <= i < m ==> u64_at(b, 334 + 8 * i) == (#[trigger] params[i]).bits
    &&& missing_value(b.subrange(334 + 8 * m, 344 + 8 * m)) == Some(missing_number(nodata))
    &&& forall|t: int|
        0 <= t < 2 * l.tiles() ==> #[trigger] tile_at(b, 344 + 8 * m, t) == data_start(l, m) + (4
            * l.area()) * t
}

/// A written file: its head and the tiles of its first band.
#[verifier::opaque]
spec fn has_parts(
    b: Seq<u8>,
    l: Layout,
    gt: Seq<Double>,
    params: Seq<Double>,
    nodata: int,
    band0: Seq<Single>,
) -> bool {
    let start = data_start(l, params.len() as int);
    &&& b.len() == file_size(l, params.len() as int)
    &&& has_head(b, l, gt, params, nodata)
    &&& forall|k: int|
        0 <= k < l.tiles() * l.area() ==> #[trigger] tile_at(b, start, k) == l.cell(band0, k).bits
}

/// The raster that a written file holds.
pub open spec fn written(
    l: Layout,
    gt: Seq<Double>,
    params: Seq<Double>,
    nodata: int,
    band0: Seq<Single>,
) -> RasterView {
    RasterView {
        width: l.width,
        height: l.height,
        values: band0,
        nodata: Some(missing_number(nodata)),
        geotransform: gt,
        geo_double_params: params,
    }
}

proof fn lemma_areas(l: Layout)
    requires
        l.proper(),
    ensures
        l.tiles() >= 1,
        l.area() >= 1,
        l.tiles() <= l.tiles() * l.area(),
        l.area() <= l.tiles() * l.area(),
        l.width * l.height <= l.tiles() * l.area(),
{
    lemma_tiles_along(l.width, l.tile_width);
    lemma_tiles_along(l.height, l.tile_height);
    let (a, d) = (l.across(), l.down());
    let (p, q) = (a * l.tile_width, d * l.tile_height);
    assert(a * d >= 1) by (nonlinear_arith)
        requires
            a >= 1,
            d >= 1,
    ;
    assert(l.tile_width * l.tile_height >= 1) by (nonlinear_arith)
        requires
            l.tile_width >= 1,
            l.tile_height >= 1,
    ;
    let (t, r) = (l.tiles(), l.area());
    assert(t <= t * r && r <= t * r) by (nonlinear_arith)
        requires
            t >= 1,
            r >= 1,
    ;
    assert(l.width * l.height <= p * q) by (nonlinear_arith)
        requires
            0 < l.width <= p,
            0 < l.height <= q,
    ;
    assert((a * l.tile_width) * (d * l.tile_height) == (a * d) * (l.tile_width * l.tile_height))
        by (nonlinear_arith);
}

proof fn lemma_long(b: Seq<u8>, tag: u16, e: int, entry: Entry)
    requires
        self::entry(b, tag) == Some(e),
        stands_at(b, e, entry),
        entry.kind == LONG,
        entry.count == 1,
    ensures
        scalar(b, tag) == Some(entry.value as int),
{
}

proof fn lemma_short(b: Seq<u8>, tag: u16, e: int, entry: Entry)
    requires
        self::entry(b, tag) == Some(e),
        stands_at(b, e, entry),
        entry.kind == SHORT,
        1 <= entry.count <= 2,
    ensures
        scalar(b, tag) == Some(entry.value as int % 0x1_0000),
{
}

proof fn lemma_list(b: Seq<u8>, tag: u16, e: int, entry: Entry, size: int)
    requires
        self::entry(b, tag) == Some(e),
        stands_at(b, e, entry),
        size * entry.count > 4,
        entry.value + size * entry.count <= b.len(),
    ensures
        list(b, tag, entry.kind, size) == Some((entry.value as int, entry.count as int)),
{
}

proof fn lemma_read_sizes(b: Seq<u8>, l: Layout, m: int)
    requires
        l.proper(),
        m >= 1,
        file_size(l, m) <= 0xffff_ffff,
        b.len() == file_size(l, m),
        has_directory(b, written_entries(l, m)),
    ensures
        is_tiff(b),
        layout_of(b) == Some(l),
        list(b, TILE_OFFSETS, LONG, 4) == Some((344 + 8 * m, 2 * l.tiles())),
        list(b, MODEL_TRANSFORMATION, DOUBLE, 8) == Some((206int, 16int)),
        list(b, GEO_DOUBLE_PARAMS, DOUBLE, 8) == Some((334int, m)),
        list(b, NODATA, ASCII, 1) == Some((334 + 8 * m, 10int)),
{
    lemma_areas(l);
    let entries = written_entries(l, m);
    lemma_lookup(b, entries);
    lemma_long(b, WIDTH, 10, entries[0]);
    lemma_long(b, HEIGHT, 22, entries[1]);
    lemma_short(b, BITS_PER_SAMPLE, 34, entries[2]);
    lemma_short(b, COMPRESSION, 46, entries[3]);
    lemma_short(b, PLANAR_CONFIGURATION, 82, entries[6]);
    lemma_long(b, TILE_WIDTH, 94, entries[7]);
    lemma_long(b, TILE_LENGTH, 106, entries[8]);
    lemma_list(b, TILE_OFFSETS, 118, entries[9], 4);
    lemma_short(b, SAMPLE_FORMAT, 154, entries[12]);
    lemma_list(b, MODEL_TRANSFORMATION, 166, entries[13], 8);
    lemma_list(b, GEO_DOUBLE_PARAMS, 178, entries[14], 8);
    lemma_list(b, NODATA, 190, entries[15], 1);
}

/// A list of doubles that stands where its entry points is read as it was.
proof fn lemma_read_doubles(b: Seq<u8>, tag: u16, at: int, xs: Seq<Double>)
    requires
        list(b, tag, DOUBLE, 8) == Some((at, xs.len() as int)),
        forall|i: int| 0 <= i < xs.len() ==> u64_at(b, at + 8 * i) == (#[trigger] xs[i]).bits,
    ensures
        doubles(b, tag) == Some(xs),
{
    let found = doubles(b, tag)->0;
    assert forall|i: int| 0 <= i < xs.len() implies found[i] == #[trigger] xs[i] by {
    }
    assert(found =~= xs);
}

proof fn lemma_read_values(
    b: Seq<u8>,
    l: Layout,
    gt: Seq<Double>,
    params: Seq<Double>,
    nodata: int,
    band0: Seq<Single>,
    band1: Seq<Single>,
)
    requires
        writable(l, gt, params, nodata, band0, band1),
        has_parts(b, l, gt, params, nodata, band0),
    ensures
        samples(b, 344 + 8 * params.len() as int, l) == band0,
        tiles_inside(b, 344 + 8 * params.len() as int, l),
{
    let m = params.len() as int;
    let list = 344 + 8 * m;
    let start = data_start(l, m);
    let (tiles, area) = (l.tiles(), l.area());
    let values = samples(b, list, l);
    lemma_areas(l);
    reveal(has_parts);
    reveal(has_head);
    assert forall|i: int| 0 <= i < values.len() implies values[i] == #[trigger] band0[i] by {
        let (x, y) = (i % l.width, i / l.width);
        lemma_row(i, l.width, l.height);
        lemma_pixel(l, x, y);
        lemma_cell(l, band0, x, y);
        let (t, p) = (l.tile_of(x, y), l.place_of(x, y));
        let k = t * area + p;
        assert(tile_at(b, list, t) == start + (4 * area) * t);
        assert((4 * area) * t == 4 * (t * area)) by (nonlinear_arith);
        assert(tile_at(b, start, k) == l.cell(band0, k).bits);
    }
    assert(values =~= band0);
    assert forall|t: int| 0 <= t < tiles implies #[trigger] tile_at(b, list, t) + 4 * area
        <= b.len() by {
        assert((4 * area) * t + 4 * area <= 4 * (tiles * area)) by (nonlinear_arith)
            requires
                0 <= t < tiles,
                area >= 1,
        ;
    }
}

proof fn lemma_decoded(b: Seq<u8>, offsets: int, n: int, l: Layout, m: Seq<Double>)
    requires
        is_tiff(b),
        layout_of(b) == Some(l),
        list(b, TILE_OFFSETS, LONG, 4) == Some((offsets, n)),
        n >= l.tiles(),
        4 * (l.width * l.height) <= b.len(),
        tiles_inside(b, offsets, l),
        doubles(b, MODEL_TRANSFORMATION) == Some(m),
        m.len() >= 16,
        doubles(b, GEO_DOUBLE_PARAMS) is Some,
    ensures
        decoded(b) == Ok::<RasterView, CogError>(
            RasterView {
                width: l.width,
                height: l.height,
                values: samples(b, offsets, l),
                nodata: nodata_of(b),
                geotransform: geotransform_of(m),
                geo_double_params: doubles(b, GEO_DOUBLE_PARAMS)->0,
            },
        ),
{
}

#[verifier::spinoff_prover]
proof fn lemma_read_georeference(
    b: Seq<u8>,
    l: Layout,
    gt: Seq<Double>,
    params: Seq<Double>,
    nodata: int,
    band0: Seq<Single>,
    band1: Seq<Single>,
)
    requires
        writable(l, gt, params, nodata, band0, band1),
        has_parts(b, l, gt, params, nodata, band0),
        has_directory(b, written_entries(l, params.len() as int)),
        b.len() == file_size(l, params.len() as int),
    ensures
        doubles(b, MODEL_TRANSFORMATION) == Some(transformation(gt)),
        doubles(b, GEO_DOUBLE_PARAMS) == Some(params),
        nodata_of(b) == Some(missing_number(nodata)),
{
    lemma_areas(l);
    lemma_read_sizes(b, l, params.len() as int);
    assert(doubles(b, MODEL_TRANSFORMATION) == Some(transformation(gt))) by {
        reveal(has_parts);
        reveal(has_head);
        lemma_read_doubles(b, MODEL_TRANSFORMATION, 206, transformation(gt));
    }
    assert(doubles(b, GEO_DOUBLE_PARAMS) == Some(params)) by {
        reveal(has_parts);
        reveal(has_head);
        lemma_read_doubles(b, GEO_DOUBLE_PARAMS, 334, params);
    }
    assert(nodata_of(b) == Some(missing_number(nodata))) by {
        reveal(has_parts);
        reveal(has_head);
    }
}

/// Reading a written file gives back what was written.
#[verifier::spinoff_prover]
proof fn lemma_read_back(
    b: Seq<u8>,
    l: Layout,
    gt: Seq<Double>,
    params: Seq<Double>,
    nodata: int,
    band0: Seq<Single>,
    band1: Seq<Single>,
)
    requires
        writable(l, gt, params, nodata, band0, band1),
        has_parts(b, l, gt, params, nodata, band0),
    ensures
        decoded(b) == Ok::<RasterView, CogError>(written(l, gt, params, nodata, band0)),
{
    let m = params.len() as int;
    lemma_areas(l);
    assert(b.len() == file_size(l, m) && has_directory(b, written_entries(l, m))) by {
        reveal(has_parts);
        reveal(has_head);
    }
    lemma_read_sizes(b, l, m);
    lemma_read_values(b, l, gt, params, nodata, band0, band1);
    lemma_read_georeference(b, l, gt, params, nodata, band0, band1);
    lemma_decoded(b, 344 + 8 * m, 2 * l.tiles(), l, transformation(gt));
    assert(geotransform_of(transformation(gt)) =~= gt);
}

fn make_entries(sizes: &Sizes, tiles: u32, doubles: u32) -> (r: Vec<Entry>)
    requires
        sizes.layout().proper(),
        tiles == sizes.layout().tiles(),
        344 + 8 * doubles + 16 * tiles <= 0xffff_ffff,
    ensures
        r@ == written_entries(sizes.layout(), doubles as int),
{
    let (width, height): (u32, u32) = (sizes.width, sizes.height);
    let (tile_width, tile_height): (u32, u32) = (sizes.tile_width, sizes.tile_height);
    let nodata: u32 = 334 + 8 * doubles;
    let offsets: u32 = 344 + 8 * doubles;
    let counts: u32 = offsets + 8 * tiles;
    let r = vec![
        Entry { tag: WIDTH, kind: LONG, count: 1, value: width },
        Entry { tag: HEIGHT, kind: LONG, count: 1, value: height },
        Entry { tag: BITS_PER_SAMPLE, kind: SHORT, count: 2, value: 0x20_0020 },
        Entry { tag: COMPRESSION, kind: SHORT, count: 1, value: 1 },
        Entry { tag: PHOTOMETRIC, kind: SHORT, count: 1, value: 1 },
        Entry { tag: SAMPLES_PER_PIXEL, kind: SHORT, count: 1, value: 2 },
        Entry { tag: PLANAR_CONFIGURATION, kind: SHORT, count: 1, value: 2 },
        Entry { tag: TILE_WIDTH, kind: LONG, count: 1, value: tile_width },
        Entry { tag: TILE_LENGTH, kind: LONG, count: 1, value: tile_height },
        Entry { tag: TILE_OFFSETS, kind: LONG, count: 2 * tiles, value: offsets },
        Entry { tag: TILE_BYTE_COUNTS, kind: LONG, count: 2 * tiles, value: counts },
        Entry { tag: EXTRA_SAMPLES, kind: SHORT, count: 1, value: 0 },
        Entry { tag: SAMPLE_FORMAT, kind: SHORT, count: 2, value: 0x3_0003 },
        Entry { tag: MODEL_TRANSFORMATION, kind: DOUBLE, count: 16, value: 206 },
        Entry { tag: GEO_DOUBLE_PARAMS, kind: DOUBLE, count: doubles, value: 334 },
        Entry { tag: NODATA, kind: ASCII, count: 10, value: nodata },
    ];
    assert(r@ =~= written_entries(sizes.layout(), doubles as int));
    r
}

/// The directory, the numbers and the text that it points to.
fn put_georeference(
    entries: &Vec<Entry>,
    gt: &[Double],
    params: &[Double],
    nodata: i32,
) -> (v: Vec<u8>)
    requires
        entries@.len() == 16,
        gt@.len() == 6,
        -0x100_0000 < nodata < 0x100_0000,
    ensures
        v@.len() == 344 + 8 * params@.len(),
        has_directory(v@, entries@),
        forall|i: int|
            0 <= i < 16 ==> u64_at(v@, 206 + 8 * i) == (#[trigger] transformation(gt@)[i]).bits,
        forall|i: int|
            0 <= i < params@.len() ==> u64_at(v@, 334 + 8 * i) == (#[trigger] params@[i]).bits,
        missing_value(v@.subrange(334 + 8 * params@.len() as int, 344 + 8 * params@.len() as int))
            == Some(missing_number(nodata as int)),
{
    let ghost m = params@.len() as int;
    let mut v = put_directory(entries);
    let ghost v0 = v@;
    let matrix = write_transformation(gt);
    put_doubles(&mut v, matrix.as_slice());
    let ghost v1 = v@;
    put_doubles(&mut v, params);
    let ghost v2 = v@;
    put_whole(&mut v, nodata);
    proof {
        let b = v@;
        lemma_directory_stays(v0, b, entries@);
        assert forall|i: int| 0 <= i < 16 implies u64_at(b, 206 + 8 * i) == (
        #[trigger] transformation(gt@)[i]).bits by {
            assert(u64_at(v1, 206 + 8 * i) == matrix@[i].bits);
        }
        assert forall|i: int| 0 <= i < m implies u64_at(b, 334 + 8 * i) == (
        #[trigger] params@[i]).bits by {
            assert(u64_at(v2, 334 + 8 * i) == params@[i].bits);
        }
    }
    v
}

/// The part of a file before the tiles.
fn put_head(
    sizes: &Sizes,
    tiles: u32,
    area: u32,
    gt: &[Double],
    params: &[Double],
    nodata: i32,
) -> (v: Vec<u8>)
    requires
        sizes.layout().proper(),
        tiles == sizes.layout().tiles(),
        area == sizes.layout().area(),
        gt@.len() == 6,
        -0x100_0000 < nodata < 0x100_0000,
        file_size(sizes.layout(), params@.len() as int) <= 0xffff_ffff,
    ensures
        v@.len() == data_start(sizes.layout(), params@.len() as int),
        has_head(v@, sizes.layout(), gt@, params@, nodata as int),
{
    let ghost l = sizes.layout();
    let ghost m = params@.len() as int;
    proof {
        lemma_areas(l);
        assert(params.len() == params@.len());
        assert((4 * area) * (2 * tiles) == 8 * (tiles * area)) by (nonlinear_arith);
        assert(4 * area <= 0xffff_ffff);
    }
    let entries = make_entries(sizes, tiles, params.len() as u32);
    let mut v = put_georeference(&entries, gt, params, nodata);
    let ghost v3 = v@;
    let start: u32 = 344 + 8 * params.len() as u32 + 16 * tiles;
    put_progression(&mut v, start, 4 * area, 2 * tiles);
    let ghost v4 = v@;
    put_progression(&mut v, 4 * area, 0, 2 * tiles);
    proof {
        lemma_lists(v3, v4, v@, l, gt@, params@, nodata as int);
    }
    v
}

proof fn lemma_lists(
    a: Seq<u8>,
    b: Seq<u8>,
    c: Seq<u8>,
    l: Layout,
    gt: Seq<Double>,
    params: Seq<Double>,
    nodata: int,
)
    requires
        a.len() == 344 + 8 * params.len(),
        has_directory(a, written_entries(l, params.len() as int)),
        forall|i: int|
            0 <= i < 16 ==> u64_at(a, 206 + 8 * i) == (#[trigger] transformation(gt)[i]).bits,
        forall|i: int|
            0 <= i < params.len() ==> u64_at(a, 334 + 8 * i) == (#[trigger] params[i]).bits,
        missing_value(a.subrange(334 + 8 * params.len() as int, 344 + 8 * params.len() as int))
            == Some(missing_number(nodata)),
        grown(a, b),
        b.len() == a.len() + 8 * l.tiles(),
        forall|t: int|
            0 <= t < 2 * l.tiles() ==> #[trigger] tile_at(b, a.len() as int, t) == data_start(
                l,
                params.len() as int,
            ) + (4 * l.area()) * t,
        grown(b, c),
    ensures
        has_head(c, l, gt, params, nodata),
{
    reveal(has_head);
    let m = params.len() as int;
    lemma_directory_stays(a, c, written_entries(l, m));
    assert forall|i: int| 0 <= i < 16 implies u64_at(c, 206 + 8 * i) == (
    #[trigger] transformation(gt)[i]).bits by {
        assert(u64_at(a, 206 + 8 * i) == transformation(gt)[i].bits);
    }
    assert forall|i: int| 0 <= i < m implies u64_at(c, 334 + 8 * i) == (
    #[trigger] params[i]).bits by {
        assert(u64_at(a, 334 + 8 * i) == params[i].bits);
    }
    assert(c.subrange(334 + 8 * m, 344 + 8 * m) =~= a.subrange(334 + 8 * m, 344 + 8 * m));
    assert forall|t: int| 0 <= t < 2 * l.tiles() implies #[trigger] tile_at(c, 344 + 8 * m, t)
        == data_start(l, m) + (4 * l.area()) * t by {
        assert(tile_at(b, a.len() as int, t) == data_start(l, m) + (4 * l.area()) * t);
    }
}

proof fn lemma_head_stays(
    a: Seq<u8>,
    b: Seq<u8>,
    l: Layout,
    gt: Seq<Double>,
    params: Seq<Double>,
    nodata: int,
)
    requires
        grown(a, b),
        l.proper(),
        a.len() == data_start(l, params.len() as int),
        has_head(a, l, gt, params, nodata),
    ensures
        has_head(b, l, gt, params, nodata),
{
    reveal(has_head);
    let m = params.len() as int;
    lemma_areas(l);
    lemma_directory_stays(a, b, written_entries(l, m));
    assert forall|i: int| 0 <= i < 16 implies u64_at(b, 206 + 8 * i) == (
    #[trigger] transformation(gt)[i]).bits by {
        assert(u64_at(a, 206 + 8 * i) == transformation(gt)[i].bits);
    }
    assert forall|i: int| 0 <= i < m implies u64_at(b, 334 + 8 * i) == (
    #[trigger] params[i]).bits by {
        assert(u64_at(a, 334 + 8 * i) == params[i].bits);
    }
    assert(b.subrange(334 + 8 * m, 344 + 8 * m) =~= a.subrange(334 + 8 * m, 344 + 8 * m));
    assert forall|t: int| 0 <= t < 2 * l.tiles() implies #[trigger] tile_at(b, 344 + 8 * m, t)
        == data_start(l, m) + (4 * l.area()) * t by {
        assert(tile_at(a, 344 + 8 * m, t) == data_start(l, m) + (4 * l.area()) * t);
    }
}

/// Writes a raster of two bands in tiles. Reading the file gives the raster back, with
/// the first band as its values.
pub fn write_float_cog(
    width: u32,
    height: u32,
    tile_width: u32,
    tile_height: u32,
    gt: &[Double],
    params: &[Double],
    nodata: i32,
    band0: &[Single],
    band1: &[Single],
) -> (r: Result<Vec<u8>, CogError>)
    ensures
        ({
            let l = Layout {
                width: width as int,
                height: height as int,
                tile_width: tile_width as int,
                tile_height: tile_height as int,
            };
            if writable(l, gt@, params@, nodata as int, band0@, band1@) {
                r matches Ok(b) && decoded(b@) == Ok::<RasterView, CogError>(
                    written(l, gt@, params@, nodata as int, band0@),
                )
            } else {
                r == Err::<Vec<u8>, CogError>(CogError::Layout)
            }
        }),
{
    if width == 0 || height == 0 || tile_width == 0 || tile_height == 0 || gt.len() != 6
        || params.len() == 0 || nodata <= -0x100_0000 || nodata >= 0x100_0000 {
        return Err(CogError::Layout);
    }
    let sizes = Sizes { width, height, tile_width, tile_height };
    let ghost l = sizes.layout();
    let pixels: u64 = sizes.pixels();
    if band0.len() as u64 != pixels || band1.len() as u64 != pixels {
        return Err(CogError::Layout);
    }
    let tiles: u64 = sizes.tiles();
    let area: u64 = sizes.area();
    proof {
        lemma_areas(l);
        assert(tiles as int * area as int == l.tiles() * l.area());
    }
    if tiles > 0xffff_ffff || area > 0xffff_ffff || params.len() as u64 > 0xffff_ffff {
        return Err(CogError::Layout);
    }
    proof {
        lemma_product(tiles as int, area as int);
    }
    let cells: u64 = tiles * area;
    if 344 + 8 * params.len() as u128 + 16 * tiles as u128 + 8 * cells as u128 > 0xffff_ffff {
        return Err(CogError::Layout);
    }
    let mut v = put_head(&sizes, tiles as u32, area as u32, gt, params, nodata);
    let ghost head = v@;
    put_tiles(&mut v, &sizes, band0, cells);
    let ghost first = v@;
    put_tiles(&mut v, &sizes, band1, cells);
    proof {
        let b = v@;
        let start = data_start(l, params@.len() as int);
        lemma_head_stays(head, b, l, gt@, params@, nodata as int);
        assert forall|k: int| 0 <= k < l.tiles() * l.area() implies #[trigger] tile_at(b, start, k)
            == l.cell(band0@, k).bits by {
            assert(tile_at(first, start, k) == l.cell(band0@, k).bits);
        }
        reveal(has_parts);
        lemma_read_back(b, l, gt@, params@, nodata as int, band0@, band1@);
    }
    Ok(v)
}

proof fn lemma_whole_value(m: int, s: int)
    requires
        0 < m < 0x100_0000,
        0 <= s <= 23,
        m >= pow2(s as nat),
    ensures
        steps(whole_bits(m, s), HIDDEN32 as int) == m * pow2((149 - s) as nat),
    decreases 24 - s,
{
    lemma2_to64();
    if m >= HIDDEN32 {
        let h = HIDDEN32 as int;
        lemma_fundamental_div_mod_converse(whole_bits(m, s), h, 150 - s, m - h);
    } else {
        lemma_pow2_unfold((s + 1) as nat);
        if s == 23 {
            assert(pow2(23) == 0x80_0000);
        }
        lemma_whole_value(2 * m, s + 1);
        lemma_pow2_unfold((149 - s) as nat);
        let p = pow2((148 - s) as nat) as int;
        assert((2 * m) * p == m * (2 * p)) by (nonlinear_arith);
    }
}

/// The number for missing data is finite, and it is the whole number that was given.
pub proof fn missing_number_is_whole(nodata: int)
    requires
        -0x100_0000 < nodata < 0x100_0000,
    ensures
        missing_number(nodata).is_finite(),
        missing_number(nodata).value() == nodata * pow2(149),
{
    let size = if nodata < 0 {
        -nodata
    } else {
        nodata
    };
    assert(steps(0, HIDDEN32 as int) == 0);
    if size > 0 {
        lemma2_to64();
        lemma_whole_bits(size, 0);
        lemma_whole_value(size, 0);
        assert((-size) * pow2(149) == -(size * pow2(149))) by (nonlinear_arith);
    } else {
        assert(0 * pow2(149) == 0);
    }
}

/// A raster that is read has a value for each of its pixels, and some pixels.
pub proof fn decoded_is_full(b: Seq<u8>)
    ensures
        decoded(b) matches Ok(raster) ==> {
            &&& raster.width > 0
            &&& raster.height > 0
            &&& raster.values.len() == raster.width * raster.height
            &&& raster.geotransform.len() == 6
        },
{
    if decoded(b) is Ok {
        let l = layout_of(b)->0;
        assert(l.width * l.height > 0) by (nonlinear_arith)
            requires
                l.width > 0,
                l.height > 0,
        ;
    }
}

/// The value of a pixel is the little-endian number at its place in its tile. The tiles
/// stand in rows, as many as reach over the width; the pixels of a tile stand in rows too;
/// and the values of the raster are its rows from the top, each from the left.
pub proof fn pixels_are_read_from_their_tiles(b: Seq<u8>, x: int, y: int)
    requires
        decoded(b) is Ok,
        0 <= x < decoded(b)->Ok_0.width,
        0 <= y < decoded(b)->Ok_0.height,
    ensures
        ({
            let r = decoded(b)->Ok_0;
            let tw = scalar(b, 322)->0;
            let th = scalar(b, 323)->0;
            let across = (r.width + tw - 1) / tw;
            let (first, _) = list(b, 324, 4, 4)->0;
            let o = first + 4 * ((y / th) * across + x / tw);
            let p = b[o] + 0x100 * b[o + 1] + 0x1_0000 * b[o + 2] + 0x100_0000 * b[o + 3] + 4 * ((y
                % th) * tw + x % tw);
            &&& scalar(b, 256) == Some(r.width) && scalar(b, 257) == Some(r.height)
            &&& scalar(b, 322) is Some && scalar(b, 323) is Some && list(b, 324, 4, 4) is Some
            &&& tw > 0 && th > 0
            &&& r.values.len() == r.width * r.height
            &&& 0 <= y * r.width + x < r.values.len()
            &&& r.values[y * r.width + x].bits == b[p] + 0x100 * b[p + 1] + 0x1_0000 * b[p + 2]
                + 0x100_0000 * b[p + 3]
        }),
{
    let r = decoded(b)->Ok_0;
    let l = layout_of(b)->0;
    let w = l.width;
    let i = y * w + x;
    assert(0 <= i < w * l.height) by (nonlinear_arith)
        requires
            0 <= x < w,
            0 <= y < l.height,
            i == y * w + x,
    ;
    assert(i == w * y + x) by (nonlinear_arith)
        requires
            i == y * w + x,
    ;
    lemma_fundamental_div_mod_converse(i, w, y, x);
    let (offsets, _) = list(b, TILE_OFFSETS, LONG, 4)->0;
    assert(r.values[i] == sample(b, offsets, l, x, y));
}

/// The corner and the steps of a raster are six of the sixteen numbers of its map to the
/// ground, the parameters those of the projection, and numbers of a tag stand in the file
/// one after another, each in eight bytes from the lowest.
pub proof fn georeference_is_read_from_its_tags(b: Seq<u8>)
    requires
        decoded(b) is Ok,
    ensures
        ({
            let r = decoded(b)->Ok_0;
            let m = doubles(b, 34264)->0;
            &&& doubles(b, 34264) is Some && m.len() >= 16
            &&& r.geotransform.len() == 6
            &&& r.geotransform[0] == m[3] && r.geotransform[1] == m[0] && r.geotransform[2] == m[1]
            &&& r.geotransform[3] == m[7] && r.geotransform[4] == m[4] && r.geotransform[5] == m[5]
            &&& doubles(b, 34736) is Some ==> r.geo_double_params == doubles(b, 34736)->0
            &&& doubles(b, 34736) is None ==> r.geo_double_params.len() == 0
            &&& list(b, 42113, 2, 1) is None ==> r.nodata is None
            &&& list(b, 42113, 2, 1) is Some ==> {
                let (at, n) = list(b, 42113, 2, 1)->0;
                r.nodata == missing_value(b.subrange(at, at + n))
            }
        }),
{
}

/// The numbers of a tag are as many as its entry says, in eight bytes each.
pub proof fn numbers_stand_in_eight_bytes(b: Seq<u8>, tag: u16, i: int)
    requires
        doubles(b, tag) is Some,
        0 <= i < doubles(b, tag)->0.len(),
    ensures
        ({
            let (at, n) = list(b, tag, 12, 8)->0;
            let p = at + 8 * i;
            &&& list(b, tag, 12, 8) is Some
            &&& doubles(b, tag)->0.len() == n
            &&& doubles(b, tag)->0[i].bits == b[p] + 0x100 * b[p + 1] + 0x1_0000 * b[p + 2]
                + 0x100_0000 * b[p + 3] + 0x1_0000_0000 * b[p + 4] + 0x100_0000_0000 * b[p + 5]
                + 0x1_0000_0000_0000 * b[p + 6] + 0x100_0000_0000_0000 * b[p + 7]
        }),
{
}

proof fn lemma_entry_at(b: Seq<u8>, tag: u16, from: int, k: int)
    requires
        0 <= from <= k <= u16_at(b, directory(b)),
        forall|j: int|
            from <= j < k ==> u16_at(b, #[trigger] (directory(b) + 2 + 12 * j)) != tag,
        k < u16_at(b, directory(b)) ==> u16_at(b, directory(b) + 2 + 12 * k) == tag,
    ensures
        entry_from(b, tag, from) == if k < u16_at(b, directory(b)) {
            Some(directory(b) + 2 + 12 * k)
        } else {
            None
        },
    decreases k - from,
{
    if from < k {
        assert(u16_at(b, directory(b) + 2 + 12 * from) != tag);
        lemma_entry_at(b, tag, from + 1, k);
    }
}

/// A tag is found at its first entry in the directory, twelve bytes apart behind the
/// number of entries; without one there is none.
pub proof fn tag_is_found_at_its_first_entry(b: Seq<u8>, tag: u16, d: int, n: int, k: int)
    requires
        b.len() >= 8,
        d == b[4] + 0x100 * b[5] + 0x1_0000 * b[6] + 0x100_0000 * b[7],
        n == b[d] + 0x100 * b[d + 1],
        0 <= k <= n,
        k < n ==> b[d + 2 + 12 * k] + 0x100 * b[d + 3 + 12 * k] == tag,
        forall|j: int| #![trigger b[d + 2 + 12 * j]]
            0 <= j < k ==> b[d + 2 + 12 * j] + 0x100 * b[d + 3 + 12 * j] != tag,
    ensures
        entry(b, tag) == if k < n {
            Some(d + 2 + 12 * k)
        } else {
            None
        },
{
    assert forall|j: int| 0 <= j < k implies u16_at(b, #[trigger] (directory(b) + 2 + 12 * j))
        != tag by {
        assert(b[d + 2 + 12 * j] + 0x100 * b[d + 3 + 12 * j] != tag);
        assert(d + 2 + 12 * j + 1 == d + 3 + 12 * j);
    }
    assert(d + 2 + 12 * k + 1 == d + 3 + 12 * k);
    lemma_entry_at(b, tag, 0, k);
}

/// A number of a tag stands in its entry behind the tag, the type and the count: a short
/// in two bytes and a long in four, from the lowest.
pub proof fn single_numbers_stand_in_their_entries(b: Seq<u8>, tag: u16, e: int)
    requires
        entry(b, tag) == Some(e),
        b[e + 4] == 1 && b[e + 5] == 0 && b[e + 6] == 0 && b[e + 7] == 0,
        b[e + 3] == 0,
    ensures
        b[e + 2] == 3 ==> scalar(b, tag) == Some(b[e + 8] + 0x100 * b[e + 9]),
        b[e + 2] == 4 ==> scalar(b, tag) == Some(
            b[e + 8] + 0x100 * b[e + 9] + 0x1_0000 * b[e + 10] + 0x100_0000 * b[e + 11],
        ),
        b[e + 2] != 3 && b[e + 2] != 4 ==> scalar(b, tag) is None,
{
}

/// The values of a tag stand in its entry where they fit four bytes, and otherwise where
/// the entry points, if all of them are in the file.
pub proof fn values_stand_where_their_entry_points(
    b: Seq<u8>,
    tag: u16,
    kind: u16,
    size: int,
    e: int,
)
    requires
        entry(b, tag) == Some(e),
    ensures
        ({
            let n = b[e + 4] + 0x100 * b[e + 5] + 0x1_0000 * b[e + 6] + 0x100_0000 * b[e + 7];
            let at = b[e + 8] + 0x100 * b[e + 9] + 0x1_0000 * b[e + 10] + 0x100_0000 * b[e + 11];
            &&& b[e + 2] + 0x100 * b[e + 3] != kind ==> list(b, tag, kind, size) is None
            &&& b[e + 2] + 0x100 * b[e + 3] == kind && size * n <= 4 ==> list(b, tag, kind, size)
                == Some((e + 8, n))
            &&& b[e + 2] + 0x100 * b[e + 3] == kind && size * n > 4 && at + size * n <= b.len()
                ==> list(b, tag, kind, size) == Some((at, n))
            &&& b[e + 2] + 0x100 * b[e + 3] == kind && size * n > 4 && at + size * n > b.len()
                ==> list(b, tag, kind, size) is None
        }),
{
}

/// What is read is little-endian, not compressed, of 32-bit floating-point samples, with
/// one band or with its bands apart.
pub proof fn only_plain_files_are_read(b: Seq<u8>)
    ensures
        decoded(b) is Ok ==> {
            &&& b.len() >= 8 && b[0] == 73 && b[1] == 73 && b[2] == 42 && b[3] == 0
            &&& scalar(b, 259) == Some(1int)
            &&& scalar(b, 258) == Some(32int)
            &&& scalar(b, 339) == Some(3int)
            &&& scalar(b, 277) == Some(1int) || scalar(b, 284) == Some(2int)
        },
        b.len() < 8 || b[0] != 73 || b[1] != 73 || b[2] != 42 || b[3] != 0 ==> decoded(b) == Err::<
            RasterView,
            CogError,
        >(CogError::NotTiff),
{
}

/// Digits write their number: another digit makes ten times as much and the digit.
pub proof fn digits_write_their_number(digits: Seq<u8>, d: u8)
    requires
        d <= 9,
    ensures
        number(seq![(48 + d) as u8]) == d,
        number(digits.push((48 + d) as u8)) == 10 * number(digits) + d,
{
    let one = seq![(48 + d) as u8];
    assert(one.drop_last() =~= Seq::empty());
    assert(number(one.drop_last()) == 0);
    assert(digits.push((48 + d) as u8).drop_last() =~= digits);
}

proof fn lemma_text_of(text: Seq<u8>, zeros: Seq<u8>)
    requires
        text.len() > 0 ==> text.last() != 0,
        forall|i: int| 0 <= i < zeros.len() ==> #[trigger] zeros[i] == 0,
    ensures
        text_of(text + zeros) == text,
    decreases zeros.len(),
{
    if zeros.len() > 0 {
        assert((text + zeros).drop_last() =~= text + zeros.drop_last());
        lemma_text_of(text, zeros.drop_last());
    } else {
        assert(text + zeros =~= text);
    }
}

/// The text for missing data is a whole number, behind a minus sign where it is below
/// zero, and zero bytes behind it do not count.
pub proof fn missing_text_is_a_whole_number(digits: Seq<u8>, zeros: Seq<u8>)
    requires
        digits.len() > 0,
        forall|i: int| 0 <= i < digits.len() ==> 48 <= #[trigger] digits[i] <= 57,
        forall|i: int| 0 <= i < zeros.len() ==> #[trigger] zeros[i] == 0,
        number(digits) < 0x100_0000,
    ensures
        missing_value(digits + zeros) matches Some(v) && v.is_finite() && v.value() == number(
            digits,
        ) * pow2(149),
        missing_value(seq![45u8] + digits + zeros) matches Some(v) && v.is_finite() && v.value()
            == -(number(digits) * pow2(149)),
{
    let n = number(digits) as int;
    lemma_text_of(digits, zeros);
    let signed = seq![45u8] + digits;
    assert(signed.last() == digits.last());
    lemma_text_of(signed, zeros);
    assert(signed.skip(1) =~= digits);
    assert(digits[0] != 45);
    assert(are_digits(digits));
    missing_number_is_whole(n);
    missing_number_is_whole(-n);
    assert((-n) * pow2(149) == -(n * pow2(149))) by (nonlinear_arith);
    assert(steps(0, HIDDEN32 as int) == 0);
}

/// What a written file holds is what was given.
pub proof fn written_file_holds_what_was_given(
    l: Layout,
    gt: Seq<Double>,
    params: Seq<Double>,
    nodata: int,
    band0: Seq<Single>,
)
    requires
        -0x100_0000 < nodata < 0x100_0000,
    ensures
        ({
            let r = written(l, gt, params, nodata, band0);
            &&& r.width == l.width && r.height == l.height
            &&& r.values == band0
            &&& r.geotransform == gt
            &&& r.geo_double_params == params
            &&& r.nodata is Some && r.nodata->0.is_finite()
            &&& r.nodata->0.value() == nodata * pow2(149)
        }),
{
    missing_number_is_whole(nodata);
}

/// A file is read where its directory is whole, its sizes are above zero, its samples are
/// plain 32-bit floating-point numbers, as many tiles are listed as reach over the raster,
/// all of them are in the file, and the map to the ground has its sixteen numbers.
pub proof fn whole_plain_files_are_read(b: Seq<u8>, l: Layout, d: int, first: int, n: int)
    requires
        b.len() >= 8,
        b[0] == 73 && b[1] == 73 && b[2] == 42 && b[3] == 0,
        d == b[4] + 0x100 * b[5] + 0x1_0000 * b[6] + 0x100_0000 * b[7],
        d + 2 <= b.len(),
        d + 2 + 12 * (b[d] + 0x100 * b[d + 1]) <= b.len(),
        scalar(b, 256) == Some(l.width) && scalar(b, 257) == Some(l.height),
        scalar(b, 322) == Some(l.tile_width) && scalar(b, 323) == Some(l.tile_height),
        l.width > 0 && l.height > 0 && l.tile_width > 0 && l.tile_height > 0,
        scalar(b, 259) == Some(1int) && scalar(b, 258) == Some(32int) && scalar(b, 339) == Some(
            3int,
        ),
        scalar(b, 277) == Some(1int) || scalar(b, 284) == Some(2int),
        list(b, 324, 4, 4) == Some((first, n)),
        ((l.width + l.tile_width - 1) / l.tile_width) * ((l.height + l.tile_height - 1)
            / l.tile_height) <= n,
        4 * (l.width * l.height) <= b.len(),
        forall|t: int|
            0 <= t < n ==> #[trigger] tile_at(b, first, t) + 4 * (l.tile_width * l.tile_height)
                <= b.len(),
        doubles(b, 34264) is Some && doubles(b, 34264)->0.len() >= 16,
    ensures
        decoded(b) is Ok,
        forall|t: int| #[trigger]
            tile_at(b, first, t) == b[first + 4 * t] + 0x100 * b[first + 4 * t + 1] + 0x1_0000
                * b[first + 4 * t + 2] + 0x100_0000 * b[first + 4 * t + 3],
{
    assert(layout_of(b) == Some(l));
    assert(l.tiles() <= n);
    assert(tiles_inside(b, first, l));
}

/// A text for missing data that is empty, a minus sign alone, or holds anything but digits
/// behind a minus sign in front, tells none.
pub proof fn missing_text_holds_digits_alone(text: Seq<u8>, i: int)
    requires
        text.len() > 0 ==> text.last() != 0,
        text.len() == 0 || text == seq![45u8] || 0 <= i < text.len() && !(48 <= text[i] <= 57) && (i
            > 0 || text[0] != 45),
    ensures
        missing_value(text) is None,
{
    assert(text_of(text) == text);
    if text.len() > 0 && text[0] == 45 {
        if text.len() > 1 {
            assert(text.skip(1)[i - 1] == text[i]);
            assert(!is_digit_byte(text.skip(1)[i - 1]));
        }
    } else if text.len() > 0 {
        assert(!is_digit_byte(text[i]));
    }
}

/// A raster is seen field by field, and each error is told in words.
pub proof fn rasters_are_seen_field_by_field(r: DecodedRaster)
    ensures
        r@.width == r.width,
        r@.height == r.height,
        r@.values == r.values@,
        r@.nodata == r.nodata,
        r@.geotransform == r.geotransform@,
        r@.geo_double_params == r.geo_double_params@,
        CogError::NotTiff.message() == "not a little-endian TIFF"@,
        CogError::Layout.message() == "unsupported COG layout"@,
        CogError::Truncated.message() == "truncated COG"@,
        CogError::NoGeoreference.message() == "COG without a model transformation"@,
{
}

/// A raster can be written that has pixels and tiles, six numbers for the ground, some
/// parameters, a missing value below 2^24 in size, two whole bands, and a file of less
/// than four gigabytes: 344 bytes, eight for each parameter, sixteen for each tile and
/// eight for each pixel of the tiles.
pub proof fn rasters_that_fit_are_written(
    l: Layout,
    gt: Seq<Double>,
    params: Seq<Double>,
    nodata: int,
    band0: Seq<Single>,
    band1: Seq<Single>,
)
    requires
        0 < l.width <= u32::MAX && 0 < l.height <= u32::MAX,
        0 < l.tile_width <= u32::MAX && 0 < l.tile_height <= u32::MAX,
        gt.len() == 6,
        params.len() >= 1,
        -16_777_216 < nodata < 16_777_216,
        band0.len() == l.width * l.height,
        band1.len() == l.width * l.height,
    ensures
        ({
            let tiles = ((l.width + l.tile_width - 1) / l.tile_width) * ((l.height + l.tile_height
                - 1) / l.tile_height);
            writable(l, gt, params, nodata, band0, band1) <==> 344 + 8 * params.len() + 16 * tiles
                + 8 * (tiles * (l.tile_width * l.tile_height)) <= 0xffff_ffff
        }),
{
}

} // verus!
