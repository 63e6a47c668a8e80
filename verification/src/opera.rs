//! The European reflectivity mosaic: its metadata, its frames and its polling.

use crate::calendar::{
    format_moment, is_day, moment_text, Stamp, FRAME_ID_FORMAT, SCAN_TIME_FORMAT,
};
use crate::cog::{
    decode_float_cog, decoded, decoded_is_full, missing_number, writable, write_float_cog, written,
    CogError, DecodedRaster, Layout, RasterView,
};
use crate::ieee::{
    apart_is_beyond_the_tolerance, exponent_of, patterns_tell_the_value, significand_of,
    tolerance_fits, whole_number_pattern, Double, Single, HIDDEN64,
};
use crate::image::{encode_png, png_head, png_of};
use crate::listing::{
    backfill_targets, comp_views, day_ahead_of, list_recent, newest_unseen, targets_of, CompObject,
    Known, Recent,
};
use crate::protocol::{
    AdapterTarget, Coverage, Crs, Ellipsoid, Family, FrameStatus, GeoPoint, Kind, MosaicFrame,
    ProductClass,
};
use crate::source::{
    covering_is_range_or_box, covers, is_opera, AdapterCoverage, Candidate, SourceMetadataBorrowed,
};
use crate::text::views;
use crate::texture::{
    check_classes, classes_fit, classify, pixels_are_opaque, pixels_of, small_palette_fits, FILL,
};
use vstd::arithmetic::div_mod::lemma_fundamental_div_mod_converse;
use vstd::arithmetic::power2::{
    lemma2_to64, lemma2_to64_rest, lemma_pow2_adds, lemma_pow2_pos, pow2,
};
use vstd::prelude::*;

verus! {

pub const ID: &'static str = "opera";

pub const NAME: &'static str = "EUMETNET OPERA";

pub const ATTRIBUTION: &'static str = "EUMETNET OPERA";

/// Continental fallback: below national mosaics.
pub const SELECTION_PRIORITY: i32 = 10;

/// 70, the north of the service's footprint.
pub const COVERAGE_NORTH: u64 = 0x4051_8000_0000_0000;

/// 32.
pub const COVERAGE_SOUTH: u64 = 0x4040_0000_0000_0000;

/// -30.
pub const COVERAGE_WEST: u64 = 0xc03e_0000_0000_0000;

/// 50.
pub const COVERAGE_EAST: u64 = 0x4049_0000_0000_0000;

/// 55.
pub const LAT0_DEG: u64 = 0x404b_8000_0000_0000;

/// 10.
pub const LON0_DEG: u64 = 0x4024_0000_0000_0000;

/// 1950000.
pub const FALSE_EASTING_M: u64 = 0x413d_c130_0000_0000;

/// -2100000.
pub const FALSE_NORTHING_M: u64 = 0xc140_0590_0000_0000;

/// 1000, the width of a pixel in metres.
pub const PIXEL_WIDTH: u64 = 0x408f_4000_0000_0000;

/// -1000, a step down by one pixel.
pub const PIXEL_HEIGHT: u64 = 0xc08f_4000_0000_0000;

/// 1e-6.
pub const FINE: u64 = 0x3eb0_c6f7_a0b5_ed8d;

/// 1e-3.
pub const COARSE: u64 = 0x3f50_624d_d2f1_a9fc;

/// The most bytes of one object.
pub const BODY_MAX: usize = 12_582_912;

/// How many frames the timeline holds.
pub const HISTORY_MAX: usize = 12;

/// How many keys are remembered before all but the newest are forgotten.
pub const KNOWN_MAX: usize = 48;

pub const SILENT: &'static str = "ORD cache has no OPERA DBZH.tiff yet";

pub const TIMED_OUT: &'static str = "OPERA fetch timed out";

pub const TEXTURE_FAILED: &'static str = "encoding OPERA texture: ";

pub open spec fn double(bits: u64) -> Double {
    Double { bits }
}

/// What polling the mosaic tells.
#[derive(Debug)]
pub enum Event {
    /// The newest frame: it joins the timeline and takes the screen while following.
    Frame { frame: Box<MosaicFrame>, texture: Vec<u8>, start_ms: i64 },
    /// An earlier frame: it joins the timeline, and the screen stays.
    Backfill { frame: Box<MosaicFrame>, texture: Vec<u8>, start_ms: i64 },
    Offline { reason: String },
    Silent { reason: String },
}

/// The adapter of the mosaic, with the palette and the edges of its classes.
#[derive(Debug)]
pub struct Opera {
    pub id: &'static str,
    pub coverage: Coverage,
    pub palette: Vec<String>,
    pub bounds: Vec<Double>,
}

pub open spec fn footprint() -> Coverage {
    Coverage::Box {
        north: double(COVERAGE_NORTH),
        south: double(COVERAGE_SOUTH),
        east: double(COVERAGE_EAST),
        west: double(COVERAGE_WEST),
    }
}

pub fn coverage() -> (r: Coverage)
    ensures
        r == footprint(),
{
    Coverage::Box {
        north: Double { bits: COVERAGE_NORTH },
        south: Double { bits: COVERAGE_SOUTH },
        east: Double { bits: COVERAGE_EAST },
        west: Double { bits: COVERAGE_WEST },
    }
}

/// The azimuthal equal-area projection of the mosaic.
pub open spec fn is_laea(crs: Crs) -> bool {
    match crs {
        Crs::LambertAzimuthalEqualArea {
            ellipsoid,
            lat0_deg,
            lon0_deg,
            false_easting_m,
            false_northing_m,
            datum_transform,
        } => {
            &&& ellipsoid == Ellipsoid::WGS84
            &&& lat0_deg == double(LAT0_DEG)
            &&& lon0_deg == double(LON0_DEG)
            &&& false_easting_m == double(FALSE_EASTING_M)
            &&& false_northing_m == double(FALSE_NORTHING_M)
            &&& datum_transform is None
        },
    }
}

impl Opera {
    pub fn new(palette: Vec<String>, bounds: Vec<Double>) -> (r: Opera)
        ensures
            r.id@ == ID@,
            r.coverage == footprint(),
            r.palette == palette,
            r.bounds == bounds,
    {
        Opera { id: ID, coverage: coverage(), palette, bounds }
    }

    pub fn metadata(&self) -> (r: SourceMetadataBorrowed<'_>)
        ensures
            r.id@ == self.id@,
            r.family == Family::Grid,
            r.kind == Kind::Mosaic,
            r.default_product_class == ProductClass::Reflectivity,
            r.name@ == NAME@,
            r.attribution@ == ATTRIBUTION@,
            r.coverage == (AdapterCoverage::Mosaic {
                coverage: &self.coverage,
                selection_priority: SELECTION_PRIORITY,
            }),
    {
        SourceMetadataBorrowed {
            id: self.id,
            family: Family::Grid,
            kind: Kind::Mosaic,
            default_product_class: ProductClass::Reflectivity,
            name: NAME,
            attribution: ATTRIBUTION,
            coverage: AdapterCoverage::Mosaic {
                coverage: &self.coverage,
                selection_priority: SELECTION_PRIORITY,
            },
        }
    }

    pub fn crs() -> (r: Crs)
        ensures
            is_laea(r),
    {
        Crs::LambertAzimuthalEqualArea {
            ellipsoid: Ellipsoid::WGS84,
            lat0_deg: Double { bits: LAT0_DEG },
            lon0_deg: Double { bits: LON0_DEG },
            false_easting_m: Double { bits: FALSE_EASTING_M },
            false_northing_m: Double { bits: FALSE_NORTHING_M },
            datum_transform: None,
        }
    }
}

/// Why a raster is not one of the mosaic's.
#[derive(Debug)]
pub enum GeorefError {
    Params { lat0: Double, lon0: Double, fe: Double, fnorth: Double },
    PixelSize { geotransform: [Double; 6] },
}

/// The parameters of the projection are those of the mosaic.
pub open spec fn params_agree(p: Seq<Double>) -> bool {
    &&& !p[0].apart(double(LAT0_DEG), double(FINE))
    &&& !p[1].apart(double(LON0_DEG), double(FINE))
    &&& !p[2].apart(double(FALSE_EASTING_M), double(COARSE))
    &&& !p[3].apart(double(FALSE_NORTHING_M), double(COARSE))
}

/// A pixel is a kilometre wide and high.
pub open spec fn pixel_agrees(gt: Seq<Double>) -> bool {
    !gt[1].apart(double(PIXEL_WIDTH), double(FINE)) && !gt[5].apart(
        double(PIXEL_HEIGHT),
        double(FINE),
    )
}

/// What is wrong with the georeference of a raster. Fewer than four parameters are not
/// looked at.
pub open spec fn georef_fault(params: Seq<Double>, gt: Seq<Double>) -> Option<GeorefFault> {
    if params.len() >= 4 && !params_agree(params) {
        Some(GeorefFault::Params)
    } else if !pixel_agrees(gt) {
        Some(GeorefFault::PixelSize)
    } else {
        None
    }
}

pub enum GeorefFault {
    Params,
    PixelSize,
}

/// Whether an error tells of a fault of a raster.
pub open spec fn tells(
    e: GeorefError,
    fault: GeorefFault,
    params: Seq<Double>,
    gt: Seq<Double>,
) -> bool {
    match (e, fault) {
        (GeorefError::Params { lat0, lon0, fe, fnorth }, GeorefFault::Params) => {
            &&& lat0 == params[0]
            &&& lon0 == params[1]
            &&& fe == params[2]
            &&& fnorth == params[3]
        },
        (GeorefError::PixelSize { geotransform }, GeorefFault::PixelSize) => geotransform@ == gt,
        _ => false,
    }
}

/// A tolerance fits when its significand, `gap` places below that of the center, comes
/// to `near` patterns.
proof fn lemma_tolerance(center: Double, tolerance: Double, gap: nat, near: int)
    requires
        !tolerance.negative(),
        1 <= exponent_of(tolerance) < exponent_of(center) == exponent_of(tolerance) + gap,
        gap <= 52,
        center.is_finite(),
        near * pow2(gap) <= significand_of(tolerance) < (near + 1) * pow2(gap),
        near < center.magnitude() % (HIDDEN64 as int),
        center.magnitude() % (HIDDEN64 as int) + near + 1 < HIDDEN64,
    ensures
        tolerance_fits(center, tolerance),
{
    let p = pow2(gap) as int;
    let s = significand_of(tolerance);
    lemma_pow2_pos(gap);
    assert((near + 1) * p == near * p + p) by (nonlinear_arith);
    lemma_fundamental_div_mod_converse(s, p, near, s - near * p);
}

/// The numbers near each expected one share its exponent.
proof fn lemma_tolerances()
    ensures
        tolerance_fits(double(LAT0_DEG), double(FINE)),
        tolerance_fits(double(LON0_DEG), double(FINE)),
        tolerance_fits(double(FALSE_EASTING_M), double(COARSE)),
        tolerance_fits(double(FALSE_NORTHING_M), double(COARSE)),
        tolerance_fits(double(PIXEL_WIDTH), double(FINE)),
        tolerance_fits(double(PIXEL_HEIGHT), double(FINE)),
{
    lemma2_to64();
    lemma_tolerance(double(LAT0_DEG), double(FINE), 25, 140737488);
    lemma_tolerance(double(LON0_DEG), double(FINE), 23, 562949953);
    lemma_tolerance(double(FALSE_EASTING_M), double(COARSE), 30, 4294967);
    lemma_tolerance(double(FALSE_NORTHING_M), double(COARSE), 31, 2147483);
    lemma_tolerance(double(PIXEL_WIDTH), double(FINE), 29, 8796093);
    lemma_tolerance(double(PIXEL_HEIGHT), double(FINE), 29, 8796093);
}

pub fn validate_opera_georef(raster: &DecodedRaster) -> (r: Result<(), GeorefError>)
    ensures
        match georef_fault(raster.geo_double_params@, raster.geotransform@) {
            None => r is Ok,
            Some(fault) => r matches Err(e) && tells(
                e,
                fault,
                raster.geo_double_params@,
                raster.geotransform@,
            ),
        },
{
    proof {
        lemma_tolerances();
    }
    let fine = Double { bits: FINE };
    let coarse = Double { bits: COARSE };
    if raster.geo_double_params.len() >= 4 {
        let lat0: Double = raster.geo_double_params[0];
        let lon0: Double = raster.geo_double_params[1];
        let fe: Double = raster.geo_double_params[2];
        let fnorth: Double = raster.geo_double_params[3];
        if lat0.away_from(Double { bits: LAT0_DEG }, fine) || lon0.away_from(
            Double { bits: LON0_DEG },
            fine,
        ) || fe.away_from(Double { bits: FALSE_EASTING_M }, coarse) || fnorth.away_from(
            Double { bits: FALSE_NORTHING_M },
            coarse,
        ) {
            return Err(GeorefError::Params { lat0, lon0, fe, fnorth });
        }
    }
    if raster.geotransform[1].away_from(Double { bits: PIXEL_WIDTH }, fine)
        || raster.geotransform[5].away_from(Double { bits: PIXEL_HEIGHT }, fine) {
        return Err(GeorefError::PixelSize { geotransform: raster.geotransform });
    }
    Ok(())
}

/// What is said of parameters that are not the mosaic's, given how they read.
pub fn laea_message(lat0: &str, lon0: &str, fe: &str, fnorth: &str) -> (r: String)
    ensures
        r@ == "unexpected OPERA LAEA params lat0="@ + lat0@ + " lon0="@ + lon0@ + " fe="@ + fe@
            + " fn="@ + fnorth@,
{
    let mut r = "unexpected OPERA LAEA params lat0=".to_owned();
    r.append(lat0);
    r.append(" lon0=");
    r.append(lon0);
    r.append(" fe=");
    r.append(fe);
    r.append(" fn=");
    r.append(fnorth);
    r
}

/// What is said of a geotransform that is not the mosaic's, given how it reads.
pub fn pixel_message(geotransform: &str) -> (r: String)
    ensures
        r@ == "unexpected OPERA pixel size "@ + geotransform@,
{
    let mut r = "unexpected OPERA pixel size ".to_owned();
    r.append(geotransform);
    r
}

/// Why an object is not a frame.
#[derive(Debug)]
pub enum DecodeError {
    Cog(CogError),
    Georef(GeorefError),
    Texture(String),
}

/// Whether a frame shows a raster at a moment whose texts are given.
pub open spec fn shows(
    frame: MosaicFrame,
    raster: RasterView,
    scan_time: Seq<char>,
    id_time: Seq<char>,
    palette: Seq<String>,
    bounds: Seq<Double>,
) -> bool {
    &&& frame.id@ == ID@ + "-"@ + id_time
    &&& frame.product@ == "REF"@
    &&& frame.product_name@ == "Reflectivity"@
    &&& frame.units@ == "dBZ"@
    &&& frame.scan_time@ == scan_time
    &&& frame.sweep_end is None
    &&& frame.status == FrameStatus::Complete
    &&& frame.texture@ == Seq::<char>::empty()
    &&& frame.width == raster.width
    &&& frame.height == raster.height
    &&& is_laea(frame.crs)
    &&& frame.geotransform@ == raster.geotransform
    &&& views(frame.palette@) == views(palette)
    &&& frame.bounds@ == bounds
}

/// The frame of a raster, given its texture and the two texts of its moment.
pub fn frame_from(
    raster: &DecodedRaster,
    texture: Result<Vec<u8>, String>,
    scan_time: String,
    id_time: String,
    stamp: Stamp,
    palette: &Vec<String>,
    bounds: &Vec<Double>,
) -> (r: Result<(MosaicFrame, Vec<u8>, i64), DecodeError>)
    ensures
        match texture {
            Ok(png) => r matches Ok((frame, file, start_ms)) && shows(
                frame,
                raster@,
                scan_time@,
                id_time@,
                palette@,
                bounds@,
            ) && file@ == png@ && start_ms == 1000 * stamp.secs(),
            Err(e) => r matches Err(DecodeError::Texture(told)) && told@ == TEXTURE_FAILED@ + e@,
        },
{
    match texture {
        Ok(png) => {
            let mut id = ID.to_owned();
            id.append("-");
            id.append(id_time.as_str());
            let empty = String::new();
            assert(empty@ =~= Seq::empty());
            let colours = palette.clone();
            assert(views(colours@) =~= views(palette@));
            let edges = bounds.clone();
            assert(edges@ =~= bounds@);
            let secs: i64 = stamp.seconds();
            Ok(
                (
                    MosaicFrame {
                        id,
                        product: "REF".to_owned(),
                        product_name: "Reflectivity".to_owned(),
                        units: "dBZ".to_owned(),
                        scan_time,
                        sweep_end: None,
                        status: FrameStatus::Complete,
                        texture: empty,
                        width: raster.width,
                        height: raster.height,
                        crs: Opera::crs(),
                        geotransform: raster.geotransform,
                        palette: colours,
                        bounds: edges,
                    },
                    png,
                    1000 * secs,
                ),
            )
        },
        Err(e) => {
            let mut told = TEXTURE_FAILED.to_owned();
            told.append(e.as_str());
            Err(DecodeError::Texture(told))
        },
    }
}

/// Whether the outcome of decoding an object is the one of its bytes: the error of the
/// file or of its georeference, or else the frame with its texture.
pub open spec fn decodes(
    bytes: Seq<u8>,
    secs: i64,
    palette: Seq<String>,
    bounds: Seq<Double>,
    r: Result<(MosaicFrame, Vec<u8>, i64), DecodeError>,
) -> bool {
    match decoded(bytes) {
        Err(e) => r matches Err(DecodeError::Cog(told)) && told == e,
        Ok(raster) => match georef_fault(raster.geo_double_params, raster.geotransform) {
            Some(fault) => r matches Err(DecodeError::Georef(told)) && tells(
                told,
                fault,
                raster.geo_double_params,
                raster.geotransform,
            ),
            None => match png_of(
                raster.width as u32,
                raster.height as u32,
                pixels_of(raster.values, raster.nodata, bounds, palette.len()),
            ) {
                Ok(png) => r matches Ok((frame, file, start_ms)) && shows(
                    frame,
                    raster,
                    moment_text(secs, SCAN_TIME_FORMAT@),
                    moment_text(secs, FRAME_ID_FORMAT@),
                    palette,
                    bounds,
                ) && file@ == png && start_ms == 1000 * secs,
                Err(e) => r matches Err(DecodeError::Texture(told)) && told@ == TEXTURE_FAILED@ + e,
            },
        },
    }
}

/// The classes of an object's values all fit into a texture.
pub open spec fn paints(bytes: Seq<u8>, palette: nat, bounds: Seq<Double>) -> bool {
    decoded(bytes) matches Ok(raster) ==> classes_fit(
        raster.values,
        raster.nodata,
        bounds,
        palette,
    )
}

/// Whether the classes of an object's values all fit into a texture.
pub fn check_paints(bytes: &[u8], palette: &Vec<String>, bounds: &Vec<Double>) -> (r: bool)
    ensures
        r == paints(bytes@, palette@.len(), bounds@),
{
    if palette.len() <= 255 || bounds.len() <= 256 {
        proof {
            if decoded(bytes@) is Ok {
                let raster = decoded(bytes@)->Ok_0;
                small_palette_fits(raster.values, raster.nodata, bounds@, palette@.len());
            }
        }
        return true;
    }
    match decode_float_cog(bytes) {
        Ok(raster) => check_classes(
            raster.values.as_slice(),
            raster.nodata,
            bounds.as_slice(),
            palette.len(),
        ),
        Err(_) => true,
    }
}

/// Decodes an object into a frame, its texture and its moment in milliseconds.
pub fn decode_frame(bytes: &[u8], stamp: Stamp, palette: &Vec<String>, bounds: &Vec<Double>) -> (r:
    Result<(MosaicFrame, Vec<u8>, i64), DecodeError>)
    requires
        paints(bytes@, palette@.len(), bounds@),
    ensures
        decodes(bytes@, stamp.secs(), palette@, bounds@, r),
        r matches Ok((frame, file, start_ms)) ==> file@.len() >= 29 && file@.take(29) == png_head(
            frame.width,
            frame.height,
        ),
{
    let raster = match decode_float_cog(bytes) {
        Ok(raster) => raster,
        Err(e) => return Err(DecodeError::Cog(e)),
    };
    proof {
        decoded_is_full(bytes@);
        assert(decoded(bytes@) == Ok::<RasterView, CogError>(raster@));
        pixels_are_opaque(raster.values@, raster.nodata, bounds@, palette@.len());
    }
    if let Err(e) = validate_opera_georef(&raster) {
        return Err(DecodeError::Georef(e));
    }
    let pixels = classify(
        raster.values.as_slice(),
        raster.nodata,
        bounds.as_slice(),
        palette.len(),
    );
    let texture = encode_png(raster.width, raster.height, pixels.as_slice());
    let secs: i64 = stamp.seconds();
    let scan_time = format_moment(secs, SCAN_TIME_FORMAT);
    let id_time = format_moment(secs, FRAME_ID_FORMAT);
    frame_from(&raster, texture, scan_time, id_time, stamp, palette, bounds)
}

/// A frame that was fetched, with its object.
#[derive(Debug)]
pub struct Fetched {
    pub object: CompObject,
    pub frame: MosaicFrame,
    pub texture: Vec<u8>,
    pub start_ms: i64,
}

/// Why the newest object did not become a frame.
#[derive(Debug)]
pub enum RefreshError {
    /// It could not be fetched.
    Fetch(String),
    Decode(DecodeError),
}

/// What a look at the mosaic does after a listing.
#[derive(Debug)]
pub enum Look {
    /// Today has no objects yet: list this day.
    List(i32),
    /// Fetch this object, which is the newest and not known.
    Get(CompObject),
    /// There is nothing new.
    Nothing,
    Failed(String),
}

/// What follows from a listing of the day, or of the day before where `today` is none:
/// the newest object is wanted unless it is known, and an empty day is followed by the
/// day before it.
pub fn refresh_listed(
    today: Option<i32>,
    listed: Result<Vec<CompObject>, String>,
    known: &Known,
) -> (r: Look)
    requires
        today matches Some(day) ==> is_day(day as int),
    ensures
        match listed {
            Err(e) => r matches Look::Failed(told) && told == e,
            Ok(objects) => if objects@.len() == 0 {
                match today {
                    Some(day) => r matches Look::List(ahead) && ahead == day_ahead_of(day),
                    None => r is Nothing,
                }
            } else if known@.contains(objects@.last().key@) {
                r is Nothing
            } else {
                r matches Look::Get(newest) && newest == objects@.last()
            },
        },
{
    let listed = match today {
        Some(day) => match list_recent(day, listed) {
            Recent::AskDay(ahead) => return Look::List(ahead),
            Recent::Ready(listed) => listed,
        },
        None => listed,
    };
    match listed {
        Err(e) => Look::Failed(e),
        Ok(objects) => match newest_unseen(&objects, known) {
            Some(newest) => Look::Get(newest),
            None => Look::Nothing,
        },
    }
}

/// Makes a frame of the newest object and its bytes.
pub fn refresh(
    newest: CompObject,
    got: Result<Vec<u8>, String>,
    palette: &Vec<String>,
    bounds: &Vec<Double>,
) -> (r: Result<Fetched, RefreshError>)
    requires
        got matches Ok(bytes) ==> paints(bytes@, palette@.len(), bounds@),
    ensures
        match got {
            Err(e) => r matches Err(RefreshError::Fetch(told)) && told == e,
            Ok(bytes) => match r {
                Ok(f) => f.object == newest && decodes(
                    bytes@,
                    newest.stamp.secs(),
                    palette@,
                    bounds@,
                    Ok((f.frame, f.texture, f.start_ms)),
                ),
                Err(RefreshError::Decode(e)) => decodes(
                    bytes@,
                    newest.stamp.secs(),
                    palette@,
                    bounds@,
                    Err(e),
                ),
                Err(RefreshError::Fetch(_)) => false,
            },
        },
{
    match got {
        Err(e) => Err(RefreshError::Fetch(e)),
        Ok(bytes) => match decode_frame(bytes.as_slice(), newest.stamp, palette, bounds) {
            Ok((frame, texture, start_ms)) => Ok(
                Fetched { object: newest, frame, texture, start_ms },
            ),
            Err(e) => Err(RefreshError::Decode(e)),
        },
    }
}

/// The event of an earlier object and its bytes, or why there is none.
pub fn backfill(
    object: &CompObject,
    bytes: &[u8],
    palette: &Vec<String>,
    bounds: &Vec<Double>,
) -> (r: Result<Event, DecodeError>)
    requires
        paints(bytes@, palette@.len(), bounds@),
    ensures
        match r {
            Ok(event) => event matches Event::Backfill { frame, texture, start_ms } && decodes(
                bytes@,
                object.stamp.secs(),
                palette@,
                bounds@,
                Ok((*frame, texture, start_ms)),
            ),
            Err(e) => decodes(bytes@, object.stamp.secs(), palette@, bounds@, Err(e)),
        },
{
    match decode_frame(bytes, object.stamp, palette, bounds) {
        Ok((frame, texture, start_ms)) => Ok(
            Event::Backfill { frame: Box::new(frame), texture, start_ms },
        ),
        Err(e) => Err(e),
    }
}

/// Why an object is skipped in a backfill.
#[derive(Debug)]
pub enum Skip {
    /// It could not be fetched.
    Fetch(String),
    Decode(DecodeError),
}

/// The objects of a backfill that are still to be fetched.
#[derive(Debug)]
pub struct Backfill {
    targets: Vec<CompObject>,
    done: usize,
}

impl Backfill {
    #[verifier::type_invariant]
    spec fn in_range(self) -> bool {
        self.done <= self.targets@.len()
    }

    pub closed spec fn left(&self) -> Seq<CompObject> {
        self.targets@.skip(self.done as int)
    }

    /// Starts on the newest objects of a listing that are not known. Without a listing
    /// there is no backfill.
    pub fn begin(listed: Result<Vec<CompObject>, String>, known: &Known) -> (r: Result<
        Backfill,
        String,
    >)
        ensures
            match listed {
                Ok(objects) => r matches Ok(b) && comp_views(b.left()) == targets_of(
                    comp_views(objects@),
                    known@,
                    HISTORY_MAX as nat,
                ),
                Err(e) => r matches Err(told) && told == e,
            },
    {
        match listed {
            Ok(objects) => {
                let targets = backfill_targets(objects.as_slice(), known, HISTORY_MAX);
                assert(targets@.skip(0) =~= targets@);
                Ok(Backfill { targets, done: 0 })
            },
            Err(e) => Err(e),
        }
    }

    /// The object to fetch next.
    pub fn current(&self) -> (r: Option<&CompObject>)
        ensures
            r == (if self.left().len() > 0 {
                Some(&self.left()[0])
            } else {
                None
            }),
    {
        proof {
            use_type_invariant(self);
        }
        if self.done < self.targets.len() {
            Some(&self.targets[self.done])
        } else {
            None
        }
    }

    /// Takes what was fetched of the current object. Whatever came of it, the next one
    /// follows: a failure skips one object.
    pub fn took(
        self,
        got: Result<Vec<u8>, String>,
        palette: &Vec<String>,
        bounds: &Vec<Double>,
    ) -> (r: (Backfill, Result<Event, Skip>))
        requires
            self.left().len() > 0,
            got matches Ok(bytes) ==> paints(bytes@, palette@.len(), bounds@),
        ensures
            r.0.left() == self.left().drop_first(),
            match (got, r.1) {
                (Err(e), Err(Skip::Fetch(told))) => told == e,
                (Ok(bytes), Ok(Event::Backfill { frame, texture, start_ms })) => decodes(
                    bytes@,
                    self.left()[0].stamp.secs(),
                    palette@,
                    bounds@,
                    Ok((*frame, texture, start_ms)),
                ),
                (Ok(bytes), Err(Skip::Decode(e))) => decodes(
                    bytes@,
                    self.left()[0].stamp.secs(),
                    palette@,
                    bounds@,
                    Err(e),
                ),
                _ => false,
            },
    {
        proof {
            use_type_invariant(&self);
        }
        assert(self.done < self.targets.len());
        let outcome = match got {
            Err(e) => Err(Skip::Fetch(e)),
            Ok(bytes) => match backfill(
                &self.targets[self.done],
                bytes.as_slice(),
                palette,
                bounds,
            ) {
                Ok(event) => Ok(event),
                Err(e) => Err(Skip::Decode(e)),
            },
        };
        let next = Backfill { done: self.done + 1, targets: self.targets };
        assert(next.left() =~= self.left().drop_first());
        (next, outcome)
    }
}

/// How the first look at the mosaic came out.
#[derive(Debug)]
pub enum First {
    Fetched(Fetched),
    Nothing,
    Failed(String),
    TimedOut,
}

/// The live loop over the mosaic: which keys it has seen.
#[derive(Debug)]
pub struct Poller {
    known: Known,
}

pub open spec fn is_frame(event: Event, f: Fetched) -> bool {
    event matches Event::Frame { frame, texture, start_ms } && *frame == f.frame && texture
        == f.texture && start_ms == f.start_ms
}

impl Poller {
    /// The keys that are not fetched again.
    pub closed spec fn seen(&self) -> Set<Seq<char>> {
        self.known@
    }

    pub fn known(&self) -> (r: &Known)
        ensures
            r@ == self.seen(),
    {
        &self.known
    }

    /// Takes the outcome of the first look. There is an event for each: the frame, that
    /// there is none yet, or why there is none.
    pub fn first(self, outcome: First) -> (r: (Poller, Event))
        ensures
            match outcome {
                First::Fetched(f) => r.0.seen() == self.seen().insert(f.object.key@) && is_frame(
                    r.1,
                    f,
                ),
                First::Nothing => r.0.seen() == self.seen() && (r.1 matches Event::Silent { reason }
                    && reason@ == SILENT@),
                First::Failed(e) => r.0.seen() == self.seen() && (r.1 matches Event::Offline {
                    reason,
                } && reason == e),
                First::TimedOut => r.0.seen() == self.seen() && (r.1 matches Event::Offline {
                    reason,
                } && reason@ == TIMED_OUT@),
            },
    {
        match outcome {
            First::Fetched(f) => (
                Poller { known: self.known.with(f.object.key) },
                Event::Frame {
                    frame: Box::new(f.frame),
                    texture: f.texture,
                    start_ms: f.start_ms,
                },
            ),
            First::Nothing => (self, Event::Silent { reason: SILENT.to_owned() }),
            First::Failed(reason) => (self, Event::Offline { reason }),
            First::TimedOut => (self, Event::Offline { reason: TIMED_OUT.to_owned() }),
        }
    }

    /// Takes the outcome of a later look: a new frame is told and its key remembered,
    /// and once too many keys are known only the newest is; a failure is told; and
    /// where nothing is new there is no event.
    pub fn next(self, outcome: Result<Option<Fetched>, String>) -> (r: (Poller, Option<Event>))
        ensures
            match outcome {
                Ok(Some(f)) => {
                    &&& r.0.seen() == (if self.seen().insert(f.object.key@).len() > KNOWN_MAX {
                        Set::empty().insert(f.object.key@)
                    } else {
                        self.seen().insert(f.object.key@)
                    })
                    &&& r.1 matches Some(event)
                    &&& is_frame(event, f)
                },
                Ok(None) => r.0.seen() == self.seen() && r.1 is None,
                Err(e) => r.0.seen() == self.seen() && (r.1 matches Some(Event::Offline { reason })
                    && reason == e),
            },
    {
        match outcome {
            Ok(Some(f)) => {
                let newest = f.object.key.clone();
                let more = self.known.with(f.object.key);
                let known = if more.len() > KNOWN_MAX {
                    Known::only(newest)
                } else {
                    more
                };
                (
                    Poller { known },
                    Some(
                        Event::Frame {
                            frame: Box::new(f.frame),
                            texture: f.texture,
                            start_ms: f.start_ms,
                        },
                    ),
                )
            },
            Ok(None) => (self, None),
            Err(reason) => (self, Some(Event::Offline { reason })),
        }
    }
}

/// A key that a look has fetched is known, and what is known stays bounded.
pub proof fn fetched_is_known(seen: Set<Seq<char>>, key: Seq<char>)
    requires
        seen.finite(),
        seen.len() <= KNOWN_MAX,
    ensures
        ({
            let after = if seen.insert(key).len() > KNOWN_MAX {
                Set::empty().insert(key)
            } else {
                seen.insert(key)
            };
            after.contains(key) && after.len() <= KNOWN_MAX
        }),
{
}

impl Opera {
    /// The live loop over a target: there is one for the mosaic, and none for a site.
    pub fn poll(&self, target: &AdapterTarget, known: Known) -> (r: Option<Poller>)
        ensures
            match *target {
                AdapterTarget::Mosaic => r matches Some(p) && p.seen() == known@,
                AdapterTarget::Site { .. } => r is None,
            },
    {
        match target {
            AdapterTarget::Mosaic => Some(Poller { known }),
            AdapterTarget::Site { .. } => None,
        }
    }
}

/// 5, as a binary32 pattern.
pub const WEAK: u32 = 0x40a0_0000;

/// 35.
pub const MODERATE: u32 = 0x420c_0000;

/// 45.
pub const STRONG: u32 = 0x4234_0000;

/// A quiet NaN.
pub const UNDETECTED: u32 = 0x7fc0_0000;

/// -500.
pub const FIXTURE_LEFT: u64 = 0xc07f_4000_0000_0000;

/// 500.
pub const FIXTURE_TOP: u64 = 0x407f_4000_0000_0000;

/// 298.257223563.
pub const INVERSE_FLATTENING: u64 = 0x4072_a41d_9674_6d88;

/// 6378137.
pub const SEMI_MAJOR_M: u64 = 0x4158_54a6_4000_0000;

/// -9999000.
pub const FILL_NUMBER: i32 = -9_999_000;

/// The first band of the fixture: undetected but for a few cells.
pub open spec fn fixture_values() -> Seq<Single> {
    Seq::new(1024, |i: int| Single { bits: UNDETECTED }).update(0, Single { bits: WEAK }).update(
        1,
        Single { bits: FILL },
    ).update(2, Single { bits: MODERATE }).update(528, Single { bits: STRONG })
}

/// The raster of the fixture.
pub open spec fn fixture_raster() -> RasterView {
    RasterView {
        width: 32,
        height: 32,
        values: fixture_values(),
        nodata: Some(Single { bits: FILL }),
        geotransform: seq![
            double(FIXTURE_LEFT),
            double(PIXEL_WIDTH),
            double(0),
            double(FIXTURE_TOP),
            double(0),
            double(PIXEL_HEIGHT),
        ],
        geo_double_params: seq![
            double(LAT0_DEG),
            double(LON0_DEG),
            double(FALSE_EASTING_M),
            double(FALSE_NORTHING_M),
            double(INVERSE_FLATTENING),
            double(SEMI_MAJOR_M),
        ],
    }
}

fn filled(bits: u32, n: usize) -> (r: Vec<Single>)
    ensures
        r@ == Seq::new(n as nat, |i: int| Single { bits }),
{
    let mut r: Vec<Single> = Vec::new();
    let mut i: usize = 0;
    while i < n
        invariant
            i <= n,
            r@ == Seq::new(i as nat, |i: int| Single { bits }),
        decreases n - i,
    {
        r.push(Single { bits });
        assert(r@ =~= Seq::new((i + 1) as nat, |i: int| Single { bits }));
        i = i + 1;
    }
    r
}

/// A tiny file in the shape of the mosaic's objects: a few measured cells, one missing,
/// and the others undetected.
pub fn synthetic_fixture_cog() -> (r: Vec<u8>)
    ensures
        decoded(r@) == Ok::<RasterView, CogError>(fixture_raster()),
{
    let mut band0 = filled(UNDETECTED, 1024);
    let band1 = filled(FILL, 1024);
    band0[0] = Single { bits: WEAK };
    band0[1] = Single { bits: FILL };
    band0[2] = Single { bits: MODERATE };
    band0[528] = Single { bits: STRONG };
    let zero = Double { bits: 0 };
    let gt = vec![
        Double { bits: FIXTURE_LEFT },
        Double { bits: PIXEL_WIDTH },
        zero,
        Double { bits: FIXTURE_TOP },
        zero,
        Double { bits: PIXEL_HEIGHT },
    ];
    let params = vec![
        Double { bits: LAT0_DEG },
        Double { bits: LON0_DEG },
        Double { bits: FALSE_EASTING_M },
        Double { bits: FALSE_NORTHING_M },
        Double { bits: INVERSE_FLATTENING },
        Double { bits: SEMI_MAJOR_M },
    ];
    proof {
        let l = Layout { width: 32, height: 32, tile_width: 16, tile_height: 16 };
        assert(l.across() == 2 && l.down() == 2);
        assert(l.tiles() == 4 && l.area() == 256);
        assert(l.tiles() * l.area() == 1024);
        assert(writable(l, gt@, params@, FILL_NUMBER as int, band0@, band1@));
        assert(band0@ =~= fixture_values());
        assert(gt@ =~= fixture_raster().geotransform);
        assert(params@ =~= fixture_raster().geo_double_params);
        assert(missing_number(FILL_NUMBER as int) == Single { bits: FILL });
        assert(written(l, gt@, params@, FILL_NUMBER as int, band0@) == fixture_raster());
    }
    write_float_cog(
        32,
        32,
        16,
        16,
        gt.as_slice(),
        params.as_slice(),
        FILL_NUMBER,
        band0.as_slice(),
        band1.as_slice(),
    ).unwrap()
}

proof fn lemma_places()
    ensures
        ({
            let u = pow2(1074) as int;
            &&& double(COVERAGE_NORTH).value() == 70 * u
            &&& double(COVERAGE_SOUTH).value() == 32 * u
            &&& double(COVERAGE_WEST).value() == -30 * u
            &&& double(COVERAGE_EAST).value() == 50 * u
            &&& double(LAT0_DEG).value() == 55 * u
            &&& double(LON0_DEG).value() == 10 * u
            &&& double(FALSE_EASTING_M).value() == 1_950_000 * u
            &&& double(FALSE_NORTHING_M).value() == -2_100_000 * u
            &&& double(PIXEL_WIDTH).value() == 1000 * u
            &&& double(PIXEL_HEIGHT).value() == -1000 * u
        }),
{
    lemma2_to64();
    lemma2_to64_rest();
    let sign: int = 0x8000_0000_0000_0000;
    whole_number_pattern(double(COVERAGE_NORTH), 70, 46);
    whole_number_pattern(double(COVERAGE_SOUTH), 32, 47);
    let west = double((COVERAGE_WEST - sign) as u64);
    whole_number_pattern(west, 30, 48);
    patterns_tell_the_value(west);
    whole_number_pattern(double(COVERAGE_EAST), 50, 47);
    whole_number_pattern(double(LAT0_DEG), 55, 47);
    whole_number_pattern(double(LON0_DEG), 10, 49);
    whole_number_pattern(double(FALSE_EASTING_M), 1_950_000, 32);
    let down = double((FALSE_NORTHING_M - sign) as u64);
    whole_number_pattern(down, 2_100_000, 31);
    patterns_tell_the_value(down);
    whole_number_pattern(double(PIXEL_WIDTH), 1000, 43);
    patterns_tell_the_value(double(PIXEL_WIDTH));
}

/// The mosaic reaches from 32 to 70 degrees north and from 30 degrees west to 50 east, and
/// gives way to every source of a priority above 10.
pub proof fn mosaic_reaches_over_europe(x: Candidate, centre: GeoPoint)
    requires
        is_opera(x),
    ensures
        covers(x, centre) <==> !centre.lat.is_nan() && !centre.lon.is_nan() && 32 * pow2(1074)
            <= centre.lat.value() <= 70 * pow2(1074) && -30 * pow2(1074) <= centre.lon.value() <= 50
            * pow2(1074),
        x.family == Family::Grid,
        x.priority == 10,
        x.selection.source_id@ == "opera"@,
        x.selection.target is Mosaic,
{
    lemma_places();
    covering_is_range_or_box(x, centre);
}

/// A projection of the mosaic is centred at 55 degrees north and 10 east, with its origin
/// 1950 kilometres to the west and 2100 kilometres to the north.
pub proof fn projection_is_centred_on_europe(crs: Crs)
    requires
        is_laea(crs),
    ensures
        crs->lat0_deg.value() == 55 * pow2(1074),
        crs->lon0_deg.value() == 10 * pow2(1074),
        crs->false_easting_m.value() == 1_950_000 * pow2(1074),
        crs->false_northing_m.value() == -2_100_000 * pow2(1074),
        crs->ellipsoid == Ellipsoid::WGS84,
        crs->datum_transform is None,
{
    lemma_places();
}

/// The tolerances: a millionth and a thousandth, each to less than a millionth of itself.
proof fn lemma_tolerance_values()
    ensures
        ({
            let u = pow2(1074) as int;
            let w = pow2(53) as int;
            &&& double(FINE).value() * 1_000_001 >= u
            &&& (w - 1) * u > double(FINE).value() * w * 999_999
            &&& double(COARSE).value() * 1_001 >= u
            &&& (w - 1) * u > double(COARSE).value() * w * 999
            &&& double(FINE).value() > 0
            &&& double(COARSE).value() > 0
        }),
{
    lemma2_to64();
    lemma2_to64_rest();
    let h = HIDDEN64 as int;
    let w = pow2(53) as int;
    let (s, t) = (0x10_c6f7_a0b5_ed8dint, 0x10_624d_d2f1_a9fcint);
    assert(FINE as int == h * 1003 + (s - h));
    assert(COARSE as int == h * 1013 + (t - h));
    lemma_fundamental_div_mod_converse(FINE as int, h, 1003, s - h);
    lemma_fundamental_div_mod_converse(COARSE as int, h, 1013, t - h);
    let q = pow2(1002) as int;
    let p = pow2(1012) as int;
    lemma_pow2_pos(1002);
    lemma_pow2_pos(1012);
    lemma_pow2_adds(1002, 72);
    lemma_pow2_adds(1012, 62);
    lemma_pow2_adds(8, 64);
    assert(pow2(72) == 0x100 * 0x1_0000_0000_0000_0000);
    assert(double(FINE).value() == s * q);
    assert(double(COARSE).value() == t * p);
    let u = pow2(1074) as int;
    let (a, b) = (0x100_0000_0000_0000_0000int, 0x4000_0000_0000_0000int);
    assert(u == q * a && u == p * b);
    assert((s * q) * 1_000_001 >= q * a) by (nonlinear_arith)
        requires
            s * 1_000_001 >= a,
            q >= 1,
    ;
    assert((w - 1) * (q * a) > (s * q) * w * 999_999) by (nonlinear_arith)
        requires
            (w - 1) * a > s * w * 999_999,
            q >= 1,
    ;
    assert((t * p) * 1_001 >= p * b) by (nonlinear_arith)
        requires
            t * 1_001 >= b,
            p >= 1,
    ;
    assert((w - 1) * (p * b) > (t * p) * w * 999) by (nonlinear_arith)
        requires
            (w - 1) * b > t * w * 999,
            p >= 1,
    ;
    assert(s * q > 0 && t * p > 0) by (nonlinear_arith)
        requires
            s > 0,
            t > 0,
            q >= 1,
            p >= 1,
    ;
}

/// A number that is `scale` times nearer than one to another is within a tolerance of a
/// little more than one in `scale`; one that is not nearer than one in a little less is
/// apart from it.
proof fn lemma_apart_in_units(x: Double, center: Double, tolerance: Double, near: int, far: int)
    requires
        tolerance.bits < 0x7ff0_0000_0000_0000,
        near > 0,
        far > 0,
        tolerance.value() * near >= pow2(1074),
        (pow2(53) - 1) * pow2(1074) > tolerance.value() * pow2(53) * far,
    ensures
        near * (x.value() - center.value()) <= pow2(1074) && near * (center.value() - x.value())
            <= pow2(1074) ==> !x.apart(center, tolerance),
        !x.is_nan() && (far * (x.value() - center.value()) >= pow2(1074) || far * (center.value()
            - x.value()) >= pow2(1074)) ==> x.apart(center, tolerance),
{
    let u = pow2(1074) as int;
    let w = pow2(53) as int;
    let t = tolerance.value();
    let d = x.value() - center.value();
    lemma2_to64();
    lemma2_to64_rest();
    apart_is_beyond_the_tolerance(x, center, tolerance);
    if near * d <= u && near * (center.value() - x.value()) <= u {
        assert(center.value() - x.value() == -d);
        assert(-t <= d <= t) by (nonlinear_arith)
            requires
                near * d <= u,
                near * (-d) <= u,
                t * near >= u,
                near > 0,
        ;
    }
    if far * d >= u {
        assert(d * (w - 1) > t * w) by (nonlinear_arith)
            requires
                far * d >= u,
                (w - 1) * u > t * w * far,
                far > 0,
                w > 1,
        ;
    }
    let e = center.value() - x.value();
    if far * e >= u {
        assert(e * (w - 1) > t * w) by (nonlinear_arith)
            requires
                far * e >= u,
                (w - 1) * u > t * w * far,
                far > 0,
                w > 1,
        ;
    }
}

/// A raster whose pixels are a kilometre, and whose parameters, where it has four, are
/// those of the mosaic, to a millionth of a degree and a metre of the pixels and a
/// thousandth of a metre of the origin, is one of the mosaic's. One that is off by more is
/// not, and the fault is found in the parameters first.
pub proof fn georeference_is_held_to_the_mosaic(params: Seq<Double>, gt: Seq<Double>)
    requires
        gt.len() == 6,
    ensures
        ({
            let u = pow2(1074) as int;
            let off = |x: Double, c: int, scale: int|
                !x.is_nan() && (scale * (x.value() - c * u) >= u || scale * (c * u - x.value()) >= u);
            let on = |x: Double, c: int, scale: int|
                scale * (x.value() - c * u) <= u && scale * (c * u - x.value()) <= u;
            let sized = on(gt[1], 1000, 1_000_001) && on(gt[5], -1000, 1_000_001);
            let wrong = params.len() >= 4 && (off(params[0], 55, 999_999) || off(
                params[1],
                10,
                999_999,
            ) || off(params[2], 1_950_000, 999) || off(params[3], -2_100_000, 999));
            let right = params.len() < 4 || on(params[0], 55, 1_000_001) && on(
                params[1],
                10,
                1_000_001,
            ) && on(params[2], 1_950_000, 1_001) && on(params[3], -2_100_000, 1_001);
            &&& right && sized ==> georef_fault(params, gt) is None
            &&& wrong ==> georef_fault(params, gt) == Some(GeorefFault::Params)
            &&& right && (off(gt[1], 1000, 999_999) || off(gt[5], -1000, 999_999)) ==> georef_fault(
                params,
                gt,
            ) == Some(GeorefFault::PixelSize)
        }),
{
    lemma_places();
    lemma_tolerance_values();
    let fine = double(FINE);
    let coarse = double(COARSE);
    lemma_apart_in_units(gt[1], double(PIXEL_WIDTH), fine, 1_000_001, 999_999);
    lemma_apart_in_units(gt[5], double(PIXEL_HEIGHT), fine, 1_000_001, 999_999);
    if params.len() >= 4 {
        lemma_apart_in_units(params[0], double(LAT0_DEG), fine, 1_000_001, 999_999);
        lemma_apart_in_units(params[1], double(LON0_DEG), fine, 1_000_001, 999_999);
        lemma_apart_in_units(params[2], double(FALSE_EASTING_M), coarse, 1_001, 999);
        lemma_apart_in_units(params[3], double(FALSE_NORTHING_M), coarse, 1_001, 999);
    }
}

/// The frame of an object tells the object: its moment, the size and the georeference of
/// its raster, the palette and the edges; its texture is the picture of the pixels of its
/// values; and it starts at its moment, in milliseconds.
pub proof fn frame_tells_its_object(
    bytes: Seq<u8>,
    secs: i64,
    palette: Seq<String>,
    bounds: Seq<Double>,
    frame: MosaicFrame,
    file: Vec<u8>,
    start_ms: i64,
)
    requires
        decodes(bytes, secs, palette, bounds, Ok((frame, file, start_ms))),
    ensures
        decoded(bytes) is Ok,
        ({
            let raster = decoded(bytes)->Ok_0;
            &&& georef_fault(raster.geo_double_params, raster.geotransform) is None
            &&& frame.id@ == "opera-"@ + moment_text(secs, "%Y%m%dT%H%M%SZ"@)
            &&& frame.scan_time@ == moment_text(secs, "%Y-%m-%dT%H:%M:%SZ"@)
            &&& frame.product@ == "REF"@ && frame.product_name@ == "Reflectivity"@ && frame.units@
                == "dBZ"@
            &&& frame.status == FrameStatus::Complete && frame.sweep_end is None
            &&& frame.texture@.len() == 0
            &&& frame.width == raster.width && frame.height == raster.height
            &&& frame.geotransform@ == raster.geotransform
            &&& is_laea(frame.crs)
            &&& views(frame.palette@) == views(palette)
            &&& frame.bounds@ == bounds
            &&& start_ms == 1000 * secs
            &&& png_of(
                frame.width,
                frame.height,
                pixels_of(raster.values, raster.nodata, bounds, palette.len()),
            ) == Ok::<Seq<u8>, Seq<char>>(file@)
        }),
{
    reveal_strlit("opera");
    reveal_strlit("-");
    reveal_strlit("opera-");
    assert("opera"@ + "-"@ =~= "opera-"@);
}

/// An object is no frame where its file is not read, where its georeference is not the
/// mosaic's, or where its texture fails, in this order, and the error says so.
pub proof fn object_is_refused_for_a_reason(
    bytes: Seq<u8>,
    secs: i64,
    palette: Seq<String>,
    bounds: Seq<Double>,
    e: DecodeError,
)
    requires
        decodes(bytes, secs, palette, bounds, Err(e)),
    ensures
        e matches DecodeError::Cog(told) ==> decoded(bytes) == Err::<RasterView, CogError>(told),
        e is Georef || e is Texture ==> decoded(bytes) is Ok,
        e is Georef ==> georef_fault(
            decoded(bytes)->Ok_0.geo_double_params,
            decoded(bytes)->Ok_0.geotransform,
        ) is Some,
        e is Georef && e->Georef_0 is Params ==> {
            let p = decoded(bytes)->Ok_0.geo_double_params;
            &&& e->Georef_0->lat0 == p[0] && e->Georef_0->lon0 == p[1]
            &&& e->Georef_0->fe == p[2] && e->Georef_0->fnorth == p[3]
        },
        e is Georef && e->Georef_0 is PixelSize ==> e->Georef_0->geotransform@ == decoded(
            bytes,
        )->Ok_0.geotransform,
        e matches DecodeError::Texture(told) ==> {
            let r = decoded(bytes)->Ok_0;
            let png = png_of(
                r.width as u32,
                r.height as u32,
                pixels_of(r.values, r.nodata, bounds, palette.len()),
            );
            &&& georef_fault(r.geo_double_params, r.geotransform) is None
            &&& png is Err
            &&& told@ == "encoding OPERA texture: "@ + png->Err_0
        },
{
}

/// The timeline holds twelve frames, four times as many keys are remembered, and an object
/// is read up to twelve megabytes.
pub proof fn timeline_is_bounded(seen: Set<Seq<char>>, key: Seq<char>)
    requires
        seen.finite(),
        seen.len() <= 48,
    ensures
        HISTORY_MAX == 12,
        KNOWN_MAX == 4 * HISTORY_MAX,
        BODY_MAX == 12 * 1024 * 1024,
        seen.insert(key).len() <= KNOWN_MAX + 1,
        seen.contains(key) ==> seen.insert(key).len() <= KNOWN_MAX,
{
    if seen.contains(key) {
        assert(seen.insert(key) =~= seen);
    }
}

/// A fetched frame is told as it is.
pub proof fn fetched_frame_is_told_whole(event: Event, f: Fetched)
    ensures
        is_frame(event, f) ==> event is Frame && *(event->Frame_frame) == f.frame
            && event->Frame_texture == f.texture && event->Frame_start_ms == f.start_ms,
{
}

/// What is said of the mosaic: its name and whom it is due to, that it has nothing yet,
/// and that it took too long.
pub proof fn mosaic_is_named()
    ensures
        ID@ == "opera"@,
        NAME@ == "EUMETNET OPERA"@,
        ATTRIBUTION@ == "EUMETNET OPERA"@,
        SILENT@ == "ORD cache has no OPERA DBZH.tiff yet"@,
        TIMED_OUT@ == "OPERA fetch timed out"@,
        SELECTION_PRIORITY == 10,
{
}

} // verus!
