//! The values that the engine hands to its clients.

use crate::ieee::Double;
use vstd::prelude::*;

verus! {

/// The newest observation of one airport.
#[derive(Debug)]
pub struct MetarReport {
    /// The ICAO station id.
    pub id: String,
    pub lat: Double,
    pub lon: Double,
    /// The FAA flight category: `vfr`, `mvfr`, `ifr` or `lifr`.
    pub category: String,
    /// The observation as it was sent.
    pub raw: String,
    pub obs_time: String,
}

pub struct ReportView {
    pub id: Seq<char>,
    pub lat: Double,
    pub lon: Double,
    pub category: Seq<char>,
    pub raw: Seq<char>,
    pub obs_time: Seq<char>,
}

impl View for MetarReport {
    type V = ReportView;

    open spec fn view(&self) -> ReportView {
        ReportView {
            id: self.id@,
            lat: self.lat,
            lon: self.lon,
            category: self.category@,
            raw: self.raw@,
            obs_time: self.obs_time@,
        }
    }
}

impl Clone for MetarReport {
    fn clone(&self) -> (r: MetarReport)
        ensures
            r == *self,
    {
        MetarReport {
            id: self.id.clone(),
            lat: self.lat,
            lon: self.lon,
            category: self.category.clone(),
            raw: self.raw.clone(),
            obs_time: self.obs_time.clone(),
        }
    }
}

/// The views of a list of reports.
pub open spec fn report_views(reports: Seq<MetarReport>) -> Seq<ReportView> {
    reports.map_values(|r: MetarReport| r@)
}

/// The two geometries of radar data.
#[derive(Clone, Copy, Debug, PartialEq, Eq, Structural)]
pub enum Family {
    Polar,
    Grid,
}

/// What a source is: a feed of dishes, or one mosaic.
#[derive(Clone, Copy, Debug, PartialEq, Eq, Structural)]
pub enum Kind {
    Site,
    Mosaic,
}

#[derive(Clone, Copy, Debug, PartialEq, Eq, Structural)]
pub enum ProductClass {
    Reflectivity,
}

#[derive(Clone, Copy, Debug, PartialEq, Eq, Structural)]
pub enum FrameStatus {
    Partial,
    Complete,
}

#[derive(Clone, Copy, Debug)]
pub struct GeoPoint {
    pub lat: Double,
    pub lon: Double,
}

/// The ground that a source covers: a circle around a dish, or the box of a mosaic.
#[derive(Clone, Copy, Debug)]
pub enum Coverage {
    Circle { lat: Double, lon: Double, radius_km: u32 },
    Box { north: Double, south: Double, east: Double, west: Double },
}

/// What of a source is selected.
#[derive(Debug, PartialEq, Eq)]
pub enum AdapterTarget {
    Site { site_id: String },
    Mosaic,
}

impl Clone for AdapterTarget {
    fn clone(&self) -> (r: AdapterTarget)
        ensures
            r == *self,
    {
        match self {
            AdapterTarget::Site { site_id } => AdapterTarget::Site { site_id: site_id.clone() },
            AdapterTarget::Mosaic => AdapterTarget::Mosaic,
        }
    }
}

#[derive(Debug, PartialEq, Eq)]
pub struct Selection {
    pub source_id: String,
    pub target: AdapterTarget,
}

impl Clone for Selection {
    fn clone(&self) -> (r: Selection)
        ensures
            r == *self,
    {
        Selection { source_id: self.source_id.clone(), target: self.target.clone() }
    }
}

#[derive(Clone, Copy, Debug, PartialEq, Eq, Structural)]
pub enum Ellipsoid {
    WGS84,
}

/// The coordinate reference system of a grid. `datum_transform` holds the parameters
/// of the shift to WGS 84 where the datum needs one.
#[derive(Debug)]
pub enum Crs {
    LambertAzimuthalEqualArea {
        ellipsoid: Ellipsoid,
        lat0_deg: Double,
        lon0_deg: Double,
        false_easting_m: Double,
        false_northing_m: Double,
        datum_transform: Option<Vec<Double>>,
    },
}

/// One complete picture of a mosaic, without its texture.
#[derive(Debug)]
pub struct MosaicFrame {
    pub id: String,
    pub product: String,
    pub product_name: String,
    pub units: String,
    pub scan_time: String,
    pub sweep_end: Option<String>,
    pub status: FrameStatus,
    pub texture: String,
    pub width: u32,
    pub height: u32,
    pub crs: Crs,
    pub geotransform: [Double; 6],
    pub palette: Vec<String>,
    pub bounds: Vec<Double>,
}

/// A report is seen field by field, and a list of reports one by one.
pub proof fn reports_are_seen_field_by_field(r: MetarReport, list: Seq<MetarReport>)
    ensures
        r@.id == r.id@,
        r@.lat == r.lat,
        r@.lon == r.lon,
        r@.category == r.category@,
        r@.raw == r.raw@,
        r@.obs_time == r.obs_time@,
        report_views(list).len() == list.len(),
        forall|i: int| 0 <= i < list.len() ==> #[trigger] report_views(list)[i] == list[i]@,
{
}

} // verus!
