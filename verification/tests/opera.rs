use chrono::{Datelike, NaiveDate, NaiveDateTime};
use omastorm::calendar::{Stamp, FIRST_DAY};
use omastorm::cog::{decode_float_cog, write_float_cog, CogError, DecodedRaster};
use omastorm::ieee::{Double, Single};
use omastorm::listing::{
    backfill_targets, key_stamp, list_recent, list_url, newest_unseen, object_url,
    objects_from_steps, parse_dbzh_key, parse_dbzh_listing, prefix_for, CompObject, Known, Recent,
    XmlStep,
};
use omastorm::opera::{
    backfill, check_paints, decode_frame, frame_from, laea_message, pixel_message, refresh, refresh_listed,
    synthetic_fixture_cog, validate_opera_georef, Backfill, DecodeError, Event, Fetched, First,
    GeorefError, Look, Opera, RefreshError, ATTRIBUTION, COVERAGE_EAST, COVERAGE_NORTH, COVERAGE_SOUTH, COVERAGE_WEST,
    HISTORY_MAX, ID, KNOWN_MAX, NAME, SELECTION_PRIORITY, SILENT, Skip,
    TIMED_OUT,
};
use omastorm::protocol::{
    AdapterTarget, Coverage, Crs, Family, FrameStatus, GeoPoint, Kind, ProductClass, Selection,
};
use omastorm::source::{covering_selection, AdapterCoverage, Candidate, SourceRegistry};
use omastorm::texture::{check_classes, class_of, classify, FILL};

const LAT0: f64 = 55.0;

fn d(x: f64) -> Double {
    Double { bits: x.to_bits() }
}

fn s(x: f32) -> Single {
    Single { bits: x.to_bits() }
}

fn f(x: Double) -> f64 {
    f64::from_bits(x.bits)
}

fn moment(y: i32, m: u32, day: u32, h: u32, min: u32) -> NaiveDateTime {
    NaiveDate::from_ymd_opt(y, m, day).unwrap().and_hms_opt(h, min, 0).unwrap()
}

fn stamp(t: NaiveDateTime) -> Stamp {
    Stamp::at(t.and_utc().timestamp()).unwrap()
}

fn day(y: i32, m: u32, d: u32) -> i32 {
    NaiveDate::from_ymd_opt(y, m, d).unwrap().num_days_from_ce()
}

fn palette() -> Vec<String> {
    ["#646464", "#04e9e7", "#019ff4", "#0300f4", "#02fd02", "#01c501", "#fdf802"]
        .iter()
        .map(|c| c.to_string())
        .collect()
}

fn bounds() -> Vec<Double> {
    [0.0, 10.0, 20.0, 30.0, 40.0, 50.0, 60.0, 70.0].iter().map(|b| d(*b)).collect()
}

fn opera() -> Opera {
    Opera::new(palette(), bounds())
}

fn key(stamp: &str) -> String {
    format!("2026/09/17/OPERA/COMP/OPERA@20260917T{stamp}@0@DBZH.tiff")
}

fn listing(stamps: &[&str]) -> String {
    let mut body = String::from("<ListBucketResult>");
    for stamp in stamps {
        body.push_str(&format!("<Contents><Key>{}</Key></Contents>", key(stamp)));
    }
    body.push_str("</ListBucketResult>");
    body
}

#[test]
fn listing_keeps_only_dbzh_tiffs() {
    let body = r#"<ListBucketResult>
            <Contents><Key>2026/09/17/OPERA/COMP/OPERA@20260917T1200@0@DBZH.h5</Key></Contents>
            <Contents><Key>2026/09/17/OPERA/COMP/OPERA@20260917T1200@0@DBZH.tiff</Key></Contents>
            <Contents><Key>2026/09/17/OPERA/COMP/OPERA@20260917T1205@0@RATE.tiff</Key></Contents>
            <Contents><Key>2026/09/17/OPERA/COMP/OPERA@20260917T1210@0@DBZH.tiff</Key></Contents>
            </ListBucketResult>"#;
    let objects = parse_dbzh_listing(body).unwrap();
    assert_eq!(objects.len(), 2);
    assert_eq!(objects[0].key, "2026/09/17/OPERA/COMP/OPERA@20260917T1200@0@DBZH.tiff");
    assert_eq!(objects[1].stamp, stamp(moment(2026, 9, 17, 12, 10)));
}

#[test]
fn decoder_classifies_synthetic_fixture() {
    let bytes = synthetic_fixture_cog();
    let when = moment(2026, 9, 17, 12, 0);
    let opera = opera();
    let (frame, png, start_ms) =
        decode_frame(&bytes, stamp(when), &opera.palette, &opera.bounds).unwrap();
    assert_eq!(frame.width, 32);
    assert_eq!(frame.height, 32);
    assert!(matches!(
        frame.crs,
        Crs::LambertAzimuthalEqualArea { lat0_deg, .. } if f(lat0_deg) == 55.0
    ));
    assert_eq!(frame.product_name, "Reflectivity");
    assert_eq!(frame.units, "dBZ");
    assert_eq!(start_ms, when.and_utc().timestamp_millis());
    let info = png::Decoder::new(std::io::Cursor::new(&png))
        .read_info()
        .unwrap()
        .info()
        .clone();
    assert_eq!((info.width, info.height), (32, 32));
    let pixels = classify(
        &decode_float_cog(&bytes).unwrap().values,
        Some(Single { bits: FILL }),
        &opera.bounds,
        opera.palette.len(),
    );
    assert_eq!(pixels[1], 0); // measured G
    assert!(pixels[0] >= 1);
    assert_eq!(pixels[4], 0);
    assert_eq!(pixels[5], 1); // nodata/missing
    assert_eq!(pixels[12], 0);
    assert_eq!(pixels[13], 2); // undetect nan
}

/// One cycle of listing and fetching with the outside world as two functions.
fn cycle(
    known: &Known,
    list: impl Fn(i32) -> Result<Vec<CompObject>, String>,
    get: impl Fn(&str) -> Result<Vec<u8>, String>,
) -> Result<Option<Fetched>, String> {
    let mut of = day(2026, 9, 17);
    let mut today = Some(of);
    loop {
        match refresh_listed(today, list(of), known) {
            Look::List(ahead) => {
                today = None;
                of = ahead;
            }
            Look::Nothing => return Ok(None),
            Look::Failed(e) => return Err(e),
            Look::Get(newest) => {
                let got = get(&newest.key);
                return refresh(newest, got, &palette(), &bounds())
                    .map(Some)
                    .map_err(|e| format!("{e:?}"));
            }
        }
    }
}

#[test]
fn refresh_fetches_newest_unseen_with_mocked_http() {
    let fixture = synthetic_fixture_cog();
    let listing = r#"<ListBucketResult>
            <Contents><Key>2026/09/17/OPERA/COMP/OPERA@20260917T1200@0@DBZH.tiff</Key></Contents>
            <Contents><Key>2026/09/17/OPERA/COMP/OPERA@20260917T1205@0@DBZH.tiff</Key></Contents>
            </ListBucketResult>"#;
    let got = cycle(
        &Known::new(),
        |_day| parse_dbzh_listing(listing),
        |key| {
            assert!(key.ends_with("OPERA@20260917T1205@0@DBZH.tiff"));
            Ok(fixture.clone())
        },
    )
    .unwrap()
    .unwrap();
    assert!(got.object.key.ends_with("1205@0@DBZH.tiff"));
    assert_eq!(got.frame.width, 32);
    let known = Known::new().with(got.object.key.clone());
    let again = cycle(
        &known,
        |_day| parse_dbzh_listing(listing),
        |_key| panic!("should not refetch"),
    )
    .unwrap();
    assert!(again.is_none());
}

#[test]
fn backfill_skips_known_and_keeps_a_dozen() {
    let listing = listing(&[
        "1100", "1105", "1110", "1115", "1120", "1125", "1130", "1135", "1140", "1145", "1150",
        "1155", "1200", "1205",
    ]);
    let objects = parse_dbzh_listing(&listing).unwrap();
    assert_eq!(objects.len(), 14);
    let known = Known::only("2026/09/17/OPERA/COMP/OPERA@20260917T1205@0@DBZH.tiff".into());
    let targets = backfill_targets(&objects, &known, HISTORY_MAX);
    assert_eq!(targets.len(), 11);
    assert!(targets[0].key.ends_with("1110@0@DBZH.tiff"));
    assert!(targets[10].key.ends_with("1200@0@DBZH.tiff"));
    assert!(!targets.iter().any(|o| o.key.contains("1100") || o.key.contains("1105")));
}

fn great_circle_m(a: (f64, f64), b: (f64, f64)) -> u64 {
    let (p1, p2) = (a.0.to_radians(), b.0.to_radians());
    let (dp, dl) = ((b.0 - a.0).to_radians(), (b.1 - a.1).to_radians());
    let h = (dp / 2.0).sin().powi(2) + p1.cos() * p2.cos() * (dl / 2.0).sin().powi(2);
    (2.0 * 6_371_000.0 * h.clamp(0.0, 1.0).sqrt().asin()).round() as u64
}

fn dishes(registry: &SourceRegistry, lat: f64, lon: f64) -> Vec<u64> {
    registry.sites.iter().map(|s| great_circle_m((lat, lon), (f(s.lat), f(s.lon)))).collect()
}

#[test]
fn opera_covers_london_and_loses_to_polar() {
    let registry = SourceRegistry::compiled();
    let london = GeoPoint { lat: d(51.5), lon: d(-0.1) };
    let picked =
        registry.covering_selection(london, None, &dishes(&registry, 51.5, -0.1)).unwrap();
    assert_eq!(picked.source_id, ID);
    assert_eq!(picked.target, AdapterTarget::Mosaic);

    let ktlx = GeoPoint { lat: d(35.333), lon: d(-97.278) };
    let picked =
        registry.covering_selection(ktlx, None, &dishes(&registry, 35.333, -97.278)).unwrap();
    assert_eq!(picked.source_id, "nexrad");
}

fn mosaic(id: &str, priority: i32, north: f64, south: f64, east: f64, west: f64) -> Candidate {
    Candidate {
        selection: Selection { source_id: id.into(), target: AdapterTarget::Mosaic },
        family: Family::Grid,
        product: ProductClass::Reflectivity,
        priority,
        coverage: Coverage::Box { north: d(north), south: d(south), east: d(east), west: d(west) },
        dish: None,
    }
}

#[test]
fn national_priority_preempts_opera_when_both_cover() {
    let opera = Candidate {
        selection: Selection { source_id: ID.into(), target: AdapterTarget::Mosaic },
        family: Family::Grid,
        product: ProductClass::Reflectivity,
        priority: SELECTION_PRIORITY,
        coverage: Coverage::Box {
            north: Double { bits: COVERAGE_NORTH },
            south: Double { bits: COVERAGE_SOUTH },
            east: Double { bits: COVERAGE_EAST },
            west: Double { bits: COVERAGE_WEST },
        },
        dish: None,
    };
    let national = mosaic("italy-dpc", 50, 47.0, 36.0, 19.0, 6.0);
    let rome = GeoPoint { lat: d(41.9), lon: d(12.5) };
    assert_eq!(
        covering_selection(rome, None, &[opera.clone(), national.clone()]).map(|s| s.source_id),
        Some("italy-dpc".into())
    );
    let held_opera = Selection { source_id: ID.into(), target: AdapterTarget::Mosaic };
    assert_eq!(
        covering_selection(rome, Some(&held_opera), &[opera, national]).map(|s| s.source_id),
        Some("italy-dpc".into()),
        "higher priority national preempts held OPERA"
    );
}

#[test]
fn attribution_and_hello_metadata() {
    let opera = opera();
    let meta = opera.metadata();
    assert_eq!(meta.attribution, ATTRIBUTION);
    assert_eq!(meta.name, NAME);
    assert_eq!(meta.default_product_class, ProductClass::Reflectivity);
}

#[test]
fn metadata_names_a_grid_mosaic_with_its_box() {
    let opera = opera();
    let meta = opera.metadata();
    assert_eq!(meta.id, "opera");
    assert_eq!(meta.family, Family::Grid);
    assert_eq!(meta.kind, Kind::Mosaic);
    match meta.coverage {
        AdapterCoverage::Mosaic {
            coverage: Coverage::Box { north, south, east, west },
            selection_priority,
        } => {
            assert_eq!((f(*north), f(*south), f(*east), f(*west)), (70.0, 32.0, 50.0, -30.0));
            assert_eq!(selection_priority, 10);
        }
        _ => panic!("not a mosaic"),
    }
}

#[test]
fn the_projection_is_the_mosaics() {
    let Crs::LambertAzimuthalEqualArea {
        lat0_deg,
        lon0_deg,
        false_easting_m,
        false_northing_m,
        datum_transform,
        ..
    } = Opera::crs();
    assert_eq!(f(lat0_deg), LAT0);
    assert_eq!(f(lon0_deg), 10.0);
    assert_eq!(f(false_easting_m), 1_950_000.0);
    assert_eq!(f(false_northing_m), -2_100_000.0);
    assert!(datum_transform.is_none());
}

#[test]
fn a_held_grid_stays_among_equals() {
    let a = mosaic("aa", 5, 10.0, 0.0, 10.0, 0.0);
    let b = mosaic("bb", 5, 10.0, 0.0, 10.0, 0.0);
    let p = GeoPoint { lat: d(5.0), lon: d(5.0) };
    let pick = |held: Option<&Selection>, list: &[Candidate]| {
        covering_selection(p, held, list).map(|s| s.source_id)
    };
    assert_eq!(pick(None, &[a.clone(), b.clone()]), Some("aa".into()));
    assert_eq!(pick(None, &[b.clone(), a.clone()]), Some("aa".into()));
    assert_eq!(pick(Some(&b.selection), &[a.clone(), b.clone()]), Some("bb".into()));
    let away = GeoPoint { lat: d(50.0), lon: d(5.0) };
    assert!(covering_selection(away, Some(&b.selection), &[a, b.clone()]).is_none());
    assert!(covering_selection(p, None, &[]).is_none());
}

fn dish(id: &str, metres: u64) -> Candidate {
    Candidate {
        selection: Selection {
            source_id: "nexrad".into(),
            target: AdapterTarget::Site { site_id: id.into() },
        },
        family: Family::Polar,
        product: ProductClass::Reflectivity,
        priority: 0,
        coverage: Coverage::Circle { lat: d(0.0), lon: d(0.0), radius_km: 460 },
        dish: Some(metres),
    }
}

#[test]
fn a_held_dish_stays_until_another_is_much_nearer() {
    let p = GeoPoint { lat: d(5.0), lon: d(5.0) };
    let site = |held: Option<&Selection>, list: &[Candidate]| match covering_selection(p, held, list)
        .unwrap()
        .target
    {
        AdapterTarget::Site { site_id } => site_id,
        AdapterTarget::Mosaic => "mosaic".into(),
    };
    let held = dish("KAAA", 100_000);
    assert_eq!(site(None, &[held.clone(), dish("KBBB", 90_000)]), "KBBB");
    assert_eq!(site(Some(&held.selection), &[held.clone(), dish("KBBB", 90_000)]), "KAAA");
    assert_eq!(site(Some(&held.selection), &[held.clone(), dish("KBBB", 79_000)]), "KBBB");
    let close = dish("KAAA", 1_000);
    assert_eq!(site(Some(&close.selection), &[close.clone(), dish("KBBB", 100)]), "KAAA");
    let grid = mosaic("italy-dpc", 50, 10.0, 0.0, 10.0, 0.0);
    assert_eq!(site(Some(&grid.selection), &[grid.clone(), dish("KBBB", 460_000)]), "KBBB");
    assert_eq!(site(None, &[grid, dish("KBBB", 460_001)]), "mosaic");
}

#[test]
fn keys_name_their_moment() {
    let when = stamp(moment(2026, 9, 17, 12, 5));
    assert_eq!(parse_dbzh_key(&key("1205")), Some(when));
    assert_eq!(parse_dbzh_key("OPERA@20260917T1205@0@DBZH.tiff"), Some(when));
    assert_eq!(parse_dbzh_key("OPERA@20260917T2505@0@DBZH.tiff"), None);
    assert_eq!(parse_dbzh_key("OPERA@20260917T1205@0@RATE.tiff"), None);
    assert_eq!(parse_dbzh_key("x@20260917T1205@0@DBZH.tiff"), None);
    assert_eq!(key_stamp(&key("1205")), Some("20260917T1205".into()));
    assert_eq!(key_stamp("OPERA@0@DBZH.tiff"), None);
    assert_eq!(key_stamp("OPERA@@0@DBZH.tiff"), Some("".into()));
    assert_eq!(when.seconds(), 1_789_646_700);
    assert!(Stamp::at(i64::MAX).is_none());
}

#[test]
fn addresses_follow_the_day_and_the_key() {
    let prefix = prefix_for(day(2026, 9, 7));
    assert_eq!(prefix, "2026/09/07/OPERA/COMP/");
    assert_eq!(
        list_url(&prefix),
        "https://s3.waw3-1.cloudferro.com/openradar-24h?list-type=2&prefix=2026/09/07/OPERA/COMP/&max-keys=1000"
    );
    assert_eq!(object_url("a/b"), "https://s3.waw3-1.cloudferro.com/openradar-24h/a/b");
}

#[test]
fn listings_are_sorted_and_broken_ones_refused() {
    let objects = parse_dbzh_listing(&listing(&["1210", "1200", "1205"])).unwrap();
    let keys: Vec<_> = objects.iter().map(|o| o.key.clone()).collect();
    assert_eq!(keys, vec![key("1200"), key("1205"), key("1210")]);
    let error = parse_dbzh_listing("<A><Key>x</A>").unwrap_err();
    assert!(error.starts_with("reading OPERA listing: "));
    assert!(error.len() > "reading OPERA listing: ".len());
    assert!(parse_dbzh_listing("<A></A>").unwrap().is_empty());
}

#[test]
fn steps_outside_a_key_are_passed_over() {
    let steps = vec![
        XmlStep::Text("ignored".into()),
        XmlStep::Open("Key".into()),
        XmlStep::Text("b/OPERA@20260917T1205".into()),
        XmlStep::Other,
        XmlStep::Text("@0@DBZH.tiff".into()),
        XmlStep::Close("Key".into()),
        XmlStep::Close("Key".into()),
        XmlStep::Open("Size".into()),
        XmlStep::Text("12".into()),
        XmlStep::Close("Size".into()),
        XmlStep::Open("Key".into()),
        XmlStep::Text("a/OPERA@20260917T1205@0@DBZH.tiff".into()),
        XmlStep::Close("Key".into()),
    ];
    let objects = objects_from_steps(&steps).unwrap();
    assert_eq!(objects.len(), 2);
    assert_eq!(objects[0].key, "b/OPERA@20260917T1205@0@DBZH.tiff");
    assert_eq!(objects[1].key, "a/OPERA@20260917T1205@0@DBZH.tiff");
    let broken = vec![XmlStep::Failed("no".into())];
    assert_eq!(objects_from_steps(&broken).unwrap_err(), "reading OPERA listing: no");
}

#[test]
fn an_empty_today_falls_back_to_yesterday() {
    let today = day(2026, 3, 1);
    match list_recent(today, Ok(vec![])) {
        Recent::AskDay(d) => assert_eq!(d, day(2026, 2, 28)),
        Recent::Ready(_) => panic!("not asked"),
    }
    match list_recent(FIRST_DAY, Ok(vec![])) {
        Recent::AskDay(d) => assert_eq!(d, FIRST_DAY),
        Recent::Ready(_) => panic!("not asked"),
    }
    let objects = parse_dbzh_listing(&listing(&["1200"])).unwrap();
    match list_recent(today, Ok(objects)) {
        Recent::Ready(Ok(same)) => assert_eq!(same.len(), 1),
        _ => panic!("not ready"),
    }
    match list_recent(today, Err("down".into())) {
        Recent::Ready(Err(e)) => assert_eq!(e, "down"),
        _ => panic!("not ready"),
    }
}

#[test]
fn a_look_goes_back_one_day_and_no_further() {
    let (today, before) = (day(2026, 9, 17), day(2026, 9, 16));
    let asked = std::cell::RefCell::new(vec![]);
    let r = cycle(
        &Known::new(),
        |of| {
            asked.borrow_mut().push(of);
            Ok(vec![])
        },
        |_| panic!("nothing to fetch"),
    );
    assert!(r.unwrap().is_none());
    assert_eq!(*asked.borrow(), vec![today, before]);
    let r = cycle(
        &Known::new(),
        |of| parse_dbzh_listing(&listing(if of == before { &["1200"] } else { &[] })),
        |_| Ok(synthetic_fixture_cog()),
    );
    assert_eq!(r.unwrap().unwrap().object.key, key("1200"));
    let r = cycle(&Known::new(), |_| Err("down".into()), |_| panic!("nothing to fetch"));
    assert_eq!(r.unwrap_err(), "down");
}

#[test]
fn nothing_new_is_asked_of_an_empty_or_known_listing() {
    assert!(newest_unseen(&vec![], &Known::new()).is_none());
    assert!(matches!(refresh_listed(None, Ok(vec![]), &Known::new()), Look::Nothing));
    assert!(matches!(
        refresh_listed(Some(5), Err("down".into()), &Known::new()),
        Look::Failed(e) if e == "down"
    ));
    let objects = parse_dbzh_listing(&listing(&["1200", "1205"])).unwrap();
    assert_eq!(newest_unseen(&objects, &Known::only(key("1200"))).unwrap().key, key("1205"));
    assert!(newest_unseen(&objects, &Known::only(key("1205"))).is_none());
    let failed = refresh(objects[0].clone(), Err("gone".into()), &palette(), &bounds());
    assert!(matches!(failed, Err(RefreshError::Fetch(e)) if e == "gone"));
    let broken = refresh(objects[0].clone(), Ok(vec![1, 2, 3]), &palette(), &bounds());
    assert!(matches!(broken, Err(RefreshError::Decode(DecodeError::Cog(CogError::NotTiff)))));
}

fn fetched(stamp: &str) -> Fetched {
    let object = parse_dbzh_listing(&listing(&[stamp])).unwrap().remove(0);
    refresh(object, Ok(synthetic_fixture_cog()), &palette(), &bounds()).unwrap()
}

#[test]
fn the_first_look_tells_what_came_of_it() {
    let opera = opera();
    let start = || opera.poll(&AdapterTarget::Mosaic, Known::new()).unwrap();
    assert!(opera.poll(&AdapterTarget::Site { site_id: "KTLX".into() }, Known::new()).is_none());
    let (poller, event) = start().first(First::Fetched(fetched("1200")));
    assert!(matches!(event, Event::Frame { start_ms: 1_789_646_400_000, .. }));
    assert!(poller.known().contains(&key("1200")));
    let (_, event) = start().first(First::Nothing);
    assert!(matches!(event, Event::Silent { reason } if reason == SILENT));
    let (_, event) = start().first(First::Failed("down".into()));
    assert!(matches!(event, Event::Offline { reason } if reason == "down"));
    let (poller, event) = start().first(First::TimedOut);
    assert!(matches!(event, Event::Offline { reason } if reason == TIMED_OUT));
    assert_eq!(poller.known().len(), 0);
}

#[test]
fn later_looks_keep_the_known_keys_bounded() {
    let mut known = Known::new();
    for i in 0..KNOWN_MAX {
        known = known.with(format!("key {i}"));
    }
    assert_eq!(known.duplicate().with("key 0".into()).len(), KNOWN_MAX);
    let poller = opera().poll(&AdapterTarget::Mosaic, known).unwrap();
    let (poller, event) = poller.next(Ok(None));
    assert!(event.is_none());
    let (poller, event) = poller.next(Err("down".into()));
    assert!(matches!(event, Some(Event::Offline { reason }) if reason == "down"));
    assert_eq!(poller.known().len(), KNOWN_MAX);
    let (poller, event) = poller.next(Ok(Some(fetched("1205"))));
    assert!(matches!(event, Some(Event::Frame { .. })));
    assert_eq!(poller.known().len(), 1);
    assert!(poller.known().contains(&key("1205")));
    let (poller, _) = poller.next(Ok(Some(fetched("1210"))));
    assert_eq!(poller.known().len(), 2);
}

#[test]
fn earlier_objects_become_backfill() {
    let object = parse_dbzh_listing(&listing(&["1200"])).unwrap().remove(0);
    let event = backfill(&object, &synthetic_fixture_cog(), &palette(), &bounds()).unwrap();
    match event {
        Event::Backfill { frame, texture, start_ms } => {
            assert_eq!(frame.id, "opera-20260917T120000Z");
            assert_eq!(frame.scan_time, "2026-09-17T12:00:00Z");
            assert_eq!(frame.product, "REF");
            assert_eq!(frame.status, FrameStatus::Complete);
            assert_eq!(frame.palette, palette());
            assert_eq!(frame.bounds, bounds());
            assert!(frame.texture.is_empty());
            assert!(frame.sweep_end.is_none());
            assert_eq!(start_ms, 1_789_646_400_000);
            assert_eq!(&texture[..8], &[137, 80, 78, 71, 13, 10, 26, 10]);
        }
        _ => panic!("not a backfill"),
    }
    assert!(matches!(
        backfill(&object, &[], &palette(), &bounds()),
        Err(DecodeError::Cog(CogError::NotTiff))
    ));
}

#[test]
fn a_backfill_goes_on_past_failures() {
    let listed = parse_dbzh_listing(&listing(&["1200", "1205", "1210", "1215"]));
    let known = Known::only(key("1215"));
    let backfill = Backfill::begin(listed, &known).unwrap();
    assert_eq!(backfill.current().unwrap().key, key("1200"));
    let (backfill, outcome) = backfill.took(Err("gone".into()), &palette(), &bounds());
    assert!(matches!(outcome, Err(Skip::Fetch(e)) if e == "gone"));
    assert_eq!(backfill.current().unwrap().key, key("1205"));
    let (backfill, outcome) = backfill.took(Ok(vec![]), &palette(), &bounds());
    assert!(matches!(outcome, Err(Skip::Decode(DecodeError::Cog(CogError::NotTiff)))));
    let (backfill, outcome) =
        backfill.took(Ok(synthetic_fixture_cog()), &palette(), &bounds());
    assert!(matches!(outcome, Ok(Event::Backfill { start_ms: 1_789_647_000_000, .. })));
    assert!(backfill.current().is_none());
    assert_eq!(Backfill::begin(Err("down".into()), &known).unwrap_err(), "down");
}

#[test]
fn the_texture_holds_the_classes() {
    let (_, png, _) = decode_frame(
        &synthetic_fixture_cog(),
        stamp(moment(2026, 9, 17, 12, 0)),
        &palette(),
        &bounds(),
    )
    .unwrap();
    let mut reader = png::Decoder::new(std::io::Cursor::new(&png)).read_info().unwrap();
    let mut pixels = vec![0; reader.output_buffer_size().unwrap()];
    reader.next_frame(&mut pixels).unwrap();
    assert_eq!(&pixels[..16], &[1, 0, 0, 255, 0, 1, 0, 255, 4, 0, 0, 255, 0, 2, 0, 255]);
    assert_eq!(&pixels[4 * 528..4 * 528 + 4], &[5, 0, 0, 255]);
}

fn raster(params: &[f64], gt: [f64; 6]) -> DecodedRaster {
    DecodedRaster {
        width: 1,
        height: 1,
        values: vec![s(1.0)],
        nodata: None,
        geotransform: gt.map(d),
        geo_double_params: params.iter().map(|p| d(*p)).collect(),
    }
}

const GOOD: [f64; 6] = [-500.0, 1000.0, 0.0, 500.0, 0.0, -1000.0];

#[test]
fn georeferences_agree_within_their_tolerances() {
    let params = [55.0, 10.0, 1_950_000.0, -2_100_000.0];
    assert!(validate_opera_georef(&raster(&params, GOOD)).is_ok());
    assert!(validate_opera_georef(&raster(&params[..3], GOOD)).is_ok());
    let near = [55.000_000_9, 9.999_999_1, 1_950_000.000_9, -2_099_999.999_1];
    assert!(validate_opera_georef(&raster(&near, GOOD)).is_ok());
    for i in 0..4 {
        let mut off = params;
        off[i] += if i < 2 { 2e-6 } else { 2e-3 };
        match validate_opera_georef(&raster(&off, GOOD)) {
            Err(GeorefError::Params { lat0, lon0, fe, fnorth }) => {
                assert_eq!([f(lat0), f(lon0), f(fe), f(fnorth)], off)
            }
            _ => panic!("accepted"),
        }
    }
    for (i, x) in [(1, 1000.1), (5, 1000.0), (1, f64::INFINITY)] {
        let mut gt = GOOD;
        gt[i] = x;
        assert!(matches!(
            validate_opera_georef(&raster(&params, gt)),
            Err(GeorefError::PixelSize { .. })
        ));
    }
    let mut gt = GOOD;
    gt[1] = f64::NAN;
    assert!(validate_opera_georef(&raster(&params, gt)).is_ok());
}

#[test]
fn georeference_messages_spell_out_the_numbers() {
    assert_eq!(
        laea_message("1", "2", "3", "4"),
        "unexpected OPERA LAEA params lat0=1 lon0=2 fe=3 fn=4"
    );
    assert_eq!(pixel_message("[0.0]"), "unexpected OPERA pixel size [0.0]");
}

#[test]
fn a_wrong_georeference_is_no_frame() {
    let gt: Vec<Double> = [0.0, 2000.0, 0.0, 0.0, 0.0, -2000.0].iter().map(|x| d(*x)).collect();
    let bytes =
        write_float_cog(1, 1, 16, 16, &gt, &[d(1.0)], 0, &[s(1.0)], &[s(1.0)]).unwrap();
    let r = decode_frame(&bytes, stamp(moment(2026, 9, 17, 12, 0)), &palette(), &bounds());
    assert!(matches!(r, Err(DecodeError::Georef(GeorefError::PixelSize { .. }))));
}

#[test]
fn a_failed_texture_is_told() {
    let raster = raster(&[], GOOD);
    let when = stamp(moment(2026, 9, 17, 12, 0));
    let r = frame_from(
        &raster,
        Err("full".into()),
        "a".into(),
        "b".into(),
        when,
        &palette(),
        &bounds(),
    );
    assert!(matches!(r, Err(DecodeError::Texture(e)) if e == "encoding OPERA texture: full"));
    let (frame, file, ms) = frame_from(
        &raster,
        Ok(vec![7]),
        "scan".into(),
        "stamp".into(),
        when,
        &palette(),
        &bounds(),
    )
    .unwrap();
    assert_eq!((frame.id.as_str(), frame.scan_time.as_str()), ("opera-stamp", "scan"));
    assert_eq!((file, ms), (vec![7], 1_789_646_400_000));
}

fn plain_class(value: f64, bounds: &[f64], classes: usize) -> u8 {
    if bounds.len() < 2 {
        return 0;
    }
    let mut above = 0usize;
    for (i, edge) in bounds.iter().enumerate().skip(1) {
        if value >= bounds[i - 1] && value < *edge {
            return (i - 1).min(classes - 1) as u8;
        }
        if value >= *edge {
            above = i;
        }
    }
    above.saturating_sub(1).min(classes - 1) as u8
}

#[test]
fn classes_follow_the_edges() {
    let tables: [&[f64]; 5] = [
        &[],
        &[5.0],
        &[0.0, 10.0, 20.0, 30.0],
        &[10.0, 0.0, 20.0, f64::NAN, 30.0],
        &[-f64::INFINITY, 0.0, f64::INFINITY],
    ];
    let values = [
        -1.0, -0.0, 0.0, 5.0, 9.999, 10.0, 19.0, 20.0, 29.0, 30.0, 99.0, f64::INFINITY,
        -f64::INFINITY, f64::NAN, 1e-320,
    ];
    for table in tables {
        let edges: Vec<Double> = table.iter().map(|b| d(*b)).collect();
        for value in values {
            for classes in [1, 2, 3, 9] {
                assert_eq!(
                    class_of(d(value), &edges, classes),
                    plain_class(value, table, classes),
                    "{value} {table:?} {classes}"
                );
            }
        }
    }
    assert_eq!(class_of(d(25.0), &[d(0.0), d(10.0), d(20.0), d(30.0)], 9), 2);
}

#[test]
fn repeated_edges_count_each_time() {
    let table = [0.0, 0.0, 10.0, 10.0, 10.0, 20.0, 20.0];
    let edges: Vec<Double> = table.iter().map(|b| d(*b)).collect();
    for value in [-1.0, -0.0, 0.0, 5.0, 10.0, 15.0, 20.0, 99.0] {
        let reached = table[1..table.len() - 1].iter().filter(|edge| value >= **edge).count();
        for classes in [1, 2, 4, 6, 9] {
            assert_eq!(
                class_of(d(value), &edges, classes),
                reached.min(classes - 1) as u8,
                "{value} {classes}"
            );
        }
    }
    assert_eq!(class_of(d(10.0), &edges, 9), 4);
    assert_eq!(class_of(d(5.0), &edges, 9), 1);
}

fn plain_pixels(values: &[f32], nodata: Option<f32>, bounds: &[f64], classes: usize) -> Vec<u8> {
    let classes = classes.max(1);
    let fill = nodata.unwrap_or(-9_999_000.0);
    let mut pixels = Vec::new();
    for &v in values {
        let (r, g) = if v.is_nan() {
            (0, 2)
        } else if (v - fill).abs() < 1.0 || v <= fill / 2.0 {
            (0, 1)
        } else {
            (plain_class(v as f64, bounds, classes) + 1, 0)
        };
        pixels.extend_from_slice(&[r, g, 0, 255]);
    }
    pixels
}

#[test]
fn classes_must_leave_room_for_one_more() {
    let edges: Vec<Double> = (0..300).map(|b| d(b as f64)).collect();
    assert!(check_classes(&[s(254.5), s(256.5)], None, &edges, 300));
    assert!(!check_classes(&[s(1.0), s(255.5)], None, &edges, 300));
    assert!(check_classes(&[s(255.5)], Some(s(255.0)), &edges, 300));
    assert!(check_classes(&[s(255.5)], None, &edges, 255));
    assert!(check_classes(&[s(255.5)], None, &edges[..256], 300));
    assert!(!check_classes(&[s(9999.0)], None, &edges, 256));
    assert_eq!(classify(&[s(254.5)], None, &edges, 300), [255, 0, 0, 255]);
    let many: Vec<String> = (0..300).map(|c| format!("#{c:06x}")).collect();
    assert!(check_paints(&synthetic_fixture_cog(), &many, &edges));
    assert!(check_paints(&[], &many, &edges));
    let shifted: Vec<Double> = (0..300).map(|b| d(b as f64 - 250.5)).collect();
    assert!(!check_paints(&synthetic_fixture_cog(), &many, &shifted));
}

#[test]
fn pixels_tell_missing_undetected_and_classes_apart() {
    let values = [
        5.0f32, -9_999_000.0, -9_998_999.0, -9_998_998.0, -5_000_000.0, -4_999_500.0, -4_999_499.5,
        -4_999_499.0, 0.0, -0.0, 1e-45, -1e-45, f32::NAN, f32::INFINITY, -f32::INFINITY, 35.0, 45.0,
        255.0, 254.5, 254.0, 256.0, 127.5, 127.4, 16_777_216.0,
    ];
    let table = [0.0, 10.0, 20.0, 30.0, 40.0];
    let edges: Vec<Double> = table.iter().map(|b| d(*b)).collect();
    let singles: Vec<Single> = values.iter().map(|v| s(*v)).collect();
    for nodata in
        [None, Some(255.0f32), Some(0.0), Some(-1e-45), Some(f32::NAN), Some(f32::INFINITY), Some(-f32::INFINITY)]
    {
        for classes in [0, 1, 4, 7] {
            assert_eq!(
                classify(&singles, nodata.map(s), &edges, classes),
                plain_pixels(&values, nodata, &table, classes),
                "{nodata:?} {classes}"
            );
        }
    }
}
