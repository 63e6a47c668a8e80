use omastorm::body::{Body, OVERSIZE};
use omastorm::ieee::Double;
use omastorm::metar::{AwcMetar, BBox, Pick, Query, Visibility};
use omastorm::protocol::MetarReport;
use omastorm::select::{AwcStation, PriorityValue};
use omastorm::service::{
    bbox_url, cache_key, stations_key, Asking, Clock, CornerTexts, Load, Service, Turn,
    DEFAULT_STATIONS_URL, DEFAULT_URL, STATIONS_TTL, TTL,
};

fn d(x: f64) -> Double {
    Double { bits: x.to_bits() }
}

fn clock(unix: i64, steady: u128) -> Clock {
    Clock { unix, steady }
}

fn bbox(south: f64, west: f64, north: f64, east: f64) -> BBox {
    BBox { south: d(south), west: d(west), north: d(north), east: d(east) }
}

fn around() -> BBox {
    bbox(33.1, -100.0, 37.6, -94.5)
}

fn query(pick: Pick) -> Query {
    Query {
        lat: d(35.33306),
        lon: d(-97.27748),
        bbox: Some(bbox(34.0, -99.0, 37.0, -95.0)),
        pick,
        limit: 2,
        always_on: vec!["KOUN".into(), "KTIK".into()],
    }
}

fn row(id: &str, lat: f64, lon: f64) -> AwcMetar {
    AwcMetar {
        icao_id: id.into(),
        raw_ob: format!("{id} OBS"),
        flt_cat: "VFR".into(),
        lat: d(lat),
        lon: d(lon),
        obs_time: Some(d(100.0)),
        visib: Visibility::Other,
        clouds: vec![],
        vert_vis: None,
    }
}

fn ids(reports: &[MetarReport]) -> Vec<&str> {
    reports.iter().map(|r| r.id.as_str()).collect()
}

fn open() -> Service {
    Service::open(None, None, false, false)
}

fn reply(turn: Turn) -> Vec<MetarReport> {
    match turn {
        Turn::Reply(reports) => reports,
        _ => panic!("no reply yet"),
    }
}

fn metars(turn: Turn) -> (Asking, Load) {
    match turn {
        Turn::Metars(asking, load) => (asking, load),
        _ => panic!("no load of observations"),
    }
}

fn stations(turn: Turn) -> (Asking, Load) {
    match turn {
        Turn::Stations(asking, load) => (asking, load),
        _ => panic!("no load of stations"),
    }
}

#[test]
fn outside_the_network_there_is_no_load() {
    let mut q = query(Pick::Nearest);
    q.lat = d(51.5);
    q.lon = d(-0.1);
    assert!(reply(open().query(q, around(), clock(0, 0))).is_empty());
}

#[test]
fn a_query_loads_the_observations_of_its_box() {
    let service = open();
    let (_, load) = metars(service.query(query(Pick::Nearest), around(), clock(0, 0)));
    match load {
        Load::Fetch { base, bbox, hours } => {
            assert_eq!(base, DEFAULT_URL);
            assert_eq!(bbox.south, d(34.0));
            assert!(hours);
        }
        Load::Fixture => panic!("fixture"),
    }
    let mut q = query(Pick::Nearest);
    q.bbox = None;
    let (_, load) = metars(service.query(q, around(), clock(0, 0)));
    assert!(matches!(load, Load::Fetch { bbox, .. } if bbox.south == d(33.1)));
}

#[test]
fn addresses_and_fixtures_can_be_given() {
    let service = Service::open(Some("http://m".into()), Some("http://s".into()), true, false);
    let (_, load) = metars(service.query(query(Pick::Nearest), around(), clock(0, 0)));
    assert!(matches!(load, Load::Fixture));
    let (_, load) = stations(service.query(query(Pick::Priority), around(), clock(0, 0)));
    assert!(matches!(load, Load::Fetch { base, hours: false, .. } if base == "http://s"));
    let service = Service::open(None, None, false, true);
    let (_, load) = stations(service.query(query(Pick::Priority), around(), clock(0, 0)));
    assert!(matches!(load, Load::Fixture));
    let service = open();
    let (_, load) = stations(service.query(query(Pick::Priority), around(), clock(0, 0)));
    assert!(matches!(load, Load::Fetch { base, .. } if base == DEFAULT_STATIONS_URL));
}

fn answer(service: &mut Service, asking: Asking, now: u128) -> Vec<MetarReport> {
    let rows = vec![row("KTIK", 35.4, -97.4), row("KOKC", 35.4, -97.6), row("EGLL", 51.5, -0.5)];
    let m = Service::metars_loaded(asking, Ok(rows)).unwrap();
    assert_eq!(m.place(), (d(35.33306), d(-97.27748)));
    let km: Vec<Double> = m.places().iter().map(|p| d(f64::from_bits(p.1.bits).abs())).collect();
    service.measured(m, km, now)
}

#[test]
fn a_reply_is_remembered_for_ten_minutes() {
    let mut service = open();
    let (asking, _) = metars(service.query(query(Pick::Nearest), around(), clock(0, 5)));
    let reports = answer(&mut service, asking, 10);
    assert_eq!(ids(&reports), ["KTIK", "KOKC"]);
    let again = reply(service.query(query(Pick::Nearest), around(), clock(3599, 10 + TTL - 1)));
    assert_eq!(ids(&again), ["KTIK", "KOKC"]);
    metars(service.query(query(Pick::Nearest), around(), clock(0, 10 + TTL)));
    metars(service.query(query(Pick::Nearest), around(), clock(3600, 11)));
    let mut other = query(Pick::Nearest);
    other.limit = 3;
    metars(service.query(other, around(), clock(0, 11)));
}

#[test]
fn a_remembered_reply_stays_inside_the_box_that_asks() {
    let mut service = open();
    let boxed = |south: f64| Query {
        bbox: Some(bbox(south, -98.0, 36.0, -97.0)),
        always_on: vec![],
        limit: 16,
        ..query(Pick::Priority)
    };
    let (asking, _) = stations(service.query(boxed(34.96), around(), clock(0, 0)));
    let (asking, _) = service.stations_loaded(asking, Some(vec![]), 1);
    let rows = vec![row("KAAA", 35.0, -97.5), row("KBBB", 35.5, -97.5)];
    let m = Service::metars_loaded(asking, Ok(rows)).unwrap();
    let reports = service.measured(m, vec![d(1.0), d(2.0)], 2);
    assert_eq!(ids(&reports), ["KAAA", "KBBB"]);
    assert_eq!(cache_key(&boxed(34.96), 0).south, cache_key(&boxed(35.04), 0).south);
    let again = reply(service.query(boxed(34.96), around(), clock(0, 3)));
    assert_eq!(ids(&again), ["KAAA", "KBBB"]);
    let wider = reply(service.query(boxed(34.97), around(), clock(0, 3)));
    assert_eq!(ids(&wider), ["KAAA", "KBBB"]);
    let (asking, load) = metars(service.query(boxed(35.04), around(), clock(0, 3)));
    assert!(matches!(load, Load::Fetch { bbox, .. } if bbox.south == d(35.04)));
    let rows = vec![row("KAAA", 35.0, -97.5), row("KBBB", 35.5, -97.5)];
    let m = Service::metars_loaded(asking, Ok(rows)).unwrap();
    assert_eq!(ids(&service.measured(m, vec![d(1.0), d(2.0)], 4)), ["KBBB"]);
    let narrow = reply(service.query(boxed(35.04), around(), clock(0, 5)));
    assert_eq!(ids(&narrow), ["KBBB"]);
}

#[test]
fn a_failed_load_is_told_and_not_remembered() {
    let service = open();
    let (asking, _) = metars(service.query(query(Pick::Nearest), around(), clock(0, 0)));
    let error = Service::metars_loaded(asking, Err("HTTP 500".into())).unwrap_err();
    assert_eq!(error, "HTTP 500");
    metars(service.query(query(Pick::Nearest), around(), clock(0, 1)));
}

#[test]
fn priorities_are_loaded_once_a_day() {
    let mut service = open();
    let mut q = query(Pick::Priority);
    q.always_on = vec![];
    q.limit = 1;
    let (asking, _) = stations(service.query(q, around(), clock(0, 0)));
    let rows = vec![
        AwcStation { icao_id: "kokc".into(), priority: PriorityValue::Number(Some(1)) },
        AwcStation { icao_id: "KTIK".into(), priority: PriorityValue::Text("5".into()) },
    ];
    let (asking, load) = service.stations_loaded(asking, Some(rows), 20);
    assert!(matches!(load, Load::Fetch { hours: true, .. }));
    assert_eq!(ids(&answer(&mut service, asking, 30)), ["KOKC"]);
    let late = 20 + STATIONS_TTL;
    metars(service.query(query(Pick::Priority), around(), clock(86_399, late - 1)));
    stations(service.query(query(Pick::Priority), around(), clock(0, late)));
    stations(service.query(query(Pick::Priority), around(), clock(86_400, 21)));
}

#[test]
fn without_priorities_the_nearest_come_first() {
    let mut service = open();
    let mut q = query(Pick::Priority);
    q.always_on = vec![];
    let (asking, _) = stations(service.query(q, around(), clock(0, 0)));
    let (asking, _) = service.stations_loaded(asking, None, 20);
    assert_eq!(ids(&answer(&mut service, asking, 30)), ["KTIK", "KOKC"]);
    stations(service.query(
        Query { limit: 3, ..query(Pick::Priority) },
        around(),
        clock(0, 21),
    ));
}

#[test]
fn keys_round_to_a_tenth_of_a_degree() {
    let key = cache_key(&query(Pick::Priority), -1);
    assert_eq!((key.lat, key.lon), (353, -973));
    assert_eq!((key.south, key.west, key.north, key.east), (340, -990, 370, -950));
    assert_eq!((key.pick, key.limit), (1, 2));
    assert_eq!(key.always, "KOUN KTIK");
    assert_eq!(key.hour, -1);
    let mut q = query(Pick::Nearest);
    q.bbox = None;
    q.limit = 258;
    q.always_on = vec![];
    let key = cache_key(&q, 7200);
    assert_eq!((key.south, key.east, key.pick, key.limit, key.hour), (0, 0, 0, 2, 2));
    assert_eq!(key.always, "");
    let key = stations_key(around(), -1);
    assert_eq!((key.south, key.west, key.north, key.east, key.day), (331, -1000, 376, -945, -1));
}

#[test]
fn addresses_ask_for_a_box() {
    let corners = CornerTexts {
        south: format!("{:.4}", 34.0),
        west: format!("{:.4}", -99.00004),
        north: format!("{:.4}", 37.0),
        east: format!("{:.4}", -95.0),
    };
    assert_eq!(
        bbox_url("http://m", &corners, true),
        "http://m?bbox=34.0000,-99.0000,37.0000,-95.0000&format=json&hours=1"
    );
    assert_eq!(
        bbox_url("http://m?a=1", &corners, false),
        "http://m?a=1&bbox=34.0000,-99.0000,37.0000,-95.0000&format=json"
    );
}

#[test]
fn bodies_stop_at_their_limit() {
    assert_eq!(Body::begin(404, "404 Not Found", None, 10).unwrap_err(), "HTTP 404 Not Found");
    assert_eq!(Body::begin(200, "200 OK", Some(11), 10).unwrap_err(), OVERSIZE);
    let mut body = Body::begin(299, "299", Some(10), 10).unwrap();
    assert!(body.take(b"hello ").is_ok());
    assert_eq!(body.take(b"world").unwrap_err(), OVERSIZE);
    assert!(body.take(b"ciao").is_ok());
    assert!(body.take(b"").is_ok());
    assert_eq!(body.take(b"!").unwrap_err(), "body over the size limit");
    assert_eq!(body.finish(), b"hello ciao");
}
