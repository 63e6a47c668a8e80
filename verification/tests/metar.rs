use omastorm::envelope::nexrad_network;
use omastorm::ieee::Double;
use omastorm::metar::{
    category, category_named, ceiling_ft, format_obs, from_vis_ceiling, keep_newest, lowest_ceiling,
    parse_body, parse_vis_sm, pin_ids, report_from, visibility_pieces, AwcCloud, AwcMetar, BBox,
    Layer, Pick, Query, Sides, Visibility, VisibilityText, ALWAYS_ON_ERROR, BOX_ERROR, CORNERS_ERROR, LIMIT, LIMIT_ERROR, PICK_ERROR, PLACE_ERROR,
    PRIORITY_ERROR,
};
use omastorm::protocol::MetarReport;
use omastorm::select::{
    awc_na_station, collect_priorities, in_bbox, parse_priority, parse_stations, select, AwcStation,
    PriorityValue, Ranged, Ranking,
};
use omastorm::table::Table;

const KTLX: (f64, f64) = (35.33306, -97.27748);

const FIXTURE: &str = r#"[
  {"icaoId":"KTIK","rawOb":"KTIK 171156Z 18012KT 2SM BR OVC008","lat":35.4147,"lon":-97.3867,"obsTime":1789646160,"fltCat":"IFR"},
  {"icaoId":"KOKC","rawOb":"KOKC 171152Z 18010KT 10SM FEW250","lat":35.3889,"lon":-97.6006,"obsTime":1789645920,"fltCat":"VFR"},
  {"icaoId":"KPWA","rawOb":"KPWA 171153Z 18009KT 4SM BR BKN020","lat":35.534,"lon":-97.647,"obsTime":1789645980,"fltCat":"MVFR"},
  {"icaoId":"KADM","rawOb":"KADM 171153Z 00000KT 1/4SM FG VV002","lat":34.303,"lon":-97.019,"obsTime":1789645980,"fltCat":"LIFR"},
  {"icaoId":"KSRE","rawOb":"KSRE 171155Z 18006KT 10SM SCT035","lat":35.274,"lon":-96.675,"obsTime":1789646100,"visib":"10+","clouds":[{"cover":"SCT","base":3500}]},
  {"icaoId":"KOUN","rawOb":"KOUN 171155Z 18008KT 10SM CLR","lat":35.2456,"lon":-97.4722,"obsTime":1789646100,"fltCat":"VFR"},
  {"icaoId":"KTUL","rawOb":"KTUL 171153Z 17007KT 10SM CLR","lat":36.198,"lon":-95.888,"obsTime":1789645980,"fltCat":"VFR"},
  {"icaoId":"KLAW","rawOb":"KLAW 171153Z 17007KT 10SM CLR","lat":34.568,"lon":-98.417,"obsTime":1789645980,"fltCat":"VFR"},
  {"icaoId":"KSWO","rawOb":"KSWO 171153Z 17007KT 10SM CLR","lat":36.161,"lon":-97.086,"obsTime":1789645980,"fltCat":"VFR"},
  {"icaoId":"KPNC","rawOb":"KPNC 171153Z 17007KT 10SM CLR","lat":36.731,"lon":-97.1,"obsTime":1789645980,"fltCat":"VFR"},
  {"icaoId":"KEND","rawOb":"KEND 171153Z 17007KT 10SM CLR","lat":36.34,"lon":-97.917,"obsTime":1789645980,"fltCat":"VFR"},
  {"icaoId":"KCHK","rawOb":"KCHK 171153Z 17007KT 10SM CLR","lat":35.097,"lon":-97.968,"obsTime":1789645980,"fltCat":"VFR"},
  {"icaoId":"KHBR","rawOb":"KHBR 171153Z 17007KT 10SM CLR","lat":34.991,"lon":-99.051,"obsTime":1789645980,"fltCat":"VFR"},
  {"icaoId":"KCSM","rawOb":"KCSM 171153Z 17007KT 10SM CLR","lat":35.34,"lon":-99.2,"obsTime":1789645980,"fltCat":"VFR"},
  {"icaoId":"KGOK","rawOb":"KGOK 171153Z 17007KT 10SM CLR","lat":35.85,"lon":-97.416,"obsTime":1789645980,"fltCat":"VFR"},
  {"icaoId":"KADH","rawOb":"KADH 171153Z 17007KT 10SM CLR","lat":34.804,"lon":-96.671,"obsTime":1789645980,"fltCat":"VFR"},
  {"icaoId":"KSNL","rawOb":"KSNL 171153Z 17007KT 10SM CLR","lat":35.358,"lon":-96.943,"obsTime":1789645980,"fltCat":"VFR"},
  {"icaoId":"KCQB","rawOb":"KCQB 171153Z 17007KT 10SM CLR","lat":35.724,"lon":-96.82,"obsTime":1789645980,"fltCat":"VFR"},
  {"icaoId":"KPVJ","rawOb":"KPVJ 171153Z 17007KT 10SM CLR","lat":34.715,"lon":-97.223,"obsTime":1789645980,"fltCat":"VFR"}
]"#;

const STATIONS: &str = r#"[
  {"icaoId":"KOKC","priority":1},
  {"icaoId":"KTUL","priority":"2"},
  {"icaoId":"KPWA","priority":4},
  {"icaoId":"KTIK","priority":5},
  {"icaoId":"KLAW","priority":3},
  {"icaoId":"KOUN","priority":6},
  {"icaoId":"KSWO","priority":null}
]"#;

fn d(x: f64) -> Double {
    Double { bits: x.to_bits() }
}

fn texts(list: &[&str]) -> Vec<String> {
    list.iter().map(|s| s.to_string()).collect()
}

fn text_of(v: &serde_json::Value, name: &str) -> String {
    v.get(name).and_then(|x| x.as_str()).unwrap_or("").to_string()
}

fn number_of(v: &serde_json::Value, name: &str) -> Option<Double> {
    v.get(name).and_then(|x| x.as_f64()).map(d)
}

fn visibility(text: &str) -> Visibility {
    let pieces = visibility_pieces(text);
    let read = |s: &String| s.parse::<f64>().ok();
    Visibility::Text(VisibilityText {
        whole: read(&pieces.whole).map(d),
        sides: pieces.sides.map(|(a, b)| Sides {
            numerator: read(&a).map(d),
            denominator: read(&b).map(d),
            quotient: d(read(&a).unwrap_or(0.0) / read(&b).unwrap_or(1.0)),
        }),
    })
}

fn rows(json: &str) -> Vec<AwcMetar> {
    let list: Vec<serde_json::Value> = serde_json::from_str(json).unwrap();
    list.iter()
        .map(|v| AwcMetar {
            icao_id: text_of(v, "icaoId"),
            raw_ob: text_of(v, "rawOb"),
            flt_cat: text_of(v, "fltCat"),
            lat: number_of(v, "lat").unwrap(),
            lon: number_of(v, "lon").unwrap(),
            obs_time: number_of(v, "obsTime"),
            visib: match v.get("visib") {
                Some(serde_json::Value::Number(n)) => Visibility::Number(n.as_f64().map(d)),
                Some(serde_json::Value::String(s)) => visibility(s),
                _ => Visibility::Other,
            },
            clouds: v
                .get("clouds")
                .and_then(|c| c.as_array())
                .map(|list| {
                    list.iter()
                        .map(|c| AwcCloud { cover: text_of(c, "cover"), base: number_of(c, "base") })
                        .collect()
                })
                .unwrap_or_default(),
            vert_vis: number_of(v, "vertVis"),
        })
        .collect()
}

fn station_rows(json: &str) -> Vec<AwcStation> {
    let list: Vec<serde_json::Value> = serde_json::from_str(json).unwrap();
    list.iter()
        .map(|v| AwcStation {
            icao_id: text_of(v, "icaoId"),
            priority: match v.get("priority") {
                Some(serde_json::Value::Number(n)) => PriorityValue::Number(n.as_u64()),
                Some(serde_json::Value::String(s)) => PriorityValue::Text(s.clone()),
                _ => PriorityValue::Other,
            },
        })
        .collect()
}

fn great_circle_km(lat1: f64, lon1: f64, lat2: f64, lon2: f64) -> f64 {
    let (p1, p2) = (lat1.to_radians(), lat2.to_radians());
    let (dp, dl) = ((lat2 - lat1).to_radians(), (lon2 - lon1).to_radians());
    let h = (dp / 2.0).sin().powi(2) + p1.cos() * p2.cos() * (dl / 2.0).sin().powi(2);
    2.0 * 6371.0 * h.clamp(0.0, 1.0).sqrt().asin()
}

fn ranged(reports: Vec<MetarReport>, lat: f64, lon: f64) -> Vec<Ranged> {
    reports
        .into_iter()
        .map(|report| {
            let km = great_circle_km(
                lat,
                lon,
                f64::from_bits(report.lat.bits),
                f64::from_bits(report.lon.bits),
            );
            Ranged { report, km: d(km) }
        })
        .collect()
}

fn chosen(
    reports: Vec<MetarReport>,
    q: &Query,
    priorities: &Table<String, u8>,
) -> Vec<MetarReport> {
    let (lat, lon) = (f64::from_bits(q.lat.bits), f64::from_bits(q.lon.bits));
    select(&ranged(reports, lat, lon), q, priorities)
}

fn nearest_query(limit: usize) -> Query {
    Query {
        lat: d(KTLX.0),
        lon: d(KTLX.1),
        bbox: None,
        pick: Pick::Nearest,
        limit,
        always_on: vec![],
    }
}

fn bbox(south: f64, west: f64, north: f64, east: f64) -> BBox {
    BBox { south: d(south), west: d(west), north: d(north), east: d(east) }
}

fn none() -> Table<String, u8> {
    Table::new()
}

fn priorities() -> Table<String, u8> {
    parse_stations(&station_rows(STATIONS))
}

fn report(id: &str, lat: f64, lon: f64) -> MetarReport {
    MetarReport {
        id: id.into(),
        lat: d(lat),
        lon: d(lon),
        category: "vfr".into(),
        raw: format!("{id} TEST"),
        obs_time: String::new(),
    }
}

#[test]
fn fixture_ranks_sixteen_nearest_to_ktlx() {
    let reports = chosen(parse_body(&rows(FIXTURE)), &nearest_query(LIMIT), &none());
    assert_eq!(reports.len(), LIMIT);
    assert_eq!(reports[0].id, "KTIK");
    assert!(reports.iter().any(|r| r.id == "KOKC"));
    assert!(reports.iter().all(|r| !r.raw.is_empty()));
    let far = great_circle_km(
        KTLX.0,
        KTLX.1,
        f64::from_bits(reports.last().unwrap().lat.bits),
        f64::from_bits(reports.last().unwrap().lon.bits),
    );
    let near = great_circle_km(
        KTLX.0,
        KTLX.1,
        f64::from_bits(reports[0].lat.bits),
        f64::from_bits(reports[0].lon.bits),
    );
    assert!(near <= far);
}

#[test]
fn count_shrinks_the_pool() {
    let reports = chosen(parse_body(&rows(FIXTURE)), &nearest_query(4), &none());
    assert_eq!(reports.len(), 4);
    assert_eq!(reports[0].id, "KTIK");
}

#[test]
fn priority_prefers_hubs_over_near_fields() {
    let q = Query {
        lat: d(KTLX.0),
        lon: d(KTLX.1),
        bbox: Some(bbox(34.0, -99.0, 37.0, -95.0)),
        pick: Pick::Priority,
        limit: 16,
        always_on: vec![],
    };
    let reports = chosen(parse_body(&rows(FIXTURE)), &q, &priorities());
    assert_eq!(reports[0].id, "KOKC");
    let tik = reports.iter().position(|r| r.id == "KTIK").unwrap();
    let okc = reports.iter().position(|r| r.id == "KOKC").unwrap();
    assert!(okc < tik);
}

#[test]
fn always_on_pins_a_home_field_in_view() {
    let q = Query {
        lat: d(KTLX.0),
        lon: d(KTLX.1),
        bbox: Some(bbox(34.0, -99.0, 37.0, -95.0)),
        pick: Pick::Priority,
        limit: 4,
        always_on: vec!["KOUN".into()],
    };
    let reports = chosen(parse_body(&rows(FIXTURE)), &q, &priorities());
    assert_eq!(reports.len(), 4);
    assert_eq!(reports[0].id, "KOUN");
    assert_eq!(reports[1].id, "KOKC");
}

#[test]
fn kbna_in_view_drops_km19_when_priority_fills() {
    let knqa = (35.3566, -89.8704);
    let mut reports = vec![
        report("KBNA", 36.1245, -86.6782),
        report("KM19", 35.6377, -91.1764),
        report("KMEM", 35.0424, -89.9767),
    ];
    let mut pri: Table<String, u8> = Table::new();
    pri.insert("KBNA".into(), 1u8);
    pri.insert("KMEM".into(), 2);
    pri.insert("KM19".into(), 5);
    for i in 0..14 {
        let id = format!("K{i:02}X");
        reports.push(report(&id, 35.4, -89.9 - i as f64 * 0.05));
        pri.insert(id, 4);
    }
    let q = Query {
        lat: d(knqa.0),
        lon: d(knqa.1),
        bbox: Some(bbox(34.5, -92.5, 36.5, -86.4)),
        pick: Pick::Priority,
        limit: 16,
        always_on: vec![],
    };
    let chosen = chosen(reports, &q, &pri);
    assert_eq!(chosen.len(), 16);
    assert!(chosen.iter().any(|r| r.id == "KBNA"));
    assert!(chosen.iter().any(|r| r.id == "KMEM"));
    assert!(chosen.iter().all(|r| r.id != "KM19"));
}

#[test]
fn bbox_drops_stations_off_screen() {
    let q = Query {
        lat: d(KTLX.0),
        lon: d(KTLX.1),
        bbox: Some(bbox(35.3, -97.5, 35.5, -97.2)),
        pick: Pick::Nearest,
        limit: 16,
        always_on: vec![],
    };
    let reports = chosen(parse_body(&rows(FIXTURE)), &q, &none());
    assert!(reports.iter().any(|r| r.id == "KTIK"));
    assert!(reports.iter().all(|r| r.id != "KTUL"));
}

#[test]
fn parse_query_rejects_bad_pick_and_limit() {
    let (lat, lon) = (d(KTLX.0), d(KTLX.1));
    assert!(
        Query::parse(lat, lon, None, None, None, None, Some("hubs".into()), None, vec![]).is_err()
    );
    assert!(Query::parse(lat, lon, None, None, None, None, None, Some(32), vec![]).is_err());
    assert!(
        Query::parse(lat, lon, None, None, None, None, Some("priority".into()), None, vec![])
            .is_err()
    );
}

#[test]
fn categories_follow_awc_then_faa_vis_ceiling() {
    let reports = parse_body(&rows(FIXTURE));
    let cat = |id: &str| reports.iter().find(|r| r.id == id).unwrap().category.as_str();
    assert_eq!(cat("KOKC"), "vfr");
    assert_eq!(cat("KPWA"), "mvfr");
    assert_eq!(cat("KTIK"), "ifr");
    assert_eq!(cat("KADM"), "lifr");
    assert_eq!(cat("KSRE"), "vfr"); // no fltCat; SCT 3500 / 10 SM
}

#[test]
fn vis_fractions_and_plus_parse() {
    assert_eq!(parse_vis_sm(&visibility("10+")), Some(d(10.0)));
    assert_eq!(parse_vis_sm(&visibility("1/2")), Some(d(0.5)));
    assert_eq!(parse_vis_sm(&Visibility::Number(Some(d(4.0)))), Some(d(4.0)));
}

#[test]
fn faa_breakpoints() {
    let cat = |vis: f64, ceiling: f64| from_vis_ceiling(Some(d(vis)), Some(d(ceiling)));
    assert_eq!(cat(0.5, 8000.0), "lifr");
    assert_eq!(cat(10.0, 400.0), "lifr");
    assert_eq!(cat(2.0, 8000.0), "ifr");
    assert_eq!(cat(10.0, 800.0), "ifr");
    assert_eq!(cat(4.0, 8000.0), "mvfr");
    assert_eq!(cat(10.0, 2000.0), "mvfr");
    assert_eq!(cat(10.0, 3500.0), "vfr");
}

#[test]
fn coverage_is_nexrad_envelope_not_opera() {
    assert!(nexrad_network(d(KTLX.1), d(KTLX.0)));
    assert!(nexrad_network(d(-79.629), d(43.679))); // CYYZ
    assert!(!nexrad_network(d(-0.1), d(51.5))); // London OPERA
}

#[test]
fn select_keeps_us_and_canada_drops_europe() {
    let q = nearest_query(16);
    let reports = vec![
        report("KTIK", 35.4147, -97.3867),
        report("CYYZ", 43.679, -79.629),
        report("EGLL", 51.477, -0.461),
        report("LFPG", 49.015, 2.534),
        report("MMMX", 19.436, -99.072),
    ];
    let chosen = chosen(reports, &q, &none());
    let ids: Vec<_> = chosen.iter().map(|r| r.id.as_str()).collect();
    assert!(ids.contains(&"KTIK"));
    assert!(ids.contains(&"CYYZ"));
    assert!(!ids.contains(&"EGLL"));
    assert!(!ids.contains(&"LFPG"));
    assert!(!ids.contains(&"MMMX"));
}

#[test]
fn duplicate_ids_keep_the_newer_observation() {
    let json = r#"[
        {"icaoId":"KOKC","rawOb":"KOKC OLD","lat":35.4,"lon":-97.6,"obsTime":100,"fltCat":"VFR"},
        {"icaoId":"KOKC","rawOb":"KOKC NEW","lat":35.4,"lon":-97.6,"obsTime":200,"fltCat":"IFR"}
    ]"#;
    let reports = parse_body(&rows(json));
    assert_eq!(reports.len(), 1);
    assert_eq!(reports[0].raw, "KOKC NEW");
    assert_eq!(reports[0].category, "ifr");
}

#[test]
fn an_older_duplicate_does_not_replace() {
    let json = r#"[
        {"icaoId":" kokc ","rawOb":" KOKC NEW ","lat":35.4,"lon":-97.6,"obsTime":200.9},
        {"icaoId":"KOKC","rawOb":"KOKC OLD","lat":35.4,"lon":-97.6,"obsTime":100},
        {"icaoId":"KOKC","rawOb":"KOKC SAME","lat":35.4,"lon":-97.6,"obsTime":200},
        {"icaoId":"","rawOb":"NO ID","lat":35.4,"lon":-97.6,"obsTime":300},
        {"icaoId":"KTIK","rawOb":"  ","lat":35.4,"lon":-97.6,"obsTime":300},
        {"icaoId":"KPWA","rawOb":"FAR","lat":90.5,"lon":-97.6,"obsTime":300}
    ]"#;
    let reports = parse_body(&rows(json));
    assert_eq!(reports.len(), 1);
    assert_eq!(reports[0].id, "KOKC");
    assert_eq!(reports[0].raw, "KOKC NEW");
    assert_eq!(reports[0].obs_time, "1970-01-01T00:03:20Z");
}

#[test]
fn observation_times_read_as_utc() {
    assert_eq!(format_obs(0), "1970-01-01T00:00:00Z");
    assert_eq!(format_obs(1789646160), "2026-09-17T11:56:00Z");
    assert_eq!(format_obs(i64::MAX), "1970-01-01T00:00:00Z");
    assert_eq!(format_obs(-62167219200), "0000-01-01T00:00:00Z");
    assert!(format_obs(99) < format_obs(100));
}

#[test]
fn parse_tells_each_error_apart() {
    let (lat, lon) = (d(KTLX.0), d(KTLX.1));
    let error = |r: Result<Query, String>| r.unwrap_err();
    assert_eq!(
        error(Query::parse(d(90.1), lon, None, None, None, None, None, None, vec![])),
        PLACE_ERROR
    );
    assert_eq!(
        error(Query::parse(d(f64::NAN), lon, None, None, None, None, None, None, vec![])),
        PLACE_ERROR
    );
    assert_eq!(
        error(Query::parse(lat, lon, None, None, None, None, Some("x".into()), None, vec![])),
        PICK_ERROR
    );
    assert_eq!(
        error(Query::parse(lat, lon, None, None, None, None, None, Some(0), vec![])),
        LIMIT_ERROR
    );
    assert_eq!(
        error(Query::parse(lat, lon, Some(d(1.0)), None, None, None, None, None, vec![])),
        CORNERS_ERROR
    );
    let boxed = |south: f64, west: f64, north: f64, east: f64| {
        Query::parse(
            lat,
            lon,
            Some(d(south)),
            Some(d(west)),
            Some(d(north)),
            Some(d(east)),
            None,
            None,
            vec![],
        )
    };
    assert_eq!(error(boxed(2.0, 0.0, 1.0, 1.0)), BOX_ERROR);
    assert_eq!(error(boxed(0.0, 2.0, 1.0, 1.0)), BOX_ERROR);
    assert_eq!(error(boxed(-91.0, 0.0, 1.0, 1.0)), BOX_ERROR);
    assert!(boxed(1.0, 1.0, 1.0, 1.0).is_ok());
    assert_eq!(
        error(Query::parse(lat, lon, None, None, None, None, Some("priority".into()), None, vec![])),
        PRIORITY_ERROR
    );
    assert_eq!(
        error(Query::parse(lat, lon, None, None, None, None, None, None, texts(&["K!"]))),
        ALWAYS_ON_ERROR
    );
}

#[test]
fn parse_fills_in_what_is_left_out() {
    let (lat, lon) = (d(KTLX.0), d(KTLX.1));
    let q = Query::parse(
        lat,
        lon,
        None,
        None,
        None,
        None,
        Some("  ".into()),
        None,
        texts(&[" koun ", "", "KOKC", "KOUN"]),
    )
    .unwrap();
    assert_eq!(q.pick, Pick::Nearest);
    assert_eq!(q.limit, LIMIT);
    assert!(q.bbox.is_none());
    assert_eq!(q.always_on, texts(&["KOUN", "KOKC"]));
    let q = Query::parse(
        lat,
        lon,
        None,
        None,
        None,
        None,
        None,
        Some(1),
        texts(&["KOUN", "KOKC", "!"]),
    )
    .unwrap();
    assert_eq!(q.always_on, texts(&["KOUN"]));
}

#[test]
fn pins_stop_at_the_limit_before_a_bad_id() {
    assert_eq!(pin_ids(&texts(&["KOUN", "KOKC", "!"]), 1), Some(texts(&["KOUN"])));
    assert_eq!(pin_ids(&texts(&["KOUN", "!"]), 1), None);
    assert_eq!(pin_ids(&texts(&["KO"]), 4), None);
    assert_eq!(pin_ids(&texts(&["KOUNX"]), 4), None);
}

#[test]
fn ceilings_take_the_lowest_covering_layer() {
    let mut row = rows(FIXTURE).remove(0);
    let cloud = |cover: &str, base: f64| AwcCloud { cover: cover.into(), base: Some(d(base)) };
    row.clouds = vec![cloud("few", 100.0), cloud("ovc", 900.0), cloud("BKN", 700.0)];
    assert_eq!(ceiling_ft(&row), Some(d(700.0)));
    row.vert_vis = Some(d(200.0));
    assert_eq!(ceiling_ft(&row), Some(d(200.0)));
    row.vert_vis = Some(d(0.0));
    assert_eq!(ceiling_ft(&row), Some(d(700.0)));
    row.clouds.clear();
    assert_eq!(ceiling_ft(&row), None);
    row.flt_cat = " LIFR ".into();
    assert_eq!(category(&row), "lifr");
    row.flt_cat = "?".into();
    row.visib = Visibility::Other;
    assert_eq!(category(&row), "vfr");
    row.visib = visibility("2");
    assert_eq!(category(&row), "ifr");
}

#[test]
fn visibilities_that_do_not_parse_are_none() {
    assert_eq!(parse_vis_sm(&visibility("1/0")), None);
    assert_eq!(parse_vis_sm(&visibility("x/2")), None);
    assert_eq!(parse_vis_sm(&visibility("M")), None);
    assert_eq!(parse_vis_sm(&visibility(" 6+++ ")), Some(d(6.0)));
    assert_eq!(parse_vis_sm(&Visibility::Other), None);
    assert_eq!(parse_vis_sm(&Visibility::Number(None)), None);
    let pieces = visibility_pieces(" 1/2/3+ ");
    assert_eq!(pieces.whole, "1/2/3");
    assert_eq!(pieces.sides, Some(("1".into(), "2/3".into())));
}

#[test]
fn priorities_read_numbers_and_texts() {
    assert_eq!(parse_priority(&PriorityValue::Number(Some(255))), Some(255));
    assert_eq!(parse_priority(&PriorityValue::Number(Some(256))), None);
    assert_eq!(parse_priority(&PriorityValue::Number(None)), None);
    for (text, expected) in [
        (" 7 ", Some(7u8)),
        ("+7", Some(7)),
        ("007", Some(7)),
        ("255", Some(255)),
        ("256", None),
        ("99999999999", None),
        ("-1", None),
        ("+", None),
        ("", None),
        ("1x", None),
    ] {
        assert_eq!(parse_priority(&PriorityValue::Text(text.into())), expected);
        assert_eq!(text.trim().parse::<u8>().ok(), expected);
    }
    assert_eq!(parse_priority(&PriorityValue::Other), None);
    let table = priorities();
    assert_eq!(table.get(&"KOKC".to_string()), Some(&1));
    assert_eq!(table.get(&"KTUL".to_string()), Some(&2));
    assert_eq!(table.get(&"KSWO".to_string()), None);
    let copy = table.duplicate();
    assert_eq!(copy.get(&"KPWA".to_string()), Some(&4));
}

#[test]
fn stations_are_north_american_by_their_first_letters() {
    for id in ["KTIK", "CYYZ", "PANC", "TJSJ", "TIST", "K"] {
        assert!(awc_na_station(id));
    }
    for id in ["", "T", "TNCM", "EGLL", "MMMX", "kokc"] {
        assert!(!awc_na_station(id));
    }
}

#[test]
fn a_box_holds_its_edges() {
    let b = bbox(34.0, -99.0, 37.0, -95.0);
    assert!(in_bbox(d(34.0), d(-99.0), b));
    assert!(in_bbox(d(37.0), d(-95.0), b));
    assert!(!in_bbox(d(33.999), d(-97.0), b));
    assert!(!in_bbox(d(f64::NAN), d(-97.0), b));
}

#[test]
fn the_order_of_the_rows_does_not_matter() {
    let json = |order: [usize; 4]| {
        let rows = [
            r#"{"icaoId":"KAAA","rawOb":"OLD","lat":35.4,"lon":-97.6,"obsTime":100}"#,
            r#"{"icaoId":"kaaa","rawOb":"NEW","lat":35.4,"lon":-97.6,"obsTime":200}"#,
            r#"{"icaoId":"KBBB","rawOb":"ONE","lat":35.4,"lon":-97.6,"obsTime":150}"#,
            r#"{"icaoId":"KAAA","rawOb":"MID","lat":35.4,"lon":-97.6,"obsTime":150}"#,
        ];
        format!("[{},{},{},{}]", rows[order[0]], rows[order[1]], rows[order[2]], rows[order[3]])
    };
    for order in [[0, 1, 2, 3], [3, 2, 1, 0], [1, 3, 0, 2], [2, 0, 3, 1]] {
        let mut raws: Vec<String> =
            parse_body(&rows(&json(order))).into_iter().map(|r| r.raw).collect();
        raws.sort();
        assert_eq!(raws, ["NEW", "ONE"]);
    }
}

#[test]
fn the_order_of_the_reports_does_not_matter() {
    let forward = parse_body(&rows(FIXTURE));
    let mut backward = forward.clone();
    backward.reverse();
    let q = nearest_query(7);
    let ids = |list: Vec<MetarReport>| -> Vec<String> { list.into_iter().map(|r| r.id).collect() };
    assert_eq!(ids(chosen(forward, &q, &none())), ids(chosen(backward, &q, &none())));
}

#[test]
fn ties_go_by_id_and_a_limit_of_zero_still_gives_one() {
    let twins = vec![report("KBBB", 35.0, -97.0), report("KAAA", 35.0, -97.0)];
    let mut q = nearest_query(2);
    let both = chosen(twins.clone(), &q, &none());
    assert_eq!(both[0].id, "KAAA");
    q.limit = 0;
    assert_eq!(chosen(twins.clone(), &q, &none()).len(), 1);
    q.always_on = texts(&["KBBB", "KAAA"]);
    let pinned = chosen(twins, &q, &none());
    assert_eq!(pinned.len(), 1);
    assert_eq!(pinned[0].id, "KBBB");
}

#[test]
fn a_later_report_of_an_id_counts() {
    let mut later = report("KAAA", 35.0, -97.0);
    later.raw = "LATER".into();
    let reports = vec![report("KAAA", 35.0, -97.0), report("KBBB", 36.0, -97.0), later];
    let picked = chosen(reports, &nearest_query(16), &none());
    assert_eq!(picked.len(), 2);
    assert_eq!(picked.iter().find(|r| r.id == "KAAA").unwrap().raw, "LATER");
}

#[test]
fn the_newest_of_each_id_is_kept() {
    let at = |id: &str, raw: &str, obs: &str| MetarReport {
        raw: raw.into(),
        obs_time: obs.into(),
        ..report(id, 35.0, -97.0)
    };
    let kept = keep_newest(vec![
        at("KAAA", "first", "2026-09-17T11:00:00Z"),
        at("KBBB", "only", "2026-09-17T10:00:00Z"),
        at("KAAA", "later", "2026-09-17T12:00:00Z"),
        at("KAAA", "same", "2026-09-17T12:00:00Z"),
        at("KAAA", "older", "2026-09-17T09:00:00Z"),
    ]);
    let raws: Vec<_> = kept.iter().map(|r| r.raw.as_str()).collect();
    assert_eq!(raws, ["later", "only"]);
}

#[test]
fn a_report_needs_an_id_an_observation_and_a_place() {
    let mut row = rows(FIXTURE).remove(0);
    let made = |row: &AwcMetar, id: &str| {
        report_from(row, id.into(), "vfr".into(), "now".into())
    };
    let report = made(&row, "KXXX").unwrap();
    assert_eq!((report.id.as_str(), report.category.as_str()), ("KXXX", "vfr"));
    assert_eq!(report.obs_time, "now");
    assert_eq!(report.raw, row.raw_ob);
    assert!(made(&row, "").is_none());
    row.lon = d(180.5);
    assert!(made(&row, "KXXX").is_none());
    row.lon = d(-180.0);
    assert!(made(&row, "KXXX").is_some());
    row.raw_ob = "\t".into();
    assert!(made(&row, "KXXX").is_none());
}

#[test]
fn layers_priorities_and_categories_go_by_their_names() {
    let layer = |name: &str, base: f64| Layer { name: name.into(), base: Some(d(base)) };
    let mut layers = vec![layer("SCT", 100.0), layer("OVX", 900.0), layer("VV", 300.0)];
    assert_eq!(lowest_ceiling(&layers), Some(d(300.0)));
    layers.push(Layer { name: "OVC".into(), base: None });
    layers.push(layer("bkn", 10.0));
    assert_eq!(lowest_ceiling(&layers), Some(d(300.0)));
    assert_eq!(lowest_ceiling(&vec![]), None);
    let ranking = |id: &str, priority: Option<u8>| Ranking { id: id.into(), priority };
    let table = collect_priorities(&vec![
        ranking("KAAA", Some(3)),
        ranking("", Some(1)),
        ranking("KBBB", None),
        ranking("KAAA", Some(2)),
    ]);
    assert_eq!(table.get(&"KAAA".to_string()), Some(&2));
    assert_eq!(table.get(&"".to_string()), None);
    assert_eq!(table.get(&"KBBB".to_string()), None);
    let row = rows(FIXTURE).remove(4);
    assert_eq!(category_named("lifr".into(), &row), "lifr");
    assert_eq!(category_named("LIFR".into(), &row), "vfr");
}

fn parsed(q: &Query) -> Result<Query, String> {
    let pick = match q.pick {
        Pick::Nearest => "nearest",
        Pick::Priority => "priority",
    };
    Query::parse(
        q.lat,
        q.lon,
        q.bbox.map(|b| b.south),
        q.bbox.map(|b| b.west),
        q.bbox.map(|b| b.north),
        q.bbox.map(|b| b.east),
        Some(pick.into()),
        Some(q.limit as u32),
        q.always_on.clone(),
    )
}

#[test]
fn parsing_a_parsed_query_gives_it_back() {
    let (lat, lon) = (d(KTLX.0), d(KTLX.1));
    let plain = Query::parse(
        lat,
        lon,
        None,
        None,
        None,
        None,
        None,
        None,
        texts(&[" koun ", "", "KOKC", "Koun", "m19"]),
    )
    .unwrap();
    assert_eq!(plain.always_on, texts(&["KOUN", "KOKC", "M19"]));
    assert_eq!(parsed(&plain), Ok(plain.clone()));
    let boxed = Query::parse(
        lat,
        lon,
        Some(d(34.0)),
        Some(d(-99.0)),
        Some(d(37.0)),
        Some(d(-95.0)),
        Some(" priority\t".into()),
        Some(2),
        texts(&["kokc", "ktik", "koun", "!"]),
    )
    .unwrap();
    assert_eq!(boxed.pick, Pick::Priority);
    assert_eq!(boxed.always_on, texts(&["KOKC", "KTIK"]));
    assert_eq!(parsed(&boxed), Ok(boxed.clone()));
}

#[test]
fn every_ascii_letter_of_an_id_becomes_a_capital() {
    for (text, id) in [
        ("abcd", "ABCD"),
        ("efgh", "EFGH"),
        ("ijkl", "IJKL"),
        ("mnop", "MNOP"),
        ("qrst", "QRST"),
        ("uvwx", "UVWX"),
        ("y0z9", "Y0Z9"),
        ("AZ18", "AZ18"),
        ("\u{df}1", "SS1"),
        ("\u{fb01}x", "FIX"),
    ] {
        let q = Query::parse(
            d(KTLX.0),
            d(KTLX.1),
            None,
            None,
            None,
            None,
            None,
            None,
            texts(&[text]),
        )
        .unwrap();
        assert_eq!(q.always_on, texts(&[id]));
        assert_eq!(parsed(&q), Ok(q.clone()));
    }
}

#[test]
fn a_clone_of_a_query_is_the_query() {
    let mut q = nearest_query(5);
    q.bbox = Some(bbox(34.0, -99.0, 37.0, -95.0));
    q.always_on = texts(&["KOUN", "KOKC"]);
    let copy = q.clone();
    assert_eq!(copy, q);
    q.always_on.clear();
    assert_eq!(copy.always_on, texts(&["KOUN", "KOKC"]));
}

#[test]
fn a_smaller_limit_cuts_the_reply_short() {
    let reports = parse_body(&rows(FIXTURE));
    let ids = |q: &Query| -> Vec<String> {
        chosen(reports.clone(), q, &priorities()).into_iter().map(|r| r.id).collect()
    };
    let mut q = nearest_query(16);
    q.bbox = Some(bbox(34.0, -99.0, 37.0, -95.0));
    q.always_on = texts(&["KOUN", "KXXX", "KOKC"]);
    for pick in [Pick::Nearest, Pick::Priority] {
        q.pick = pick;
        q.limit = 16;
        let all = ids(&q);
        assert_eq!(all[..2], texts(&["KOUN", "KOKC"])[..]);
        assert!(all.len() > 4);
        for limit in 1..=16 {
            q.limit = limit;
            assert_eq!(ids(&q)[..], all[..limit.min(all.len())]);
        }
    }
}
