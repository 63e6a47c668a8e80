use chrono::{Datelike, NaiveDate, NaiveDateTime};
use omastorm::calendar::{
    Stamp, FIRST_DAY, FIRST_SECOND, LAST_DAY, LAST_SECOND, YEAR_9999_END, YEAR_ZERO,
};
use omastorm::cog::decode_float_cog;
use omastorm::listing::{list_recent, prefix_for, Recent};
use omastorm::metar::format_obs;
use omastorm::opera::{decode_frame, synthetic_fixture_cog};

#[test]
fn the_ranges_are_those_of_the_calendar() {
    assert_eq!(NaiveDate::MIN.num_days_from_ce(), FIRST_DAY);
    assert_eq!(NaiveDate::MAX.num_days_from_ce(), LAST_DAY);
    assert_eq!(NaiveDateTime::MIN.and_utc().timestamp(), FIRST_SECOND);
    assert_eq!(NaiveDateTime::MAX.and_utc().timestamp(), LAST_SECOND);
}

#[test]
fn times_at_the_ends_of_the_range_have_texts() {
    let epoch = "1970-01-01T00:00:00Z";
    assert_eq!(format_obs(FIRST_SECOND), "-262143-01-01T00:00:00Z");
    assert_eq!(format_obs(LAST_SECOND), "+262142-12-31T23:59:59Z");
    assert_eq!(format_obs(FIRST_SECOND - 1), epoch);
    assert_eq!(format_obs(LAST_SECOND + 1), epoch);
    assert_eq!(format_obs(YEAR_ZERO), "0000-01-01T00:00:00Z");
    assert_eq!(format_obs(YEAR_9999_END), "9999-12-31T23:59:59Z");
    let mut earlier = format_obs(YEAR_ZERO);
    for k in 1..2000i64 {
        let later = format_obs(YEAR_ZERO + k * 157_000_003);
        assert!(earlier < later);
        earlier = later;
    }
}

#[test]
fn days_at_the_ends_of_the_range_have_prefixes() {
    assert_eq!(prefix_for(FIRST_DAY), "-262143/01/01/OPERA/COMP/");
    assert_eq!(prefix_for(LAST_DAY), "+262142/12/31/OPERA/COMP/");
    assert!(matches!(list_recent(LAST_DAY, Ok(vec![])), Recent::AskDay(d) if d == LAST_DAY - 1));
}

#[test]
fn frames_at_the_ends_of_the_range_have_stamps() {
    let bytes = synthetic_fixture_cog();
    assert!(decode_float_cog(&bytes).is_ok());
    for (secs, id) in
        [(FIRST_SECOND, "opera--2621430101T000000Z"), (LAST_SECOND, "opera-+2621421231T235959Z")]
    {
        let stamp = Stamp::at(secs).unwrap();
        let (frame, _, ms) = decode_frame(&bytes, stamp, &vec![], &vec![]).unwrap();
        assert_eq!(frame.id, id);
        assert_eq!(ms, secs * 1000);
    }
    assert!(Stamp::at(LAST_SECOND + 1).is_none());
    assert!(Stamp::at(FIRST_SECOND - 1).is_none());
}
