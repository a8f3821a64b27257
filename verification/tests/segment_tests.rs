use chrono::{Datelike, Timelike};
use solar_log::calendar::{day_of, is_datable, local_date, seconds_of, time_of_day};
use solar_log::merge::sort_records;
use solar_log::record::Record;
use solar_log::segment::segment;

fn at(timestamp_ms: i64) -> Record {
    Record { timestamp_ms, current_ua: 1_000_000, voltage_uv: 12_000_000 }
}

fn stamps(records: &[Record]) -> Vec<i64> {
    records.iter().map(|r| r.timestamp_ms).collect()
}

#[test]
fn two_days_give_two_segments() {
    // 2017-07-14 02:40, 03:40 and 2017-07-15 00:00, 01:00 UTC
    let recs = vec![
        at(1_500_000_000_000),
        at(1_500_003_600_000),
        at(1_500_076_800_000),
        at(1_500_080_400_000),
    ];
    let segments = segment(&recs, 0).unwrap();
    assert_eq!(segments.len(), 2);
    assert_eq!(segments[0].label, "2017-07-14");
    assert_eq!(segments[1].label, "2017-07-15");
    let first: Vec<i64> = segments[0].points.iter().map(|p| p.record.timestamp_ms).collect();
    let second: Vec<i64> = segments[1].points.iter().map(|p| p.record.timestamp_ms).collect();
    assert_eq!(first, vec![1_500_000_000_000, 1_500_003_600_000]);
    assert_eq!(second, vec![1_500_076_800_000, 1_500_080_400_000]);
    assert!(first.windows(2).all(|w| w[0] <= w[1]));
    assert!(second.windows(2).all(|w| w[0] <= w[1]));
    assert!(first.last().unwrap() <= second.first().unwrap());
    let times: Vec<(u32, u32)> = segments[0].points.iter().map(|p| (p.hour, p.minute)).collect();
    assert_eq!(times, vec![(2, 40), (3, 40)]);
    let times: Vec<(u32, u32)> = segments[1].points.iter().map(|p| (p.hour, p.minute)).collect();
    assert_eq!(times, vec![(0, 0), (1, 0)]);
    assert_eq!(segments[0].points[0].record.current_ua, 1_000_000);
}

#[test]
fn offset_moves_the_day_boundary() {
    // 2017-07-14 23:30 UTC is 2017-07-15 01:30 two hours east
    let recs = vec![at(1_500_000_000_000), at(1_500_075_000_000), at(1_500_076_800_000)];
    let utc = segment(&recs, 0).unwrap();
    assert_eq!(utc.len(), 2);
    assert_eq!(utc[0].points.len(), 2);
    let east = segment(&recs, 7200).unwrap();
    assert_eq!(east.len(), 2);
    assert_eq!(east[0].points.len(), 1);
    assert_eq!(east[0].label, "2017-07-14");
    assert_eq!(east[1].label, "2017-07-15");
    assert_eq!((east[1].points[0].hour, east[1].points[0].minute), (1, 30));
    let west = segment(&recs, -10_800).unwrap();
    assert_eq!(west.len(), 2);
    assert_eq!(west[0].label, "2017-07-13");
    assert_eq!((west[0].points[0].hour, west[0].points[0].minute), (23, 40));
    assert_eq!(west[1].points.len(), 2);
}

#[test]
fn empty_series_has_no_segments() {
    assert_eq!(segment(&Vec::new(), 0).unwrap().len(), 0);
}

#[test]
fn one_day_gives_one_segment() {
    let recs: Vec<Record> = (0..10).map(|i| at(1_500_000_000_000 + i * 60_000)).collect();
    let segments = segment(&recs, 3600).unwrap();
    assert_eq!(segments.len(), 1);
    assert_eq!(segments[0].points.len(), 10);
    assert_eq!((segments[0].points[9].hour, segments[0].points[9].minute), (3, 49));
}

#[test]
fn segments_follow_the_series_as_it_stands() {
    // a record of the first day after one of the second opens a third segment
    let recs = vec![at(1_500_000_000_000), at(1_500_076_800_000), at(1_500_003_600_000)];
    let segments = segment(&recs, 0).unwrap();
    assert_eq!(segments.len(), 3);
    assert_eq!(segments[2].label, "2017-07-14");
}

#[test]
fn same_day_of_another_month_is_another_day() {
    // 2017-07-14 and 2017-08-14
    let recs = vec![at(1_500_000_000_000), at(1_502_678_400_000)];
    let segments = segment(&recs, 0).unwrap();
    assert_eq!(segments.len(), 2);
    assert_eq!(segments[0].label, "2017-07-14");
    assert_eq!(segments[1].label, "2017-08-14");
}

#[test]
fn offsets_of_a_day_or_more_give_nothing() {
    let recs = vec![at(1_500_000_000_000)];
    assert!(segment(&recs, 86_400).is_none());
    assert!(segment(&recs, -86_400).is_none());
    assert!(segment(&recs, 86_399).is_some());
    assert!(segment(&recs, -86_399).is_some());
}

#[test]
fn instants_out_of_range_give_nothing() {
    assert!(segment(&vec![at(100_000_000_000_999)], 0).is_some());
    assert!(segment(&vec![at(100_000_000_001_000)], 0).is_none());
    assert!(segment(&vec![at(-100_000_000_000_999)], 0).is_some());
    assert!(segment(&vec![at(-100_000_000_001_000)], 0).is_none());
    assert!(segment(&vec![at(1_500_000_000_000), at(i64::MAX)], 0).is_none());
    assert!(segment(&vec![at(i64::MIN)], 0).is_none());
}

#[test]
fn seconds_are_cut_off_toward_zero() {
    assert_eq!(seconds_of(1_999), 1);
    assert_eq!(seconds_of(-1_999), -1);
    assert_eq!(seconds_of(-999), 0);
    assert_eq!(seconds_of(0), 0);
    assert_eq!(seconds_of(i64::MIN), i64::MIN / 1000);
    assert_eq!(seconds_of(i64::MAX), i64::MAX / 1000);
}

#[test]
fn civil_time_agrees_with_chrono() {
    let instants = [
        0i64,
        -1,
        1,
        86_399,
        86_400,
        -86_400,
        -86_401,
        951_782_400,
        1_500_000_000,
        1_582_934_400,
        4_102_444_799,
        100_000_000_000,
        -100_000_000_000,
        -62_135_596_800,
    ];
    let offsets = [0i32, 1, -1, 3600, -3600, 19_800, -34_200, 86_399, -86_399];
    for &seconds in instants.iter() {
        for &offset in offsets.iter() {
            assert!(is_datable(seconds, offset));
            let zone = chrono::FixedOffset::east_opt(offset).unwrap();
            let local = chrono::DateTime::from_timestamp(seconds, 0).unwrap().with_timezone(&zone);
            assert_eq!(day_of(seconds, offset), local.num_days_from_ce() as i64 - 719_163);
            assert_eq!(time_of_day(seconds, offset), (local.hour(), local.minute()));
            assert_eq!(
                local_date(seconds, offset).unwrap(),
                format!("{:04}-{:02}-{:02}", local.year(), local.month(), local.day())
            );
        }
    }
}

#[test]
fn dates_of_known_instants() {
    assert_eq!(local_date(0, 0).unwrap(), "1970-01-01");
    assert_eq!(day_of(0, 0), 0);
    assert_eq!(day_of(0, -1), -1);
    assert_eq!(local_date(0, -1).unwrap(), "1969-12-31");
    assert_eq!(local_date(1_582_934_400, 0).unwrap(), "2020-02-29");
    assert_eq!(day_of(1_582_934_400, 86_399), 18_321);
    assert_eq!(local_date(1_582_934_400, 86_399).unwrap(), "2020-02-29");
    assert_eq!(day_of(1_582_934_401, 86_399), 18_322);
    assert_eq!(local_date(1_582_934_401, 86_399).unwrap(), "2020-03-01");
    assert_eq!(local_date(0, 86_400), None);
    assert_eq!(local_date(100_000_000_001, 0), None);
}

#[test]
fn sort_is_chronological_and_keeps_ties_in_order() {
    let mut recs = vec![
        Record { timestamp_ms: 3, current_ua: 1, voltage_uv: 0 },
        Record { timestamp_ms: 1, current_ua: 2, voltage_uv: 0 },
        Record { timestamp_ms: 3, current_ua: 3, voltage_uv: 0 },
        Record { timestamp_ms: 2, current_ua: 4, voltage_uv: 0 },
        Record { timestamp_ms: 1, current_ua: 5, voltage_uv: 0 },
    ];
    sort_records(&mut recs);
    assert_eq!(stamps(&recs), vec![1, 1, 2, 3, 3]);
    let currents: Vec<i64> = recs.iter().map(|r| r.current_ua).collect();
    assert_eq!(currents, vec![2, 5, 4, 1, 3]);
}

#[test]
fn sort_of_nothing_and_of_one() {
    let mut none: Vec<Record> = Vec::new();
    sort_records(&mut none);
    assert!(none.is_empty());
    let mut one = vec![at(5)];
    sort_records(&mut one);
    assert_eq!(stamps(&one), vec![5]);
}
