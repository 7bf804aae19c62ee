use schedule::CarryingUpIterator;
use schedule::LocalKind;
use schedule::MergedIterator;
use schedule::PollStep;
use schedule::Schedule;
use schedule::Stamp;
use schedule::UnitSchedule;
use schedule::parse_range;
use schedule::pick_instant;
use schedule::weekday_of;

fn ymdhm(y: i32, mon: u32, d: u32, h: u32, min: u32) -> Stamp {
    Stamp::from_ymdhm(y, mon, d, h, min).unwrap()
}

#[test]
fn iter() {
    let us = UnitSchedule::new(vec![1, 0], vec![8, 12], vec![20, 40]).unwrap();

    let mut iter = us.iter_since(&ymdhm(2017, 2, 13, 8, 20)); // wday == 1
    assert_eq!(Some(ymdhm(2017, 2, 13, 8, 40)), iter.next());
    assert_eq!(Some(ymdhm(2017, 2, 13, 12, 20)), iter.next());
    assert_eq!(Some(ymdhm(2017, 2, 13, 12, 40)), iter.next());
    assert_eq!(Some(ymdhm(2017, 2, 19, 8, 20)), iter.next());
    assert_eq!(Some(ymdhm(2017, 2, 19, 8, 40)), iter.next());
    assert_eq!(Some(ymdhm(2017, 2, 19, 12, 20)), iter.next());
    assert_eq!(Some(ymdhm(2017, 2, 19, 12, 40)), iter.next());
    assert_eq!(Some(ymdhm(2017, 2, 20, 8, 20)), iter.next());

    let mut iter = us.iter_since(&ymdhm(2017, 2, 16, 13, 50)); // wday == 4
    assert_eq!(Some(ymdhm(2017, 2, 19, 8, 20)), iter.next());
    assert_eq!(Some(ymdhm(2017, 2, 19, 8, 40)), iter.next());

    let mut iter = us.iter_since(&ymdhm(2017, 2, 28, 12, 0)); // wday == 2
    assert_eq!(Some(ymdhm(2017, 3, 5, 8, 20)), iter.next());
    assert_eq!(Some(ymdhm(2017, 3, 5, 8, 40)), iter.next());
}

#[test]
fn new() {
    let a = UnitSchedule::new(vec![1, 4, 0, 6], vec![8, 11, 23, 0], vec![0, 59]).unwrap();
    let b = UnitSchedule::new(vec![0, 1, 4, 6], vec![0, 8, 11, 23], vec![0, 59]).unwrap();
    assert_eq!(a.wdays, b.wdays);
    assert_eq!(a.hours, b.hours);
    assert_eq!(a.mins, b.mins);

    let c = UnitSchedule::new(vec![], vec![0], vec![0]).unwrap();
    let d = UnitSchedule::new(vec![0, 1, 2, 3, 4, 5, 6], vec![0], vec![0]).unwrap();
    assert_eq!(c.wdays, d.wdays);
    assert_eq!(c.hours, d.hours);
    assert_eq!(c.mins, d.mins);

    assert!(UnitSchedule::new(vec![7], vec![0], vec![0]).is_none());
    assert!(UnitSchedule::new(vec![0], vec![24], vec![0]).is_none());
    assert!(UnitSchedule::new(vec![0], vec![0], vec![60]).is_none());
}

#[test]
fn range() {
    assert_eq!(Ok((1, 7)), parse_range("1-6"));
    assert_eq!(Ok((0, 12)), parse_range("0-11"));

    assert!(parse_range("").is_err());
    assert!(parse_range("0").is_err());
    assert!(parse_range("1-").is_err());
    assert!(parse_range("2- 3").is_err());
    assert!(parse_range("3-4-4").is_err());
}

#[test]
fn range_accepts_leading_plus_and_zeros() {
    assert_eq!(Ok((2, 4)), parse_range("2-+3"));
    assert_eq!(Ok((7, 10)), parse_range("007-9"));
    assert!(parse_range("-5").is_err());
    assert!(parse_range("4294967295-4294967295").is_err());
    assert_eq!(Ok((0, 4294967295)), parse_range("0-4294967294"));
}

#[test]
fn normalization_fills_dedups_and_sorts() {
    let a = UnitSchedule::new(vec![5, 5, 2, 2], vec![23, 0, 23], vec![59]).unwrap();
    assert_eq!(a.wdays, vec![2, 5]);
    assert_eq!(a.hours, vec![0, 23]);
    assert_eq!(a.mins, vec![59]);

    let b = UnitSchedule::new(vec![3, 1], vec![], vec![]).unwrap();
    assert_eq!(b.hours, (0..24).collect::<Vec<u32>>());
    assert_eq!(b.mins, (0..60).collect::<Vec<u32>>());
}

#[test]
fn calendar_conversion() {
    // day 0 is 1970-01-01, a Thursday
    let epoch = ymdhm(1970, 1, 1, 0, 0);
    assert_eq!(epoch.day, 0);
    assert_eq!(weekday_of(epoch.day), 4);
    // 2017-02-13 was a Monday
    assert_eq!(weekday_of(ymdhm(2017, 2, 13, 0, 0).day), 1);
    // 2017-02-19 was a Sunday
    assert_eq!(weekday_of(ymdhm(2017, 2, 19, 0, 0).day), 0);
    // leap-year rules
    assert!(Stamp::from_ymdhm(2016, 2, 29, 0, 0).is_some());
    assert!(Stamp::from_ymdhm(2017, 2, 29, 0, 0).is_none());
    assert!(Stamp::from_ymdhm(2000, 2, 29, 0, 0).is_some());
    assert!(Stamp::from_ymdhm(1900, 1, 1, 0, 0).is_none());
    assert!(Stamp::from_ymdhm(2017, 4, 31, 0, 0).is_none());
    assert!(Stamp::from_ymdhm(2017, 1, 1, 24, 0).is_none());
    assert!(Stamp::from_ymdhm(2017, 1, 1, 0, 60).is_none());
}

#[test]
fn counter_enumerates_and_wraps() {
    let mut c = CarryingUpIterator::new(vec![1, 3], vec![5], vec![10, 20]).unwrap();
    assert_eq!(c.next(), (1, 5, 10));
    assert_eq!(c.next(), (1, 5, 20));
    assert_eq!(c.next(), (3, 5, 10));
    assert_eq!(c.next(), (3, 5, 20));
    assert_eq!(c.next(), (1, 5, 10)); // wrapped to the minimal triple
    assert!(CarryingUpIterator::new(vec![], vec![5], vec![10]).is_none());
}

#[test]
fn merged_matches_independent_generation() {
    let a = UnitSchedule::new(vec![1, 0], vec![8, 12], vec![20, 40]).unwrap();
    let b = UnitSchedule::new(vec![1, 4], vec![9], vec![0]).unwrap();
    let since = ymdhm(2017, 2, 13, 8, 0);

    // independent generation
    let mut ia = a.iter_since(&since);
    let mut ib = b.iter_since(&since);
    let mut sa: Vec<Stamp> = Vec::new();
    let mut sb: Vec<Stamp> = Vec::new();
    for _ in 0..10 {
        sa.push(ia.next().unwrap());
        sb.push(ib.next().unwrap());
    }
    // stable two-way merge by timestamp (earlier source wins ties)
    let mut expect: Vec<Stamp> = Vec::new();
    let (mut ka, mut kb) = (0usize, 0usize);
    for _ in 0..10 {
        if sa[ka].key_val() <= sb[kb].key_val() {
            expect.push(sa[ka]);
            ka += 1;
        } else {
            expect.push(sb[kb]);
            kb += 1;
        }
    }

    let ia2 = a.iter_since(&since);
    let ib2 = b.iter_since(&since);
    let mut m = MergedIterator::new(vec![ia2, ib2]).unwrap();
    for k in 0..10 {
        assert_eq!(Some(expect[k]), m.next());
    }
}

#[test]
fn merged_output_never_decreases() {
    let a = UnitSchedule::new(vec![2, 5], vec![1, 22], vec![0, 30]).unwrap();
    let b = UnitSchedule::new(vec![0, 2], vec![6], vec![15]).unwrap();
    let since = ymdhm(2017, 6, 1, 0, 0);
    let mut m =
        MergedIterator::new(vec![a.iter_since(&since), b.iter_since(&since)]).unwrap();
    let mut last = since.key_val();
    for _ in 0..50 {
        let s = m.next().unwrap();
        assert!(s.key_val() > last || s.key_val() == last);
        assert!(s.key_val() > since.key_val());
        last = s.key_val();
    }
}

#[test]
fn resolution_policy() {
    assert_eq!(pick_instant(&LocalKind::Unique(100)), Some(100));
    assert_eq!(pick_instant(&LocalKind::Ambiguous(100, 200)), Some(200));
    assert_eq!(pick_instant(&LocalKind::Gap), None);
}

#[test]
fn poll_fires_once_per_occurrence() {
    let us = UnitSchedule::new(vec![1, 0], vec![8, 12], vec![20, 40]).unwrap();
    let now_local = ymdhm(2017, 2, 13, 8, 0);
    let offset = 3600; // a fixed offset one hour east
    let now_utc = now_local.to_secs() - offset as i64;
    let mut sch = Schedule::new(&vec![us], offset, &now_local).unwrap();

    // first occurrence is 08:20 local, 1200 s away
    match sch.poll(now_utc, false) {
        PollStep::Pending { arm_for } => assert_eq!(arm_for, Some(1200)),
        other => panic!("expected a pending poll, got {:?}", other),
    }
    // a timer is already armed: do not arm another
    match sch.poll(now_utc + 600, true) {
        PollStep::Pending { arm_for } => assert_eq!(arm_for, None),
        other => panic!("expected a pending poll, got {:?}", other),
    }
    // polled late: 08:20 elapsed, one signal, re-armed for 08:40
    let late = now_utc + 1201;
    match sch.poll(late, false) {
        PollStep::Fired { arm_for } => assert_eq!(arm_for, 2400 - 1201),
        other => panic!("expected a fired poll, got {:?}", other),
    }
    // the same occurrence never fires twice: the next fire is 08:40
    match sch.poll(late, false) {
        PollStep::Pending { arm_for } => assert_eq!(arm_for, Some(2400 - 1201)),
        other => panic!("expected a pending poll, got {:?}", other),
    }
}

#[test]
fn schedule_new_rejects_empty() {
    let now = ymdhm(2017, 2, 13, 8, 0);
    let empty: Vec<UnitSchedule> = vec![];
    assert!(Schedule::new(&empty, 0, &now).is_none());
}

#[test]
fn single_weekday_advances_a_week() {
    let us = UnitSchedule::new(vec![1], vec![9, 15], vec![30]).unwrap();
    let mut it = us.iter_since(&ymdhm(2017, 2, 13, 8, 0)); // Monday 8:00
    assert_eq!(Some(ymdhm(2017, 2, 13, 9, 30)), it.next());
    assert_eq!(Some(ymdhm(2017, 2, 13, 15, 30)), it.next());
    assert_eq!(Some(ymdhm(2017, 2, 20, 9, 30)), it.next());
    assert_eq!(Some(ymdhm(2017, 2, 20, 15, 30)), it.next());
    assert_eq!(Some(ymdhm(2017, 2, 27, 9, 30)), it.next());

    // and through the event source: every Monday 09:30, polled a week apart
    let us2 = UnitSchedule::new(vec![1], vec![9], vec![30]).unwrap();
    let now_local = ymdhm(2017, 2, 13, 9, 0);
    let now_utc = now_local.to_secs();
    let mut sch = Schedule::new(&vec![us2], 0, &now_local).unwrap();
    match sch.poll(now_utc, false) {
        PollStep::Pending { arm_for } => assert_eq!(arm_for, Some(1800)),
        other => panic!("expected a pending poll, got {:?}", other),
    }
    // a week on, the next Monday's occurrence is 1800 s away again
    match sch.poll(now_utc + 7 * 86400, false) {
        PollStep::Fired { arm_for } => assert_eq!(arm_for, 1800),
        other => panic!("expected a fired poll, got {:?}", other),
    }
}
