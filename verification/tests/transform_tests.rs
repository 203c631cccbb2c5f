use transform::datetime::parse_datetime;
use transform::event::remove_exdates;
use transform::event::replace_dtstart;
use transform::event::should_keep_event;
use transform::transform::transform;
use transform::tz::string_into_tz;
use transform::DateTime;
use transform::TransformError;
use transform::TzId;

fn dt(year: u16, month: u8, day: u8, hour: u8, minute: u8, second: u8) -> DateTime {
    DateTime { year, month, day, hour, minute, second }
}

fn run(input: &str, cutoff: DateTime, remove_exceptions: bool) -> Result<String, TransformError> {
    transform(input.as_bytes(), &cutoff, remove_exceptions)
        .map(|v| String::from_utf8(v).unwrap())
}

#[test]
fn non_recurring_event_before_cutoff_is_dropped() {
    let input = "BEGIN:VCALENDAR\r\nVERSION:2.0\r\nBEGIN:VEVENT\r\nDTSTART:20240101T000000\r\nSUMMARY:old\r\nEND:VEVENT\r\nEND:VCALENDAR\r\n";
    let out = run(input, dt(2024, 6, 1, 0, 0, 0), true).unwrap();
    assert_eq!(out, "BEGIN:VCALENDAR\r\nVERSION:2.0\r\nEND:VCALENDAR\r\n");
}

#[test]
fn non_recurring_event_after_cutoff_is_kept_unchanged() {
    let input = "BEGIN:VCALENDAR\r\nBEGIN:VEVENT\r\nDTSTART:20240101T000000\r\nEND:VEVENT\r\nEND:VCALENDAR\r\n";
    let out = run(input, dt(2023, 12, 1, 0, 0, 0), true).unwrap();
    assert_eq!(out, input);
}

#[test]
fn non_recurring_event_on_cutoff_day_is_kept() {
    let input = "BEGIN:VEVENT\r\nDTSTART:20240601T000000\r\nEND:VEVENT\r\n";
    let out = run(input, dt(2024, 6, 1, 0, 0, 0), false).unwrap();
    assert_eq!(out, input);
}

#[test]
fn kept_event_with_tzid_dtstart_is_converted_to_utc() {
    let input = "BEGIN:VEVENT\r\nDTSTART;TZID=Europe/Berlin:20240615T120000\r\nEND:VEVENT\r\n";
    let out = run(input, dt(2024, 1, 1, 0, 0, 0), true).unwrap();
    assert_eq!(out, "BEGIN:VEVENT\r\nDTSTART:20240615T100000Z\nEND:VEVENT\r\n");
}

#[test]
fn recurring_event_spanning_cutoff_is_kept() {
    let input = "BEGIN:VEVENT\r\nDTSTART;TZID=Europe/Berlin:20240101T100000\r\nRRULE:FREQ=DAILY;COUNT=400\r\nEND:VEVENT\r\n";
    let out = run(input, dt(2024, 6, 1, 0, 0, 0), false).unwrap();
    assert!(out.contains("RRULE:FREQ=DAILY;COUNT=400"));
    assert!(out.contains("DTSTART:20240101T090000Z"));
}

#[test]
fn recurring_event_exhausted_before_cutoff_is_dropped() {
    let input = "BEGIN:VEVENT\r\nDTSTART;TZID=Europe/Berlin:20240101T100000\r\nRRULE:FREQ=DAILY;COUNT=10\r\nEND:VEVENT\r\n";
    let out = run(input, dt(2024, 6, 1, 0, 0, 0), false).unwrap();
    assert_eq!(out, "");
}

#[test]
fn exdate_line_is_stripped_when_removing_exceptions() {
    let input = "BEGIN:VEVENT\r\nDTSTART;TZID=Europe/Berlin:20240101T100000\r\nRRULE:FREQ=DAILY;COUNT=400\r\nEXDATE;TZID=Europe/Paris:20240105T100000\r\nEND:VEVENT\r\n";
    let out = run(input, dt(2024, 6, 1, 0, 0, 0), true).unwrap();
    assert!(!out.contains("EXDATE"));
    assert!(out.contains("RRULE:FREQ=DAILY;COUNT=400"));
}

#[test]
fn exdate_line_is_rewritten_to_utc_when_kept() {
    let input = "BEGIN:VEVENT\r\nDTSTART;TZID=Europe/Berlin:20240101T100000\r\nRRULE:FREQ=DAILY;COUNT=400\r\nEXDATE;TZID=Europe/Paris:20240105T100000\r\nEND:VEVENT\r\n";
    let out = run(input, dt(2024, 6, 1, 0, 0, 0), false).unwrap();
    assert!(out.contains("EXDATE:20240105T090000Z\n"));
}

#[test]
fn lines_outside_events_pass_through_for_any_cutoff() {
    let input = "BEGIN:VCALENDAR\r\nVERSION:2.0\r\nPRODID:-//x//y//EN\r\nBEGIN:VEVENT\r\nDTSTART:20240101T000000\r\nEND:VEVENT\r\nX-TRAILER:1\r\nEND:VCALENDAR\r\n";
    let keep_all = run(input, dt(2023, 1, 1, 0, 0, 0), true).unwrap();
    let drop_all = run(input, dt(2025, 1, 1, 0, 0, 0), true).unwrap();
    for line in ["BEGIN:VCALENDAR\r\n", "VERSION:2.0\r\n", "PRODID:-//x//y//EN\r\n", "X-TRAILER:1\r\n", "END:VCALENDAR\r\n"] {
        assert!(keep_all.contains(line));
        assert!(drop_all.contains(line));
    }
    assert_eq!(drop_all, "BEGIN:VCALENDAR\r\nVERSION:2.0\r\nPRODID:-//x//y//EN\r\nX-TRAILER:1\r\nEND:VCALENDAR\r\n");
}

#[test]
fn transform_is_idempotent_on_normalized_input() {
    let input = "BEGIN:VCALENDAR\r\nBEGIN:VEVENT\r\nDTSTART:20240701T000000Z\r\nSUMMARY:a\r\nEND:VEVENT\r\nBEGIN:VEVENT\r\nDTSTART:20230101T000000Z\r\nEND:VEVENT\r\nEND:VCALENDAR\r\n";
    let cutoff = dt(2024, 6, 1, 0, 0, 0);
    let once = run(input, cutoff, true).unwrap();
    let twice = run(&once, cutoff, true).unwrap();
    assert_eq!(twice, once);
}

#[test]
fn berlin_summer_noon_becomes_ten_utc() {
    let out = replace_dtstart(b"DTSTART;TZID=Europe/Berlin:20240615T120000").unwrap();
    assert_eq!(out, b"DTSTART:20240615T100000Z");
}

#[test]
fn berlin_winter_noon_becomes_eleven_utc() {
    let out = replace_dtstart(b"DTSTART;TZID=Europe/Berlin:20240115T120000").unwrap();
    assert_eq!(out, b"DTSTART:20240115T110000Z");
}

#[test]
fn dtend_with_tzid_is_rewritten_too() {
    let out = replace_dtstart(b"DTEND;TZID=Europe/Amsterdam:20240615T130000\r").unwrap();
    assert_eq!(out, b"DTEND:20240615T110000Z");
}

#[test]
fn lines_without_tzid_pass_replace_unchanged() {
    let out = replace_dtstart(b"DTSTART:20240615T120000Z\nSUMMARY:x").unwrap();
    assert_eq!(out, b"DTSTART:20240615T120000Z\nSUMMARY:x");
}

#[test]
fn unknown_timezone_is_fatal() {
    let r = replace_dtstart(b"DTSTART;TZID=America/New_York:20240615T120000");
    assert_eq!(r, Err(TransformError::UnknownTimezone));
}

#[test]
fn malformed_datetime_is_fatal() {
    let r = replace_dtstart(b"DTSTART;TZID=Europe/Berlin:2024-06-15");
    assert_eq!(r, Err(TransformError::MalformedDateTime));
}

#[test]
fn tz_line_without_colon_is_fatal() {
    let r = replace_dtstart(b"DTSTART;TZID=Europe/Berlin");
    assert_eq!(r, Err(TransformError::MalformedTzLine));
}

#[test]
fn skipped_local_time_is_fatal() {
    let r = replace_dtstart(b"DTSTART;TZID=Europe/Berlin:20240331T023000");
    assert_eq!(r, Err(TransformError::SkippedLocalTime));
}

#[test]
fn event_without_rrule_and_without_dtstart_is_fatal() {
    let r = run(
        "BEGIN:VEVENT\r\nSUMMARY:x\r\nEND:VEVENT\r\n",
        dt(2024, 6, 1, 0, 0, 0),
        true,
    );
    assert_eq!(r, Err(TransformError::MissingDtstart));
}

#[test]
fn dtstart_without_colon_is_fatal() {
    let r = run(
        "BEGIN:VEVENT\r\nDTSTARTX\r\nEND:VEVENT\r\n",
        dt(2024, 6, 1, 0, 0, 0),
        true,
    );
    assert_eq!(r, Err(TransformError::DtstartNoColon));
}

#[test]
fn truncated_event_is_dropped() {
    let input = "VERSION:2.0\r\nBEGIN:VEVENT\r\nDTSTART:20990101T000000\r\n";
    let out = run(input, dt(2024, 6, 1, 0, 0, 0), true).unwrap();
    assert_eq!(out, "VERSION:2.0\r\n");
}

#[test]
fn unparsable_recurrence_drops_the_event() {
    let input = "BEGIN:VEVENT\r\nDTSTART;TZID=Europe/Berlin:20240101T100000\r\nRRULE:FREQ=NONSENSE\r\nEND:VEVENT\r\n";
    let out = run(input, dt(2024, 1, 1, 0, 0, 0), false).unwrap();
    assert_eq!(out, "");
}

#[test]
fn should_keep_event_compares_lexicographically() {
    let cutoff = dt(2024, 6, 1, 0, 0, 0);
    assert_eq!(
        should_keep_event(b"DTSTART:20240601T000000\r\n", &cutoff),
        Ok(true)
    );
    assert_eq!(
        should_keep_event(b"DTSTART:20240531T235959\r\n", &cutoff),
        Ok(false)
    );
}

#[test]
fn remove_exdates_drops_only_exdate_lines() {
    let out = remove_exdates(b"BEGIN:VEVENT\nEXDATE:20240101T000000Z\nSUMMARY:x\nEXDATE;TZID=Europe/Paris:20240105T100000\nEND:VEVENT\n");
    assert_eq!(out, b"BEGIN:VEVENT\nSUMMARY:x\nEND:VEVENT\n");
}

#[test]
fn timezone_table_is_closed() {
    assert_eq!(string_into_tz(b"Europe/Berlin"), Some(TzId::Berlin));
    assert_eq!(string_into_tz(b"Europe/Prague"), Some(TzId::Prague));
    assert_eq!(string_into_tz(b"Europe/Paris"), Some(TzId::Paris));
    assert_eq!(string_into_tz(b"Europe/Amsterdam"), Some(TzId::Amsterdam));
    assert_eq!(string_into_tz(b"Europe/Brussels"), Some(TzId::Brussels));
    assert_eq!(string_into_tz(b"Europe/Lisbon"), None);
    assert_eq!(string_into_tz(b""), None);
}

#[test]
fn parse_datetime_accepts_only_the_fixed_format() {
    assert_eq!(
        parse_datetime(b"20240615T120000"),
        Some(dt(2024, 6, 15, 12, 0, 0))
    );
    assert_eq!(
        parse_datetime(b"20240229T235959"),
        Some(dt(2024, 2, 29, 23, 59, 59))
    );
    assert_eq!(parse_datetime(b"20230229T120000"), None);
    assert_eq!(parse_datetime(b"20240615T240000"), None);
    assert_eq!(parse_datetime(b"20240615 120000"), None);
    assert_eq!(parse_datetime(b"20240615T12000"), None);
    assert_eq!(parse_datetime(b"20240615T1200000"), None);
    assert_eq!(parse_datetime(b"00000101T000000"), None);
}

#[test]
fn prague_winter_time_is_one_hour_ahead() {
    let out = replace_dtstart(b"DTSTART;TZID=Europe/Prague:20240110T080000").unwrap();
    assert_eq!(out, b"DTSTART:20240110T070000Z");
}

#[test]
fn brussels_summer_time_is_two_hours_ahead() {
    let out = replace_dtstart(b"EXDATE;TZID=Europe/Brussels:20240701T000000").unwrap();
    assert_eq!(out, b"EXDATE:20240630T220000Z");
}

#[test]
fn evaluate_and_rewrite_drops_past_events() {
    let r = transform::event::evaluate_and_rewrite(
        b"BEGIN:VEVENT\r\nDTSTART:20200101T000000\r\nEND:VEVENT\r\n",
        &dt(2024, 6, 1, 0, 0, 0),
        true,
    );
    assert_eq!(r, Ok(None));
}

#[test]
fn utc_anchored_recurrence_spanning_cutoff_is_kept() {
    let input = "BEGIN:VEVENT\r\nDTSTART:20240101T100000Z\r\nRRULE:FREQ=DAILY;UNTIL=20250201T100000Z\r\nEND:VEVENT\r\n";
    let out = run(input, dt(2024, 6, 1, 0, 0, 0), false).unwrap();
    assert_eq!(out, input);
}

#[test]
fn utc_anchored_recurrence_exhausted_before_cutoff_is_dropped() {
    let input = "BEGIN:VEVENT\r\nDTSTART:20240101T100000Z\r\nRRULE:FREQ=DAILY;UNTIL=20240110T100000Z\r\nEND:VEVENT\r\n";
    let out = run(input, dt(2024, 6, 1, 0, 0, 0), false).unwrap();
    assert_eq!(out, "");
}

#[test]
fn far_future_local_rdate_keeps_an_otherwise_spent_event() {
    // The embedded bare line feed makes the RDATE line part of the DTSTART
    // piece, so it reaches the recurrence evaluator; its local-time value is
    // so far in the future that every timezone keeps the event.
    let input = "BEGIN:VEVENT\r\nDTSTART:20200101T000000Z\nRDATE:29990101T120000\r\nRRULE:FREQ=DAILY;COUNT=1\r\nEND:VEVENT\r\n";
    let out = run(input, dt(2024, 6, 1, 0, 0, 0), false).unwrap();
    assert_eq!(out, input);
}

#[test]
fn far_past_local_rdate_leaves_a_spent_event_dropped() {
    let input = "BEGIN:VEVENT\r\nDTSTART:20200101T000000Z\nRDATE:19990101T120000\r\nRRULE:FREQ=DAILY;COUNT=1\r\nEND:VEVENT\r\n";
    let out = run(input, dt(2024, 6, 1, 0, 0, 0), false).unwrap();
    assert_eq!(out, "");
}

#[test]
fn empty_input_gives_empty_output() {
    let out = run("", dt(2024, 6, 1, 0, 0, 0), true).unwrap();
    assert_eq!(out, "");
}
