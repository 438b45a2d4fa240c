//! Tests of the date extraction, the counters, the registration funnel
//! helpers and the bad-version filter.

use convoker::logutils::{
    extract_date, extract_request_id, get_message, increment, increment_registration_count,
    is_bad_version_message, is_start_of_registration_request, maybe_get_request_status,
    parse_date_arg, DateString, Filter,
};
use convoker::ordmap::OrdMap;

#[test]
fn date_zero_padding() {
    let line: &[u8] = b"app: (id) [INFO - 1/2/2019 1:02:03 AM] hello";
    assert_eq!(extract_date(line), Some(*b"2019-01-02"));
    let two: &[u8] = b"app: (id) [INFO - 10/21/2019 1:02:03 AM] hello";
    assert_eq!(extract_date(two), Some(*b"2019-10-21"));
    let none: &[u8] = b"no brackets here";
    assert_eq!(extract_date(none), None);
}

#[test]
fn message_after_bracket() {
    let line: &[u8] = b"app: (id) [INFO - 1/2/2019 1:02:03 AM] hello there";
    assert_eq!(get_message(line), Some(&b"hello there"[..]));
    assert_eq!(get_message(b"no bracket"), None);
}

#[test]
fn request_status_codes() {
    let ok: &[u8] = b"app: (id) [INFO - 1/2/2019 1:02:03 AM] Finished: 200 'OK'";
    assert_eq!(maybe_get_request_status(ok), Some(200));
    let gone: &[u8] = b"app: (id) [INFO - 1/2/2019 1:02:03 AM] Finished: 404 'gone'";
    assert_eq!(maybe_get_request_status(gone), Some(404));
    let other: &[u8] = b"app: (id) [INFO - 1/2/2019 1:02:03 AM] Started: GET /x";
    assert_eq!(maybe_get_request_status(other), None);
}

#[test]
fn registration_start_detection() {
    let yes: &[u8] =
        b"app: (id) [INFO - 1/2/2019 1:02:03 AM] Started: POST /api/account/register/complete/abc";
    assert!(is_start_of_registration_request(yes));
    let no: &[u8] = b"app: (id) [INFO - 1/2/2019 1:02:03 AM] Started: POST /api/auth/login x";
    assert!(!is_start_of_registration_request(no));
}

#[test]
fn request_id_extraction() {
    let line: &[u8] = b"x (bbc823f4-f809-42cf-bcc5-8b3d5e6d9e9a) [INFO] y";
    assert_eq!(extract_request_id(line), Some(*b"bbc823f4f80942cfbcc58b3d5e6d9e9a"));
    let short: &[u8] = b"x (bbc823f4) [INFO] y";
    assert_eq!(extract_request_id(short), None);
}

#[test]
fn bad_version_detection() {
    let bad: &[u8] = b"app: (id) [WARN] Bad version 0, expected 1.";
    assert!(is_bad_version_message(bad));
    let fine: &[u8] = b"app: (id) [INFO] all good";
    assert!(!is_bad_version_message(fine));
}

#[test]
fn counters_increment() {
    let day = DateString(*b"2019-01-02");
    let other = DateString(*b"2019-01-03");
    let mut counts: OrdMap<DateString, usize> = OrdMap::new();
    increment(&mut counts, &day);
    increment(&mut counts, &day);
    increment(&mut counts, &other);
    assert_eq!(counts.entries, vec![(day, 2usize), (other, 1usize)]);

    let mut regs: OrdMap<[u8; 10], usize> = OrdMap::new();
    increment_registration_count(&mut regs, b"2019-01-02");
    increment_registration_count(&mut regs, b"2019-01-02");
    assert_eq!(regs.entries, vec![(*b"2019-01-02", 2usize)]);
}

#[test]
fn date_arguments() {
    assert_eq!(parse_date_arg("2019-01-02"), Some(*b"2019-01-02"));
    assert_eq!(parse_date_arg("2019-1-2"), None);
}

#[test]
fn filter_holds_back_bad_requests() {
    let bad_req: &[u8] =
        b"a (bbc823f4-f809-42cf-bcc5-8b3d5e6d9e9a) [WARN] Bad version 0, expected 1.";
    let bad_req_more: &[u8] = b"a (bbc823f4-f809-42cf-bcc5-8b3d5e6d9e9a) [INFO] more of the same";
    let other_req: &[u8] = b"a (c722d1d6-86e6-4117-b444-e146b013859d) [INFO] unrelated";

    let mut filter = Filter::with_capacity(2);
    assert_eq!(filter.enqueue(bad_req), None);
    assert_eq!(filter.enqueue(bad_req_more), None);
    // the window is full: the oldest line pops out for a decision
    let popped = filter.enqueue(other_req).unwrap();
    assert_eq!(&popped[..], bad_req);
    assert!(!filter.maybe_print(&popped));
    let flushed = filter.flush();
    // the bad request's other line is held back too; the rest print
    assert_eq!(flushed.len(), 1);
    assert_eq!(&flushed[0][..], other_req);
}

#[test]
fn filter_prints_lines_without_ids() {
    let no_id: &[u8] = b"a plain line";
    let mut filter = Filter::with_capacity(1);
    assert!(filter.maybe_print(no_id));
}

#[test]
fn filter_keeps_printed_requests_printing() {
    let early: &[u8] = b"a (bbc823f4-f809-42cf-bcc5-8b3d5e6d9e9a) [INFO] early line";
    let bad: &[u8] = b"a (bbc823f4-f809-42cf-bcc5-8b3d5e6d9e9a) [WARN] Bad version 0, expected 1.";
    let mut filter = Filter::with_capacity(4);
    // the early line prints before the bad-version report arrives
    assert!(filter.maybe_print(early));
    filter.enqueue(bad);
    let flushed = filter.flush();
    // once a request printed anything, the rest keeps printing
    assert_eq!(flushed.len(), 1);
}
