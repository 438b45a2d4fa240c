//! Scenario tests of the interval algebra, the assembler's idempotent
//! finalization, the end-to-end request flow and convocation detection.

use chrono::TimeZone;
use convoker::activeusers::active_user_seconds;
use convoker::convoker::{day_of, detect_convocations, ConvokerConfig};
use convoker::globalpresence::GlobalPresence;
use convoker::lex::locate_parts;
use convoker::ordmap::OrdMap;
use convoker::parse::UUID;
use convoker::presence::{collect_presences, Presence};
use convoker::request::{Request, RequestCollector, UserId};
use convoker::spanset::{n_of_k, SpanSet, TimeSpan};

fn ts(y: i32, mo: u32, d: u32, h: u32, mi: u32, s: u32) -> i64 {
    chrono::Utc.with_ymd_and_hms(y, mo, d, h, mi, s).unwrap().timestamp()
}

fn span(a: i64, b: i64) -> TimeSpan {
    TimeSpan::new(a, b)
}

fn minutes(m: i64) -> i64 {
    m * 60
}

/// Overlap of at least two among [0,10], [5,15] and [12,20] minutes is
/// [5,10] and [12,15].
#[test]
fn two_of_three_overlap() {
    let sets = vec![
        SpanSet::from_sorted(vec![span(minutes(0), minutes(10))]),
        SpanSet::from_sorted(vec![span(minutes(5), minutes(15))]),
        SpanSet::from_sorted(vec![span(minutes(12), minutes(20))]),
    ];
    let overlap = n_of_k(2, &sets);
    assert_eq!(
        overlap.spans,
        vec![span(minutes(5), minutes(10)), span(minutes(12), minutes(15))]
    );
}

/// With all three required, only nothing overlaps.
#[test]
fn three_of_three_overlap_is_empty() {
    let sets = vec![
        SpanSet::from_sorted(vec![span(minutes(0), minutes(10))]),
        SpanSet::from_sorted(vec![span(minutes(5), minutes(15))]),
        SpanSet::from_sorted(vec![span(minutes(12), minutes(20))]),
    ];
    let overlap = n_of_k(3, &sets);
    assert!(overlap.is_empty());
}

/// A three-minute gap closes under a five-minute threshold and stays open
/// under a two-minute one.
#[test]
fn gap_closing_threshold() {
    let set = SpanSet::from_sorted(vec![
        span(minutes(0), minutes(10)),
        span(minutes(13), minutes(20)),
    ]);
    let merged = set.close_gaps(minutes(5));
    assert_eq!(merged.spans, vec![span(minutes(0), minutes(20))]);
    let kept = set.close_gaps(minutes(2));
    assert_eq!(
        kept.spans,
        vec![span(minutes(0), minutes(10)), span(minutes(13), minutes(20))]
    );
}

/// Three log lines for one request yield exactly one finished record, and
/// feeding the same lines twice keeps the first end time.
#[test]
fn three_records() {
    let lines: Vec<&[u8]> = vec![
        b"app: (357edc79-03fe-4787-910a-d2f14302348c) [INFO - 5/26/2020 1:33:47 AM] Started websocket: GET /game-socket/77",
        b"app: (357edc79-03fe-4787-910a-d2f14302348c) [INFO - 5/26/2020 1:33:47 AM] Client added to client DB: {\"account\":{\"accountId\":\"c7d585cd803aafa5\"},\"isAdmin\":true}",
        b"app: (357edc79-03fe-4787-910a-d2f14302348c) [INFO - 5/26/2020 1:36:23 AM] Finished websocket: 1005 ''",
    ];
    let expected = Request {
        request_id: UUID(0x357edc79_03fe_4787_910a_d2f14302348c),
        start: ts(2020, 5, 26, 1, 33, 47),
        end: ts(2020, 5, 26, 1, 36, 23),
        game_id: 77,
        user_id: UserId::AccountId(0xc7d585cd803aafa5),
        is_admin: true,
    };

    let mut collector = RequestCollector::new();
    for line in &lines {
        collector.update(&locate_parts(line).unwrap());
    }
    assert_eq!(collector.into_requests(), vec![expected]);

    // duplicate every message, including a later Finished: the first end wins
    let mut twice = RequestCollector::new();
    for line in &lines {
        twice.update(&locate_parts(line).unwrap());
    }
    let late: &[u8] = b"app: (357edc79-03fe-4787-910a-d2f14302348c) [INFO - 5/26/2020 2:00:00 AM] Finished websocket: 1005 ''";
    twice.update(&locate_parts(late).unwrap());
    assert_eq!(twice.into_requests(), vec![expected]);
}

/// A request still missing a required field never reaches the output,
/// whatever else arrived.
#[test]
fn incomplete_requests_are_dropped() {
    // authenticated and finished, but never started: dropped entirely
    let mut collector = RequestCollector::new();
    let auth: &[u8] = b"app: (357edc79-03fe-4787-910a-d2f14302348c) [INFO - 5/26/2020 1:33:47 AM] Client added to client DB: {\"account\":{\"accountId\":\"c7d585cd803aafa5\"},\"isAdmin\":true}";
    let fin: &[u8] = b"app: (357edc79-03fe-4787-910a-d2f14302348c) [INFO - 5/26/2020 1:36:23 AM] Finished websocket: 1005 ''";
    collector.update(&locate_parts(auth).unwrap());
    collector.update(&locate_parts(fin).unwrap());
    assert_eq!(collector.into_requests(), vec![]);

    // started and authenticated, but never finished: dropped at finalization
    let mut open_ended = RequestCollector::new();
    let start: &[u8] = b"app: (357edc79-03fe-4787-910a-d2f14302348c) [INFO - 5/26/2020 1:33:47 AM] Started websocket: GET /game-socket/77";
    open_ended.update(&locate_parts(start).unwrap());
    open_ended.update(&locate_parts(auth).unwrap());
    assert_eq!(open_ended.into_requests(), vec![]);
}

/// Feeding the same requests in any order yields the same presences.
#[test]
fn presences_ignore_request_order() {
    let a = Request {
        request_id: UUID(1),
        start: minutes(0),
        end: minutes(10),
        game_id: 2,
        user_id: UserId::AccountId(3),
        is_admin: true,
    };
    let b = Request {
        request_id: UUID(2),
        start: minutes(11),
        end: minutes(20),
        game_id: 2,
        user_id: UserId::AccountId(3),
        is_admin: true,
    };
    let c = Request {
        request_id: UUID(3),
        start: minutes(5),
        end: minutes(9),
        game_id: 7,
        user_id: UserId::Anonymous,
        is_admin: false,
    };

    let one = collect_presences(vec![a, b, c]);
    let two = collect_presences(vec![c, b, a]);
    assert_eq!(one.entries.len(), two.entries.len());
    for (left, right) in one.entries.iter().zip(two.entries.iter()) {
        assert_eq!(left.0, right.0);
        assert_eq!(left.1.len(), right.1.len());
        for (p, q) in left.1.iter().zip(right.1.iter()) {
            assert_eq!(p.game_id, q.game_id);
            assert_eq!(p.user_id, q.user_id);
            assert_eq!(p.is_admin, q.is_admin);
            assert_eq!(p.spans.spans, q.spans.spans);
        }
    }
}

fn presence(game: u64, user: UserId, admin: bool, spans: Vec<TimeSpan>) -> Presence {
    Presence { spans: SpanSet::from_sorted(spans), game_id: game, user_id: user, is_admin: admin }
}

/// Two admins overlapping for 50 minutes inside an activity window, at
/// threshold 2 with a 40-minute noise floor, give exactly one convocation
/// listing both as admins.
#[test]
fn two_admins_give_one_convocation() {
    let alice = UserId::AccountId(1);
    let bob = UserId::AccountId(2);
    let presences = OrdMap {
        entries: vec![(
            9u64,
            vec![
                presence(9, alice, true, vec![span(minutes(0), minutes(60))]),
                presence(9, bob, true, vec![span(minutes(10), minutes(90))]),
            ],
        )],
    };
    let activity = OrdMap {
        entries: vec![(9u64, SpanSet::from_sorted(vec![span(minutes(0), minutes(120))]))],
    };
    let config = ConvokerConfig {
        threshold: 2,
        close_gap_before: minutes(5),
        min_length: minutes(40),
        close_gap_after: minutes(90),
    };

    let by_day = detect_convocations(&presences, &activity, &config);
    assert_eq!(by_day.entries.len(), 1);
    assert_eq!(by_day.entries[0].0, 0);
    let convs = &by_day.entries[0].1;
    assert_eq!(convs.len(), 1);
    assert_eq!(convs[0].game_id, 9);
    assert_eq!(convs[0].during, span(minutes(10), minutes(60)));
    assert_eq!(convs[0].admins, vec![alice, bob]);
    assert_eq!(convs[0].players, vec![]);
}

/// A short overlap is noise; no convocation survives the length filter.
#[test]
fn short_overlap_is_noise() {
    let alice = UserId::AccountId(1);
    let bob = UserId::AccountId(2);
    let presences = OrdMap {
        entries: vec![(
            9u64,
            vec![
                presence(9, alice, true, vec![span(minutes(0), minutes(30))]),
                presence(9, bob, true, vec![span(minutes(10), minutes(39))]),
            ],
        )],
    };
    let activity = OrdMap {
        entries: vec![(9u64, SpanSet::from_sorted(vec![span(minutes(0), minutes(120))]))],
    };
    let config = ConvokerConfig {
        threshold: 2,
        close_gap_before: 0,
        min_length: minutes(40),
        close_gap_after: minutes(90),
    };

    let by_day = detect_convocations(&presences, &activity, &config);
    assert_eq!(by_day.entries.len(), 0);
}

/// A present non-admin is listed as a player; a window with no admin at all
/// is discarded.
#[test]
fn players_and_admin_requirement() {
    let admin = UserId::AccountId(1);
    let player = UserId::AnalyticsId(UUID(5));
    let with_admin = OrdMap {
        entries: vec![(
            9u64,
            vec![
                presence(9, admin, true, vec![span(minutes(0), minutes(60))]),
                presence(9, player, false, vec![span(minutes(0), minutes(60))]),
            ],
        )],
    };
    let activity = OrdMap {
        entries: vec![(9u64, SpanSet::from_sorted(vec![span(minutes(0), minutes(120))]))],
    };
    let config = ConvokerConfig {
        threshold: 2,
        close_gap_before: 0,
        min_length: minutes(40),
        close_gap_after: minutes(90),
    };
    let by_day = detect_convocations(&with_admin, &activity, &config);
    assert_eq!(by_day.entries.len(), 1);
    let convs = &by_day.entries[0].1;
    assert_eq!(convs[0].admins, vec![admin]);
    assert_eq!(convs[0].players, vec![player]);

    // the same two presences, neither an admin: nothing comes out
    let no_admin = OrdMap {
        entries: vec![(
            9u64,
            vec![
                presence(9, admin, false, vec![span(minutes(0), minutes(60))]),
                presence(9, player, false, vec![span(minutes(0), minutes(60))]),
            ],
        )],
    };
    let by_day = detect_convocations(&no_admin, &activity, &config);
    assert_eq!(by_day.entries.len(), 0);
}

/// Active seconds per day: a presence crossing midnight splits between the
/// two days, and silent users are left out.
#[test]
fn active_seconds_split_across_days() {
    let gp = GlobalPresence {
        spans: SpanSet::from_sorted(vec![span(82800, 90000)]),
        user_id: UserId::AccountId(7),
    };
    let silent = GlobalPresence {
        spans: SpanSet::from_sorted(vec![]),
        user_id: UserId::AccountId(8),
    };
    let table = active_user_seconds(&vec![gp, silent], 0, 2);
    assert_eq!(table.entries.len(), 3);
    assert_eq!(table.entries[0].0, 0);
    assert_eq!(table.entries[0].1, vec![(UserId::AccountId(7), 86399 - 82800)]);
    assert_eq!(table.entries[1].0, 1);
    assert_eq!(table.entries[1].1, vec![(UserId::AccountId(7), 90000 - 86400)]);
    assert_eq!(table.entries[2].0, 2);
    assert_eq!(table.entries[2].1, vec![]);
}

/// Day numbering floors toward earlier days, also before the epoch.
#[test]
fn day_numbering_floors() {
    assert_eq!(day_of(0), 0);
    assert_eq!(day_of(86399), 0);
    assert_eq!(day_of(86400), 1);
    assert_eq!(day_of(-1), -1);
    assert_eq!(day_of(-86400), -1);
    assert_eq!(day_of(-86401), -2);
}
