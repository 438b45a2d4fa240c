//! Tests of the collectors: activity tracking, request assembly, presence
//! building and global presences, ported from the original suites.

use chrono::TimeZone;
use convoker::activity::ActivityCollector;
use convoker::globalpresence::{collect_global_presences, GlobalPresence};
use convoker::lex::locate_parts;
use convoker::ordmap::OrdMap;
use convoker::parse::UUID;
use convoker::presence::{collect_presences, Presence};
use convoker::request::{Request, RequestCollector, UserId};
use convoker::spanset::{SpanSet, TimeSpan};

fn ts(y: i32, mo: u32, d: u32, h: u32, mi: u32, s: u32) -> i64 {
    chrono::Utc.with_ymd_and_hms(y, mo, d, h, mi, s).unwrap().timestamp()
}

fn span(a: i64, b: i64) -> TimeSpan {
    TimeSpan::new(a, b)
}

#[test]
fn standard_use() {
    let lines: Vec<&[u8]> = vec![
        b"shmeppy-1 shmeppy-app: (d2deee0c-9fd8-446c-9506-be65bbac5206) [INFO - 5/26/2020 3:33:19 PM] Committed 1 operation(s).",
        b"shmeppy-1 shmeppy-app: (ce3f74d8-5e3c-48de-8411-d0663861bed8) [INFO - 5/26/2020 3:33:21 PM] Committed 1 operation(s).",
        b"shmeppy-1 shmeppy-app: (ce3f74d8-5e3c-48de-8411-d0663861bed8) [INFO - 5/26/2020 4:33:22 PM] Committed 1 operation(s).",
    ];

    let mut collector = ActivityCollector::new();
    for line in lines {
        collector.update(&locate_parts(line).unwrap());
    }

    assert_eq!(
        collector.active_times.entries,
        vec![
            (
                UUID(0xce3f74d8_5e3c_48de_8411_d0663861bed8),
                vec![ts(2020, 5, 26, 15, 33, 21), ts(2020, 5, 26, 16, 33, 22)],
            ),
            (
                UUID(0xd2deee0c_9fd8_446c_9506_be65bbac5206),
                vec![ts(2020, 5, 26, 15, 33, 19)],
            ),
        ]
    );

    let game_ids = OrdMap {
        entries: vec![
            (UUID(0xce3f74d8_5e3c_48de_8411_d0663861bed8), 1u64),
            (UUID(0xd2deee0c_9fd8_446c_9506_be65bbac5206), 2u64),
        ],
    };
    let spets = collector.into_spets(&game_ids, 10 * 60);
    assert_eq!(spets.entries.len(), 2);
    assert_eq!(spets.entries[0].0, 1);
    assert_eq!(
        spets.entries[0].1.spans,
        vec![
            span(ts(2020, 5, 26, 15, 28, 21), ts(2020, 5, 26, 15, 38, 21)),
            span(ts(2020, 5, 26, 16, 28, 22), ts(2020, 5, 26, 16, 38, 22)),
        ]
    );
    assert_eq!(spets.entries[1].0, 2);
    assert_eq!(
        spets.entries[1].1.spans,
        vec![span(ts(2020, 5, 26, 15, 28, 19), ts(2020, 5, 26, 15, 38, 19))]
    );
}

#[test]
fn complete_and_partial() {
    let raw_logs: Vec<&[u8]> = vec![
        br#"shmeppy-1 shmeppy-app: (357edc79-03fe-4787-910a-d2f14302348c) [INFO - 5/26/2020 1:33:47 AM] Started websocket: GET /game-socket/381468491?version=2&lastSeenIndex=328 1.1"#,
        br#"shmeppy-1 shmeppy-app: (357edc79-03fe-4787-910a-d2f14302348c) [INFO - 5/26/2020 1:33:47 AM] Analytics ID: 45e0e69c-ddd9-4443-abab-f3b46e47a62b"#,
        br#"shmeppy-1 shmeppy-app: (357edc79-03fe-4787-910a-d2f14302348c) [INFO - 5/26/2020 1:35:08 AM] Successfully authenticated as: { accountId: 'c7d585cd803aafa5', displayName: 'John' }"#,
        br#"shmeppy-1 shmeppy-app: (357edc79-03fe-4787-910a-d2f14302348c) [INFO - 5/26/2020 1:35:08 AM] Joining game: { adminAccountId: 'c7d585cd803aafa5', gameId: 381468491 }"#,
        br#"shmeppy-1 shmeppy-app: (357edc79-03fe-4787-910a-d2f14302348c) [INFO - 5/26/2020 1:35:08 AM] Client added to client DB: {"gameId":388491,"clientId":18378,"account":{"accountId":"c7d585cd803aafa5","displayName":"John"},"isAdmin":true,"initialLastSeenIndex":328,"lastPing":1590456908483}"#,
        br#"shmeppy-1 shmeppy-app: (357edc79-03fe-4787-910a-d2f14302348c) [DEBUG - 5/26/2020 1:35:08 AM] timing mark {"context":"operationsService","time":[10021127,60426389],"starting":["get operations after"],"ending":[]}"#,
        br#"shmeppy-1 shmeppy-app: (357edc79-03fe-4787-910a-d2f14302348c) [DEBUG - 5/26/2020 1:35:08 AM] timing mark {"context":"operationsService","time":[10021127,62358039],"starting":["sending data (update some with ops)"],"ending":[]}"#,
        br#"shmeppy-1 shmeppy-app: (357edc79-03fe-4787-910a-d2f14302348c) [DEBUG - 5/26/2020 1:35:08 AM] timing mark {"context":"operationsService","time":[10021127,63065222],"starting":[],"ending":["get operations after","sending data (update some with ops)"]}"#,
        br#"shmeppy-1 shmeppy-app: (357edc79-03fe-4787-910a-d2f14302348c) [INFO - 5/26/2020 1:35:08 AM] Socket init complete"#,
        br#"shmeppy-1 shmeppy-app: (357edc79-03fe-4787-910a-d2f14302348c) [DEBUG - 5/26/2020 1:36:23 AM] Waiting for client to complete closing handshake."#,
        br#"shmeppy-1 shmeppy-app: (357edc79-03fe-4787-910a-d2f14302348c) [DEBUG - 5/26/2020 1:36:25 AM] Waiting for client to complete closing handshake."#,
        br#"shmeppy-1 shmeppy-app: (357edc79-03fe-4787-910a-d2f14302348c) [DEBUG - 5/26/2020 1:36:27 AM] Waiting for client to complete closing handshake."#,
        br#"shmeppy-1 shmeppy-app: (357edc79-03fe-4787-910a-d2f14302348c) [DEBUG - 5/26/2020 1:36:29 AM] Waiting for client to complete closing handshake."#,
        br#"shmeppy-1 shmeppy-app: (357edc79-03fe-4787-910a-d2f14302348c) [DEBUG - 5/26/2020 1:36:31 AM] Waiting for client to complete closing handshake."#,
        br#"shmeppy-1 shmeppy-app: (357edc79-03fe-4787-910a-d2f14302348c) [DEBUG - 5/26/2020 1:36:33 AM] Waiting for client to complete closing handshake."#,
        br#"shmeppy-1 shmeppy-app: (357edc79-03fe-4787-910a-d2f14302348c) [DEBUG - 5/26/2020 1:36:35 AM] Waiting for client to complete closing handshake."#,
        br#"shmeppy-1 shmeppy-app: (357edc79-03fe-4787-910a-d2f14302348c) [DEBUG - 5/26/2020 1:36:37 AM] Waiting for client to complete closing handshake."#,
        br#"shmeppy-1 shmeppy-app: (357edc79-03fe-4787-910a-d2f14302348c) [DEBUG - 5/26/2020 1:36:40 AM] Waiting for client to complete closing handshake."#,
        br#"shmeppy-1 shmeppy-app: (357edc79-03fe-4787-910a-d2f14302348c) [DEBUG - 5/26/2020 1:36:42 AM] Waiting for client to complete closing handshake."#,
        br#"shmeppy-1 shmeppy-app: (357edc79-03fe-4787-910a-d2f14302348c) [DEBUG - 5/26/2020 1:36:44 AM] Waiting for client to complete closing handshake."#,
        br#"shmeppy-1 shmeppy-app: (357edc79-03fe-4787-910a-d2f14302348c) [DEBUG - 5/26/2020 1:36:47 AM] Waiting for client to complete closing handshake."#,
        br#"shmeppy-1 shmeppy-app: (357edc79-03fe-4787-910a-d2f14302348c) [DEBUG - 5/26/2020 1:36:49 AM] Waiting for client to complete closing handshake."#,
        br#"shmeppy-1 shmeppy-app: (357edc79-03fe-4787-910a-d2f14302348c) [INFO - 5/26/2020 1:36:50 AM] Finished websocket: 1005 ''"#,
    ];

    let mut collector = RequestCollector::new();
    for raw_log in raw_logs {
        collector.update(&locate_parts(raw_log).unwrap());
    }

    assert_eq!(collector.partial_requests.entries.len(), 1);
    let (uuid, partial_request) = collector.partial_requests.entries[0];
    let maybe_request = Request::from_partial(uuid, &partial_request);
    let expected_request = Request {
        request_id: UUID(0x357edc79_03fe_4787_910a_d2f14302348c),
        start: ts(2020, 5, 26, 1, 33, 47),
        end: ts(2020, 5, 26, 1, 36, 23),
        game_id: 381468491,
        user_id: UserId::AccountId(0xc7d585cd803aafa5),
        is_admin: true,
    };
    assert_eq!(maybe_request, Some(expected_request));
    assert_eq!(collector.into_requests(), vec![expected_request]);
}

fn pres_fields(p: &Presence) -> (u64, UserId, bool, Vec<TimeSpan>) {
    (p.game_id, p.user_id, p.is_admin, p.spans.spans.clone())
}

#[test]
fn presence_single_presence() {
    let requests = vec![
        Request {
            request_id: UUID(1),
            start: ts(2020, 1, 1, 1, 0, 0),
            end: ts(2020, 1, 1, 1, 10, 0),
            game_id: 2,
            user_id: UserId::AccountId(3),
            is_admin: true,
        },
        Request {
            request_id: UUID(2),
            start: ts(2020, 1, 1, 1, 11, 0),
            end: ts(2020, 1, 1, 1, 20, 0),
            game_id: 2,
            user_id: UserId::AccountId(3),
            is_admin: true,
        },
    ];

    let presences_by_game = collect_presences(requests);
    assert_eq!(presences_by_game.entries.len(), 1);

    let presences = &presences_by_game.entries[0].1;
    assert_eq!(presences.len(), 1);
    assert_eq!(
        pres_fields(&presences[0]),
        (
            2,
            UserId::AccountId(3),
            true,
            vec![
                span(ts(2020, 1, 1, 1, 0, 0), ts(2020, 1, 1, 1, 10, 0)),
                span(ts(2020, 1, 1, 1, 11, 0), ts(2020, 1, 1, 1, 20, 0)),
            ],
        )
    );
}

#[test]
fn is_admin_changed() {
    let requests = vec![
        Request {
            request_id: UUID(1),
            start: ts(2020, 1, 1, 1, 0, 0),
            end: ts(2020, 1, 1, 1, 10, 0),
            game_id: 2,
            user_id: UserId::AccountId(3),
            is_admin: true,
        },
        Request {
            request_id: UUID(2),
            start: ts(2020, 1, 1, 1, 11, 0),
            end: ts(2020, 1, 1, 1, 20, 0),
            game_id: 2,
            user_id: UserId::AccountId(3),
            is_admin: false,
        },
    ];

    let presences_by_game = collect_presences(requests);
    assert_eq!(presences_by_game.entries.len(), 1);

    let presences = &presences_by_game.entries[0].1;
    assert_eq!(presences.len(), 2);
    assert_eq!(
        pres_fields(&presences[0]),
        (
            2,
            UserId::AccountId(3),
            false,
            vec![span(ts(2020, 1, 1, 1, 11, 0), ts(2020, 1, 1, 1, 20, 0))],
        )
    );
    assert_eq!(
        pres_fields(&presences[1]),
        (
            2,
            UserId::AccountId(3),
            true,
            vec![span(ts(2020, 1, 1, 1, 0, 0), ts(2020, 1, 1, 1, 10, 0))],
        )
    );
}

fn gp_fields(p: &GlobalPresence) -> (UserId, Vec<TimeSpan>) {
    (p.user_id, p.spans.spans.clone())
}

#[test]
fn globalpresence_single_presence() {
    let requests = vec![
        Request {
            request_id: UUID(1),
            start: ts(2020, 1, 1, 1, 0, 0),
            end: ts(2020, 1, 1, 1, 10, 0),
            game_id: 2,
            user_id: UserId::AccountId(3),
            is_admin: true,
        },
        Request {
            request_id: UUID(2),
            start: ts(2020, 1, 1, 1, 11, 0),
            end: ts(2020, 1, 1, 1, 20, 0),
            game_id: 2,
            user_id: UserId::AccountId(3),
            is_admin: true,
        },
    ];

    let activity = OrdMap {
        entries: vec![(
            2u64,
            SpanSet::from_sorted(vec![span(ts(2020, 1, 1, 1, 0, 0), ts(2020, 1, 1, 1, 19, 0))]),
        )],
    };

    let presences = collect_global_presences(requests, &activity);
    assert_eq!(presences.len(), 1);
    assert_eq!(
        gp_fields(&presences[0]),
        (
            UserId::AccountId(3),
            vec![
                span(ts(2020, 1, 1, 1, 0, 0), ts(2020, 1, 1, 1, 10, 0)),
                span(ts(2020, 1, 1, 1, 11, 0), ts(2020, 1, 1, 1, 19, 0)),
            ],
        )
    );
}

#[test]
fn multiple_presences() {
    let requests = vec![
        Request {
            request_id: UUID(1),
            start: ts(2020, 1, 1, 1, 0, 0),
            end: ts(2020, 1, 1, 1, 10, 0),
            game_id: 2,
            user_id: UserId::AccountId(3),
            is_admin: true,
        },
        Request {
            request_id: UUID(2),
            start: ts(2020, 1, 1, 1, 11, 0),
            end: ts(2020, 1, 1, 1, 20, 0),
            game_id: 2,
            user_id: UserId::AccountId(4),
            is_admin: false,
        },
    ];

    let activity = OrdMap {
        entries: vec![(
            2u64,
            SpanSet::from_sorted(vec![span(ts(2020, 1, 1, 1, 0, 0), ts(2020, 1, 1, 1, 19, 0))]),
        )],
    };

    let presences = collect_global_presences(requests, &activity);
    assert_eq!(presences.len(), 2);
    assert_eq!(
        gp_fields(&presences[0]),
        (
            UserId::AccountId(3),
            vec![span(ts(2020, 1, 1, 1, 0, 0), ts(2020, 1, 1, 1, 10, 0))],
        )
    );
    assert_eq!(
        gp_fields(&presences[1]),
        (
            UserId::AccountId(4),
            vec![span(ts(2020, 1, 1, 1, 11, 0), ts(2020, 1, 1, 1, 19, 0))],
        )
    );
}
