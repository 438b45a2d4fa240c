//! Unit tests of the lexer, the field decoders and the message parser,
//! ported from the original suites plus decoder edge cases.

use convoker::bytes::{extract_integer, extract_integer_u8, skip_prefix};
use convoker::lex::locate_parts;
use convoker::parse::{parse_timestamp, parse_uuid, UUID};
use convoker::request::{
    extract_account_id_from_old_log, extract_is_admin_from_old_log, parse_message, Message,
};
use chrono::TimeZone;

fn ts(y: i32, mo: u32, d: u32, h: u32, mi: u32, s: u32) -> i64 {
    chrono::Utc.with_ymd_and_hms(y, mo, d, h, mi, s).unwrap().timestamp()
}

#[test]
fn bad_format() {
    let log_line = b"not valid";
    let result = locate_parts(log_line);
    assert!(result.is_none());
}

#[test]
fn old_format() {
    let log_line = b"Oct  1 20:43:45 shmeppy-0 shmeppy-app: (c4dfd175-c0ff-43d5-bd06-6366fd701030) [INFO - 10/1/2018 8:43:45 PM] Finished websocket: 1001 ''";
    let result = locate_parts(log_line);
    assert!(result.is_some());

    let parts = result.unwrap();
    assert_eq!(parts.uuid, &b"c4dfd175-c0ff-43d5-bd06-6366fd701030"[..]);
    assert_eq!(parts.timestamp, &b"10/1/2018 8:43:45 PM"[..]);
    assert_eq!(parts.message, &b"Finished websocket: 1001 ''"[..]);
}

#[test]
fn new_format() {
    let log_line = b"shmeppy-1 shmeppy-app: (c722d1d6-86e6-4117-b444-e146b013859d) [INFO - 4/25/2020 9:55:14 PM] Committed 1 operation(s).";
    let result = locate_parts(log_line);
    assert!(result.is_some());

    let parts = result.unwrap();
    assert_eq!(parts.uuid, &b"c722d1d6-86e6-4117-b444-e146b013859d"[..]);
    assert_eq!(parts.timestamp, &b"4/25/2020 9:55:14 PM"[..]);
    assert_eq!(parts.message, &b"Committed 1 operation(s)."[..]);
}

#[test]
fn lexer_views_reassemble() {
    let log_line: &[u8] = b"x (abc) [INFO - 1/2/2020 1:02:03 AM] hello";
    let parts = locate_parts(log_line).unwrap();
    let mut rebuilt: Vec<u8> = Vec::new();
    rebuilt.extend_from_slice(b"(");
    rebuilt.extend_from_slice(parts.uuid);
    rebuilt.extend_from_slice(b") [INFO - ");
    rebuilt.extend_from_slice(parts.timestamp);
    rebuilt.extend_from_slice(b"] ");
    rebuilt.extend_from_slice(parts.message);
    assert_eq!(&rebuilt[..], &log_line[2..]);
}

#[test]
fn parse_standard_format() {
    let raw_datetime = b"4/25/2020 9:55:14 PM";
    let datetime = parse_timestamp(raw_datetime);
    assert!(datetime.is_some());
    assert_eq!(datetime.unwrap(), ts(2020, 4, 25, 21, 55, 14));

    let raw_uuid = b"72aee7fd-3842-49cf-a196-be874a72ed9c";
    let uuid = parse_uuid(raw_uuid);
    assert!(uuid.is_some());
    assert_eq!(uuid.unwrap(), UUID(152440156471620327380106519705898118556));
}

#[test]
fn missing_am_pm() {
    let raw_datetime = b"4/25/2020 9:55:14";
    let datetime = parse_timestamp(raw_datetime);
    assert!(datetime.is_none());
}

#[test]
fn parse_empty() {
    let raw_datetime = b"";
    let datetime = parse_timestamp(raw_datetime);
    assert!(datetime.is_none());

    let raw_uuid = b"";
    assert!(parse_uuid(raw_uuid).is_none());
}

#[test]
fn bad_utf8() {
    let raw_datetime = b"\xc3\x28";
    let datetime = parse_timestamp(raw_datetime);
    assert!(datetime.is_none());
}

#[test]
fn missing_dashes() {
    let raw_uuid = b"72aee7fd384249cfa196be874a72ed9c";
    let uuid = parse_uuid(raw_uuid);
    assert!(uuid.is_some());
    assert_eq!(uuid.unwrap(), UUID(152440156471620327380106519705898118556));
}

#[test]
fn non_dashes() {
    let raw_uuid = b"72aee7fd_3842-49cf-a196-be874a72ed9c";
    assert!(parse_uuid(raw_uuid).is_none());
}

#[test]
fn truncated() {
    let raw_uuid = b"72aee7fd-3842-49cf-a196-be874a72ed";
    assert!(parse_uuid(raw_uuid).is_none());
}

#[test]
fn too_long() {
    let raw_uuid = b"72aee7fd-3842-49cf-a196-be874a72ed9c\
                     72aee7fd-3842-49cf-a196-be874a72ed9c";
    assert!(parse_uuid(raw_uuid).is_none());
}

#[test]
fn dash_placement_is_free() {
    // dashes may fall anywhere, even inside a byte pair, in any number
    let base = parse_uuid(b"72aee7fd384249cfa196be874a72ed9c");
    let odd = parse_uuid(b"7-2aee7fd38424-9cfa196be874a72ed9c--");
    assert!(base.is_some());
    assert_eq!(base, odd);
}

#[test]
fn uuid_case_insensitive() {
    let lower = parse_uuid(b"72aee7fd384249cfa196be874a72ed9c");
    let upper = parse_uuid(b"72AEE7FD384249CFA196BE874A72ED9C");
    assert_eq!(lower, upper);
}

#[test]
fn no_match() {
    assert_eq!(parse_message(b"Committed 1 operation(s)."), None);
}

#[test]
fn started_game_id() {
    assert_eq!(
        parse_message(b"Started websocket: GET /game-socket/92829"),
        Some(Message::StartedGameId(92829))
    );
    assert_eq!(
        parse_message(b"Started websocket: GET /game-socket/92829?version=1"),
        Some(Message::StartedGameId(92829))
    );
    assert_eq!(
        parse_message(b"Started websocket: GET /game-socket/92829?version=1&lastSeenIndex=101"),
        Some(Message::StartedGameId(92829))
    );
}

#[test]
fn analytics_id() {
    assert_eq!(
        parse_message(b"Analytics ID: 00000000-0000-0000-0000-000000000001"),
        Some(Message::AnalyticsId(UUID(1)))
    );
    assert_eq!(
        parse_message(b"Analytics ID: b47c855d-48dc-4ac8-814b-b6200d2eac43"),
        Some(Message::AnalyticsId(UUID(0xb47c855d_48dc_4ac8_814b_b6200d2eac43)))
    );
}

#[test]
fn authenticated_as_old_log() {
    assert_eq!(
        parse_message(br#"Client added to client DB: { gameId: 1109643912,#012  clientId: 672,#012  account: #012   { accountId: 'ab0802483d806ed3',#012     displayName: 'John',#012     email: 'john@shmeppy.invalid' },#012  isAdmin: true,#012  log: #012   { debug: [Function: bound debug],#012     info: [Function: bound info],#012     alert: [Function: bound alert],#012     crit: [Function: bound crit],#012     error: [Function: bound error],#012     warning: [Function: bound warning],#012     notice: [Function: bound notice] },#012  socket: #012   WebSocket {#012     domain: null,#012     _events: { close: [Array], error: [Function] },#012     _eventsCount: 2,#012     _maxListeners: undefined,#012     readyState: 1,#012     protocol: '',#012     _binaryType: 'nodebuffer',#012     _closeFrameReceived: false,#012     _closeFrameSent: false,#012     _closeMessage: '',#012     _closeTimer: null,#012     _closeCode: 1006,#012     _extensions: {},#012     _isServer: true,#012     _receiver: #012      Receiver {#012        _writableState: [Object],#012        writable: true,#012        domain: null,#012        _events: [Object],#012        _eventsCount: 6,#012        _maxListeners: undefined,#012        _binaryType: 'nodebuffer',#012        _extensions: {},#012        _maxPayload: 104857600,#012        _bufferedBytes: 0,#012        _buffers: [],#012        _compressed: false,#012        _payloadLength: 40,#012        _mask: <Buffer 43 5c 66 14>,#012        _fragmented: 0,#012        _masked: true,#012        _fin: true,#012        _opcode: 1,#012        _totalPayloadLength: 0,#012        _messageLength: 0,#012        _fragments: [],#012        _state: 0,#012        _loop: false,#012        [Symbol(websocket)]: [Circular] },#012     _sender: #012      Sender {#012        _extensions: {},#012        _socket: [Object],#012        _firstFragment: true,#012        _compress: false,#012        _bufferedBytes: 0,#012        _deflating: false,#012        _queue: [] },#012     _socket: #012      TLSSocket {#012        _tlsOptions: [Object],#012        _secureEstablished: true,#012        _securePending: false,#012        _newSessionPending: false,#012        _controlReleased: true,#012        _SNICallback: null,#012        servername: 'shmeppy.com',#012        npnProtocol: false,#012        alpnProtocol: false,#012        authorized: false,#012        authorizationError: null,#012        encrypted: true,#012        _events: [Object],#012        _eventsCount: 9,#012        connecting: false,#012        _hadError: false,#012        _handle: [Object],#012        _parent: [Object],#012        _host: null,#012        _readableState: [Object],#012        readable: true,#012        domain: null,#012        _maxListeners: undefined,#012        _writableState: [Object],#012        writable: true,#012        allowHalfOpen: false,#012        _bytesDispatched: 180,#012        _sockname: null,#012        _pendingData: null,#012        _pendingEncoding: '',#012        server: [Object],#012        _server: null,#012        ssl: [Object],#012        _requestCert: false,#012        _rejectUnauthorized: true,#012        _idleTimeout: -1,#012        _idleNext: null,#012        _idlePrev: null,#012        _idleStart: 279999795,#012        _destroyed: false,#012        parser: null,#012        on: [Function],#012        _paused: false,#012        [Symbol(asyncId)]: 1953772,#012        [Symbol(bytesRead)]: 0,#012        [Symbol(asyncId)]: 1953774,#012        [Symbol(triggerAsyncId)]: 8,#012        [Symbol(websocket)]: [Circular] },#012     log: #012      { debug: [Function: bound debug],#012        info: [Function: bound info],#012        alert: [Function: bound alert],#012        crit: [Function: bound crit],#012        error: [Function: bound error],#012        warning: [Function: bound warning],#012        notice: [Function: bound notice] } },#012  lastPing: 1555912228425 }"#),
        Some(Message::AuthenticatedAs(0xab0802483d806ed3, true))
    );
}

#[test]
fn authenticated_as() {
    assert_eq!(
        parse_message(br#"Client added to client DB: {"gameId":302078290,"clientId":12681,"account":{"accountId":"df547ed38259c164","displayName":"John"},"isAdmin":false,"initialLastSeenIndex":679,"lastPing":1590637288548}"#),
        Some(Message::AuthenticatedAs(0xdf547ed38259c164, false))
    );
    assert_eq!(
        parse_message(br#"Client added to client DB: {"gameId":302078290,"clientId":12681,"account":{"accountId":77,"displayName":"John"},"isAdmin":false,"initialLastSeenIndex":679,"lastPing":1590637288548}"#),
        None
    );
    assert_eq!(
        parse_message(br#"Client added to client DB: {"gameId":302078290,"clientId":12681,"account":{"accountId":"df547ed38259c164","displayName":"John"},"initialLastSeenIndex":679,"lastPing":1590637288548}"#),
        None
    );
    assert_eq!(parse_message(br#"Client added to client DB: {}"#), None);
    assert_eq!(parse_message(br#"Client added to client DB: "#), None);
}

#[test]
fn finished() {
    assert_eq!(parse_message(b"Finished websocket: 1005 ''"), Some(Message::Finished));
    assert_eq!(parse_message(b"Finished: 200 'OK'"), Some(Message::Finished));
    assert_eq!(
        parse_message(b"Waiting for client to complete closing handshake."),
        Some(Message::Finished)
    );
}

#[test]
fn typical_false() {
    let old_style_log = br#"{ gameId: 359005014,#012  clientId: 907,#012  account: #012   { accountId: 'fd7b99d56feb5a50',#012     displayName: 'John',#012     email: 'test@shmeppy.invalid' },#012  isAdmin: false,#012  log: #012   { debug: [Function: bound debug],#012     info: [Function: bound info],#012     alert: [Function: bound alert],#012     crit: [Function: bound crit],#012     error: [Function: bound error],#012     warning: [Function: bound warning],#012     notice: [Function: bound notice] },#012  socket: #012   WebSocket {#012     domain: null,#012     _events: { close: [Array], error: [Function] },#012     _eventsCount: 2,#012     _maxListeners: undefined,#012     readyState: 1,#012     protocol: '',#012     _binaryType: 'nodebuffer',#012     _closeFrameReceived: false,#012     _closeFrameSent: false,#012     _closeMessage: '',#012     _closeTimer: null,#012     _closeCode: 1006,#012     _extensions: {},#012     _isServer: true,#012     _receiver: #012      Receiver {#012        _writableState: [Object],#012        writable: true,#012        domain: null,#012        _events: [Object],#012        _eventsCount: 6,#012        _maxListeners: undefined,#012        _binaryType: 'nodebuffer',#012        _extensions: {},#012        _maxPayload: 104857600,#012        _bufferedBytes: 0,#012        _buffers: [],#012        _compressed: false,#012        _payloadLength: 40,#012        _mask: <Buffer 6f 08 94 34>,#012        _fragmented: 0,#012        _masked: true,#012        _fin: true,#012        _opcode: 1,#012        _totalPayloadLength: 0,#012        _messageLength: 0,#012        _fragments: [],#012        _state: 0,#012        _loop: false,#012        [Symbol(websocket)]: [Circular] },#012     _sender: #012      Sender {#012        _extensions: {},#012        _socket: [Object],#012        _firstFragment: true,#012        _compress: false,#012        _bufferedBytes: 0,#012        _deflating: false,#012        _queue: [] },#012     _socket: #012      TLSSocket {#012        _tlsOptions: [Object],#012        _secureEstablished: true,#012        _securePending: false,#012        _newSessionPending: false,#012        _controlReleased: true,#012        _SNICallback: null,#012        servername: 'shmeppy.com',#012        npnProtocol: false,#012        alpnProtocol: false,#012        authorized: false,#012        authorizationError: null,#012        encrypted: true,#012        _events: [Object],#012        _eventsCount: 9,#012        connecting: false,#012        _hadError: false,#012        _handle: [Object],#012        _parent: [Object],#012        _host: null,#012        _readableState: [Object],#012        readable: true,#012        domain: null,#012        _maxListeners: undefined,#012        _writableState: [Object],#012        writable: true,#012        allowHalfOpen: false,#012        _bytesDispatched: 180,#012        _sockname: null,#012        _pendingData: null,#012        _pendingEncoding: '',#012        server: [Object],#012        _server: null,#012        ssl: [Object],#012        _requestCert: false,#012        _rejectUnauthorized: true,#012        _idleTimeout: -1,#012        _idleNext: null,#012        _idlePrev: null,#012        _idleStart: 1145905219,#012        _destroyed: false,#012        parser: null,#012        on: [Function],#012        _paused: false,#012        [Symbol(asyncId)]: 8927446,#012        [Symbol(bytesRead)]: 0,#012        [Symbol(asyncId)]: 8927447,#012        [Symbol(triggerAsyncId)]: 8,#012        [Symbol(websocket)]: [Circular] },#012     log: #012      { debug: [Function: bound debug],#012        info: [Function: bound info],#012        alert: [Function: bound alert],#012        crit: [Function: bound crit],#012        error: [Function: bound error],#012        warning: [Function: bound warning],#012        notice: [Function: bound notice] } },#012  lastPing: 1558966491296 }"#;
    assert_eq!(extract_is_admin_from_old_log(old_style_log), Some(false));
}

#[test]
fn typical_true() {
    let old_style_log = br#"{ gameId: 359005014,#012  clientId: 907,#012  account: #012   { accountId: 'fd7b99d56feb5a50',#012     displayName: 'John',#012     email: 'test@shmeppy.invalid' },#012  isAdmin: true,#012  log: #012   { debug: [Function: bound debug],#012     info: [Function: bound info],#012     alert: [Function: bound alert],#012     crit: [Function: bound crit],#012     error: [Function: bound error],#012     warning: [Function: bound warning],#012     notice: [Function: bound notice] },#012  socket: #012   WebSocket {#012     domain: null,#012     _events: { close: [Array], error: [Function] },#012     _eventsCount: 2,#012     _maxListeners: undefined,#012     readyState: 1,#012     protocol: '',#012     _binaryType: 'nodebuffer',#012     _closeFrameReceived: false,#012     _closeFrameSent: false,#012     _closeMessage: '',#012     _closeTimer: null,#012     _closeCode: 1006,#012     _extensions: {},#012     _isServer: true,#012     _receiver: #012      Receiver {#012        _writableState: [Object],#012        writable: true,#012        domain: null,#012        _events: [Object],#012        _eventsCount: 6,#012        _maxListeners: undefined,#012        _binaryType: 'nodebuffer',#012        _extensions: {},#012        _maxPayload: 104857600,#012        _bufferedBytes: 0,#012        _buffers: [],#012        _compressed: false,#012        _payloadLength: 40,#012        _mask: <Buffer 6f 08 94 34>,#012        _fragmented: 0,#012        _masked: true,#012        _fin: true,#012        _opcode: 1,#012        _totalPayloadLength: 0,#012        _messageLength: 0,#012        _fragments: [],#012        _state: 0,#012        _loop: false,#012        [Symbol(websocket)]: [Circular] },#012     _sender: #012      Sender {#012        _extensions: {},#012        _socket: [Object],#012        _firstFragment: true,#012        _compress: false,#012        _bufferedBytes: 0,#012        _deflating: false,#012        _queue: [] },#012     _socket: #012      TLSSocket {#012        _tlsOptions: [Object],#012        _secureEstablished: true,#012        _securePending: false,#012        _newSessionPending: false,#012        _controlReleased: true,#012        _SNICallback: null,#012        servername: 'shmeppy.com',#012        npnProtocol: false,#012        alpnProtocol: false,#012        authorized: false,#012        authorizationError: null,#012        encrypted: true,#012        _events: [Object],#012        _eventsCount: 9,#012        connecting: false,#012        _hadError: false,#012        _handle: [Object],#012        _parent: [Object],#012        _host: null,#012        _readableState: [Object],#012        readable: true,#012        domain: null,#012        _maxListeners: undefined,#012        _writableState: [Object],#012        writable: true,#012        allowHalfOpen: false,#012        _bytesDispatched: 180,#012        _sockname: null,#012        _pendingData: null,#012        _pendingEncoding: '',#012        server: [Object],#012        _server: null,#012        ssl: [Object],#012        _requestCert: false,#012        _rejectUnauthorized: true,#012        _idleTimeout: -1,#012        _idleNext: null,#012        _idlePrev: null,#012        _idleStart: 1145905219,#012        _destroyed: false,#012        parser: null,#012        on: [Function],#012        _paused: false,#012        [Symbol(asyncId)]: 8927446,#012        [Symbol(bytesRead)]: 0,#012        [Symbol(asyncId)]: 8927447,#012        [Symbol(triggerAsyncId)]: 8,#012        [Symbol(websocket)]: [Circular] },#012     log: #012      { debug: [Function: bound debug],#012        info: [Function: bound info],#012        alert: [Function: bound alert],#012        crit: [Function: bound crit],#012        error: [Function: bound error],#012        warning: [Function: bound warning],#012        notice: [Function: bound notice] } },#012  lastPing: 1558966491296 }"#;
    assert_eq!(extract_is_admin_from_old_log(old_style_log), Some(true));
}

#[test]
fn request_missing() {
    // the isAdmin field removed
    let no_admin = br#"{ gameId: 359005014,#012  clientId: 907,#012  account: #012   { accountId: 'fd7b99d56feb5a50',#012     displayName: 'John',#012     email: 'test@shmeppy.invalid' },#012  log: #012   { debug: [Function: bound debug],#012     info: [Function: bound info],#012     alert: [Function: bound alert],#012     crit: [Function: bound crit],#012     error: [Function: bound error],#012     warning: [Function: bound warning],#012     notice: [Function: bound notice] },#012  socket: #012   WebSocket {#012     domain: null,#012     _events: { close: [Array], error: [Function] },#012     _eventsCount: 2,#012     _maxListeners: undefined,#012     readyState: 1,#012     protocol: '',#012     _binaryType: 'nodebuffer',#012     _closeFrameReceived: false,#012     _closeFrameSent: false,#012     _closeMessage: '',#012     _closeTimer: null,#012     _closeCode: 1006,#012     _extensions: {},#012     _isServer: true,#012     _receiver: #012      Receiver {#012        _writableState: [Object],#012        writable: true,#012        domain: null,#012        _events: [Object],#012        _eventsCount: 6,#012        _maxListeners: undefined,#012        _binaryType: 'nodebuffer',#012        _extensions: {},#012        _maxPayload: 104857600,#012        _bufferedBytes: 0,#012        _buffers: [],#012        _compressed: false,#012        _payloadLength: 40,#012        _mask: <Buffer 6f 08 94 34>,#012        _fragmented: 0,#012        _masked: true,#012        _fin: true,#012        _opcode: 1,#012        _totalPayloadLength: 0,#012        _messageLength: 0,#012        _fragments: [],#012        _state: 0,#012        _loop: false,#012        [Symbol(websocket)]: [Circular] },#012     _sender: #012      Sender {#012        _extensions: {},#012        _socket: [Object],#012        _firstFragment: true,#012        _compress: false,#012        _bufferedBytes: 0,#012        _deflating: false,#012        _queue: [] },#012     _socket: #012      TLSSocket {#012        _tlsOptions: [Object],#012        _secureEstablished: true,#012        _securePending: false,#012        _newSessionPending: false,#012        _controlReleased: true,#012        _SNICallback: null,#012        servername: 'shmeppy.com',#012        npnProtocol: false,#012        alpnProtocol: false,#012        authorized: false,#012        authorizationError: null,#012        encrypted: true,#012        _events: [Object],#012        _eventsCount: 9,#012        connecting: false,#012        _hadError: false,#012        _handle: [Object],#012        _parent: [Object],#012        _host: null,#012        _readableState: [Object],#012        readable: true,#012        domain: null,#012        _maxListeners: undefined,#012        _writableState: [Object],#012        writable: true,#012        allowHalfOpen: false,#012        _bytesDispatched: 180,#012        _sockname: null,#012        _pendingData: null,#012        _pendingEncoding: '',#012        server: [Object],#012        _server: null,#012        ssl: [Object],#012        _requestCert: false,#012        _rejectUnauthorized: true,#012        _idleTimeout: -1,#012        _idleNext: null,#012        _idlePrev: null,#012        _idleStart: 1145905219,#012        _destroyed: false,#012        parser: null,#012        on: [Function],#012        _paused: false,#012        [Symbol(asyncId)]: 8927446,#012        [Symbol(bytesRead)]: 0,#012        [Symbol(asyncId)]: 8927447,#012        [Symbol(triggerAsyncId)]: 8,#012        [Symbol(websocket)]: [Circular] },#012     log: #012      { debug: [Function: bound debug],#012        info: [Function: bound info],#012        alert: [Function: bound alert],#012        crit: [Function: bound crit],#012        error: [Function: bound error],#012        warning: [Function: bound warning],#012        notice: [Function: bound notice] } },#012  lastPing: 1558966491296 }"#;
    assert_eq!(extract_is_admin_from_old_log(no_admin), None);

    // the account id removed
    let no_account = br#"{ gameId: 359005014,#012  clientId: 907,#012  account: #012   { displayName: 'John',#012     email: 'test@shmeppy.invalid' },#012  isAdmin: false,#012  log: #012   { debug: [Function: bound debug],#012     info: [Function: bound info],#012     alert: [Function: bound alert],#012     crit: [Function: bound crit],#012     error: [Function: bound error],#012     warning: [Function: bound warning],#012     notice: [Function: bound notice] },#012  socket: #012   WebSocket {#012     domain: null,#012     _events: { close: [Array], error: [Function] },#012     _eventsCount: 2,#012     _maxListeners: undefined,#012     readyState: 1,#012     protocol: '',#012     _binaryType: 'nodebuffer',#012     _closeFrameReceived: false,#012     _closeFrameSent: false,#012     _closeMessage: '',#012     _closeTimer: null,#012     _closeCode: 1006,#012     _extensions: {},#012     _isServer: true,#012     _receiver: #012      Receiver {#012        _writableState: [Object],#012        writable: true,#012        domain: null,#012        _events: [Object],#012        _eventsCount: 6,#012        _maxListeners: undefined,#012        _binaryType: 'nodebuffer',#012        _extensions: {},#012        _maxPayload: 104857600,#012        _bufferedBytes: 0,#012        _buffers: [],#012        _compressed: false,#012        _payloadLength: 40,#012        _mask: <Buffer 6f 08 94 34>,#012        _fragmented: 0,#012        _masked: true,#012        _fin: true,#012        _opcode: 1,#012        _totalPayloadLength: 0,#012        _messageLength: 0,#012        _fragments: [],#012        _state: 0,#012        _loop: false,#012        [Symbol(websocket)]: [Circular] },#012     _sender: #012      Sender {#012        _extensions: {},#012        _socket: [Object],#012        _firstFragment: true,#012        _compress: false,#012        _bufferedBytes: 0,#012        _deflating: false,#012        _queue: [] },#012     _socket: #012      TLSSocket {#012        _tlsOptions: [Object],#012        _secureEstablished: true,#012        _securePending: false,#012        _newSessionPending: false,#012        _controlReleased: true,#012        _SNICallback: null,#012        servername: 'shmeppy.com',#012        npnProtocol: false,#012        alpnProtocol: false,#012        authorized: false,#012        authorizationError: null,#012        encrypted: true,#012        _events: [Object],#012        _eventsCount: 9,#012        connecting: false,#012        _hadError: false,#012        _handle: [Object],#012        _parent: [Object],#012        _host: null,#012        _readableState: [Object],#012        readable: true,#012        domain: null,#012        _maxListeners: undefined,#012        _writableState: [Object],#012        writable: true,#012        allowHalfOpen: false,#012        _bytesDispatched: 180,#012        _sockname: null,#012        _pendingData: null,#012        _pendingEncoding: '',#012        server: [Object],#012        _server: null,#012        ssl: [Object],#012        _requestCert: false,#012        _rejectUnauthorized: true,#012        _idleTimeout: -1,#012        _idleNext: null,#012        _idlePrev: null,#012        _idleStart: 1145905219,#012        _destroyed: false,#012        parser: null,#012        on: [Function],#012        _paused: false,#012        [Symbol(asyncId)]: 8927446,#012        [Symbol(bytesRead)]: 0,#012        [Symbol(asyncId)]: 8927447,#012        [Symbol(triggerAsyncId)]: 8,#012        [Symbol(websocket)]: [Circular] },#012     log: #012      { debug: [Function: bound debug],#012        info: [Function: bound info],#012        alert: [Function: bound alert],#012        crit: [Function: bound crit],#012        error: [Function: bound error],#012        warning: [Function: bound warning],#012        notice: [Function: bound notice] } },#012  lastPing: 1558966491296 }"#;
    assert_eq!(extract_account_id_from_old_log(no_account), None);
}

#[test]
fn request_empty() {
    assert_eq!(extract_is_admin_from_old_log(b""), None);
    assert_eq!(extract_account_id_from_old_log(b""), None);
    assert_eq!(extract_integer_u8(b""), None);
}

#[test]
fn typical() {
    let old_style_log = br#"{ gameId: 359005014,#012  clientId: 907,#012  account: #012   { accountId: 'fd7b99d56feb5a50',#012     displayName: 'John',#012     email: 'test@shmeppy.invalid' },#012  isAdmin: false,#012  log: #012   { debug: [Function: bound debug],#012     info: [Function: bound info],#012     alert: [Function: bound alert],#012     crit: [Function: bound crit],#012     error: [Function: bound error],#012     warning: [Function: bound warning],#012     notice: [Function: bound notice] },#012  socket: #012   WebSocket {#012     domain: null,#012     _events: { close: [Array], error: [Function] },#012     _eventsCount: 2,#012     _maxListeners: undefined,#012     readyState: 1,#012     protocol: '',#012     _binaryType: 'nodebuffer',#012     _closeFrameReceived: false,#012     _closeFrameSent: false,#012     _closeMessage: '',#012     _closeTimer: null,#012     _closeCode: 1006,#012     _extensions: {},#012     _isServer: true,#012     _receiver: #012      Receiver {#012        _writableState: [Object],#012        writable: true,#012        domain: null,#012        _events: [Object],#012        _eventsCount: 6,#012        _maxListeners: undefined,#012        _binaryType: 'nodebuffer',#012        _extensions: {},#012        _maxPayload: 104857600,#012        _bufferedBytes: 0,#012        _buffers: [],#012        _compressed: false,#012        _payloadLength: 40,#012        _mask: <Buffer 6f 08 94 34>,#012        _fragmented: 0,#012        _masked: true,#012        _fin: true,#012        _opcode: 1,#012        _totalPayloadLength: 0,#012        _messageLength: 0,#012        _fragments: [],#012        _state: 0,#012        _loop: false,#012        [Symbol(websocket)]: [Circular] },#012     _sender: #012      Sender {#012        _extensions: {},#012        _socket: [Object],#012        _firstFragment: true,#012        _compress: false,#012        _bufferedBytes: 0,#012        _deflating: false,#012        _queue: [] },#012     _socket: #012      TLSSocket {#012        _tlsOptions: [Object],#012        _secureEstablished: true,#012        _securePending: false,#012        _newSessionPending: false,#012        _controlReleased: true,#012        _SNICallback: null,#012        servername: 'shmeppy.com',#012        npnProtocol: false,#012        alpnProtocol: false,#012        authorized: false,#012        authorizationError: null,#012        encrypted: true,#012        _events: [Object],#012        _eventsCount: 9,#012        connecting: false,#012        _hadError: false,#012        _handle: [Object],#012        _parent: [Object],#012        _host: null,#012        _readableState: [Object],#012        readable: true,#012        domain: null,#012        _maxListeners: undefined,#012        _writableState: [Object],#012        writable: true,#012        allowHalfOpen: false,#012        _bytesDispatched: 180,#012        _sockname: null,#012        _pendingData: null,#012        _pendingEncoding: '',#012        server: [Object],#012        _server: null,#012        ssl: [Object],#012        _requestCert: false,#012        _rejectUnauthorized: true,#012        _idleTimeout: -1,#012        _idleNext: null,#012        _idlePrev: null,#012        _idleStart: 1145905219,#012        _destroyed: false,#012        parser: null,#012        on: [Function],#012        _paused: false,#012        [Symbol(asyncId)]: 8927446,#012        [Symbol(bytesRead)]: 0,#012        [Symbol(asyncId)]: 8927447,#012        [Symbol(triggerAsyncId)]: 8,#012        [Symbol(websocket)]: [Circular] },#012     log: #012      { debug: [Function: bound debug],#012        info: [Function: bound info],#012        alert: [Function: bound alert],#012        crit: [Function: bound crit],#012        error: [Function: bound error],#012        warning: [Function: bound warning],#012        notice: [Function: bound notice] } },#012  lastPing: 1558966491296 }"#;
    assert_eq!(extract_account_id_from_old_log(old_style_log), Some(0xfd7b99d56feb5a50));
}

#[test]
fn simple_u8() {
    assert_eq!(extract_integer_u8(b"12"), Some(12));
    assert_eq!(extract_integer_u8(b"12 hello"), Some(12));
    assert_eq!(extract_integer_u8(b"0 hello"), Some(0));
    assert_eq!(extract_integer_u8(b"255 hello"), Some(255));
}

#[test]
fn overflow_u8() {
    assert_eq!(extract_integer_u8(b"256 hello"), None);
}

#[test]
fn space_in_front() {
    assert_eq!(extract_integer_u8(b" 12 hello"), None);
}

#[test]
fn extract_integer_u64_values() {
    assert_eq!(extract_integer(b"381468491?version=2"), Some(381468491));
    assert_eq!(extract_integer(b"18446744073709551615"), Some(u64::MAX));
    assert_eq!(extract_integer(b"18446744073709551616"), None);
}

#[test]
fn prefix_present() {
    let text = b"HelloWorld";
    let prefix = b"Hello";
    let result = skip_prefix(prefix, text);
    assert!(result.is_some());
    assert_eq!(result.unwrap(), b"World");
}

#[test]
fn prefix_missing() {
    let text = b"HelloWorld";
    let prefix = b"Goodbye";
    let result = skip_prefix(prefix, text);
    assert!(result.is_none());
}

#[test]
fn empty_prefix() {
    let text = b"HelloWorld";
    let prefix = b"";
    let result = skip_prefix(prefix, text);
    assert!(result.is_some());
    assert_eq!(result.unwrap(), b"HelloWorld");
}

#[test]
fn empty_text() {
    let text = b"";
    let prefix = b"Hello";
    let result = skip_prefix(prefix, text);
    assert!(result.is_none());
}

#[test]
fn empty_both() {
    let text = b"";
    let prefix = b"";
    let result = skip_prefix(prefix, text);
    assert!(result.is_some());
    assert_eq!(result.unwrap(), b"");
}
