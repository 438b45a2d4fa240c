//! The request assembler: folds the decoded messages of the log stream into
//! completed `Request` records, keyed by request identifier.

use vstd::prelude::*;
use vstd::string::StringSliceAdditionalSpecFns;

use crate::bytes::{
    all_hex_any, dec_value, digit_prefix_len, extract_integer, find_subslice, hex_value,
    is_ascii_hex_character, is_hex_char, matches_at, parse_hex_u64, skip_prefix,
};
use crate::lex::Parts;
use crate::ordmap::{map_get, spec_map_set, OrdMap};
use crate::parse::{parse_timestamp, parse_uuid, parsed_timestamp, uuid_of, UUID};

verus! {

pub type GameId = u64;

pub type AccountId = u64;

/// The four message shapes the assembler recognizes.
#[derive(PartialEq, Eq, Structural, Debug, Clone, Copy)]
pub enum Message {
    /// A session started, carrying the path-embedded game id.
    StartedGameId(GameId),
    /// An anonymous analytics identifier.
    AnalyticsId(UUID),
    /// An authenticated account id and its admin flag.
    AuthenticatedAs(AccountId, bool),
    /// A session-end marker (any of three literal shapes).
    Finished,
}

pub open spec fn started_marker() -> Seq<u8> {
    "Started websocket: GET /game-socket/".spec_bytes()
}

pub open spec fn analytics_marker() -> Seq<u8> {
    "Analytics ID: ".spec_bytes()
}

pub open spec fn client_db_marker() -> Seq<u8> {
    "Client added to client DB: ".spec_bytes()
}

pub open spec fn old_log_marker() -> Seq<u8> {
    "{ gameId".spec_bytes()
}

pub open spec fn account_marker() -> Seq<u8> {
    "{ accountId: '".spec_bytes()
}

pub open spec fn admin_marker() -> Seq<u8> {
    "#012  isAdmin: ".spec_bytes()
}

pub open spec fn true_marker() -> Seq<u8> {
    "true".spec_bytes()
}

pub open spec fn false_marker() -> Seq<u8> {
    "false".spec_bytes()
}

pub open spec fn finished_ws_marker() -> Seq<u8> {
    "Finished websocket: ".spec_bytes()
}

pub open spec fn finished_marker() -> Seq<u8> {
    "Finished: ".spec_bytes()
}

pub open spec fn closing_marker() -> Seq<u8> {
    "Waiting for client to complete closing handshake.".spec_bytes()
}

/// Position of the first occurrence of `needle` in `s` at or after `from`;
/// `s.len() + 1` when there is none.
pub open spec fn first_match_from(s: Seq<u8>, needle: Seq<u8>, from: int) -> int
    decreases s.len() - from + 1,
{
    if from < 0 || from > s.len() {
        s.len() as int + 1
    } else if matches_at(s, needle, from) {
        from
    } else {
        first_match_from(s, needle, from + 1)
    }
}

/// `first_match_from` is the first match: in range, a match, nothing before.
pub proof fn lemma_first_match_from(s: Seq<u8>, needle: Seq<u8>, from: int)
    requires
        0 <= from <= s.len() + 1,
    ensures
        from <= first_match_from(s, needle, from) <= s.len() + 1,
        first_match_from(s, needle, from) <= s.len() ==> matches_at(
            s,
            needle,
            first_match_from(s, needle, from),
        ),
        forall|j: int| from <= j < first_match_from(s, needle, from) ==> !matches_at(s, needle, j),
    decreases s.len() - from + 1,
{
    if from <= s.len() && !matches_at(s, needle, from) {
        lemma_first_match_from(s, needle, from + 1);
    }
}

/// First position at or after `from` that does not hold a lower-case hex
/// digit (the length when all the rest are).
pub open spec fn hex_end_from(s: Seq<u8>, from: int) -> int
    decreases s.len() - from,
{
    if from < 0 || from >= s.len() || !is_hex_char(s[from]) {
        from
    } else {
        hex_end_from(s, from + 1)
    }
}

pub proof fn lemma_hex_end_from(s: Seq<u8>, from: int)
    requires
        0 <= from <= s.len(),
    ensures
        from <= hex_end_from(s, from) <= s.len(),
        forall|j: int| from <= j < hex_end_from(s, from) ==> is_hex_char(#[trigger] s[j]),
        hex_end_from(s, from) < s.len() ==> !is_hex_char(s[hex_end_from(s, from)]),
    decreases s.len() - from,
{
    if from < s.len() && is_hex_char(s[from]) {
        lemma_hex_end_from(s, from + 1);
    }
}

/// The account id the legacy free-text log shape carries: the lower-case hex
/// token after the first `{ accountId: '` marker, non-empty and fitting a
/// `u64`.
pub open spec fn old_account_id(s: Seq<u8>) -> Option<AccountId> {
    let m = first_match_from(s, account_marker(), 0);
    if m > s.len() {
        None
    } else {
        let start = m + account_marker().len();
        let end = hex_end_from(s, start);
        let digits = s.subrange(start, end);
        if digits.len() > 0 && hex_value(digits) <= u64::MAX {
            Some(hex_value(digits) as u64)
        } else {
            None
        }
    }
}

/// The admin flag the legacy free-text log shape carries: the literal `true`
/// or `false` right after the first `#012  isAdmin: ` marker.
pub open spec fn old_is_admin(s: Seq<u8>) -> Option<bool> {
    let m = first_match_from(s, admin_marker(), 0);
    if m > s.len() {
        None
    } else {
        let rest = s.skip(m + admin_marker().len());
        if true_marker().is_prefix_of(rest) {
            Some(true)
        } else if false_marker().is_prefix_of(rest) {
            Some(false)
        } else {
            None
        }
    }
}

/// The account id (as the bytes of its hex spelling) and admin flag of the
/// JSON log shape: `account.accountId` (a string) and `isAdmin` (a boolean)
/// of the JSON object, or nothing when the text is not such an object.
pub uninterp spec fn json_auth_of(s: Seq<u8>) -> Option<(Seq<u8>, bool)>;

/// Reads `account.accountId` and `isAdmin` out of an embedded JSON object.
///
/// Relies on `serde_json::from_slice` (parses or rejects the bytes as JSON),
/// `serde_json::Value::get`, `Value::as_str` and `Value::as_bool`: the
/// result is a function of the input bytes alone.
#[verifier::external_body]
fn extract_json_auth(raw: &[u8]) -> (r: Option<(Vec<u8>, bool)>)
    ensures
        match r {
            Some(p) => json_auth_of(raw@) == Some((p.0@, p.1)),
            None => json_auth_of(raw@) is None,
        },
{
    let json: serde_json::Value = match serde_json::from_slice(raw) {
        Ok(v) => v,
        Err(_) => return None,
    };
    let account_id = json.get("account")?.get("accountId")?.as_str()?;
    let is_admin = json.get("isAdmin")?.as_bool()?;
    Some((account_id.as_bytes().to_vec(), is_admin))
}

/// The message a raw message field denotes, if it has one of the four
/// recognized shapes.
pub open spec fn message_of(raw: Seq<u8>) -> Option<Message> {
    if started_marker().is_prefix_of(raw) {
        let rest = raw.skip(started_marker().len() as int);
        let k = digit_prefix_len(rest);
        if k > 0 && dec_value(rest.take(k)) <= u64::MAX {
            Some(Message::StartedGameId(dec_value(rest.take(k)) as u64))
        } else {
            None
        }
    } else if analytics_marker().is_prefix_of(raw) {
        match uuid_of(raw.skip(analytics_marker().len() as int)) {
            Some(v) => Some(Message::AnalyticsId(UUID(v))),
            None => None,
        }
    } else if client_db_marker().is_prefix_of(raw) {
        let rest = raw.skip(client_db_marker().len() as int);
        if old_log_marker().is_prefix_of(rest) {
            match (old_account_id(raw), old_is_admin(raw)) {
                (Some(a), Some(adm)) => Some(Message::AuthenticatedAs(a, adm)),
                _ => None,
            }
        } else {
            match json_auth_of(rest) {
                Some(p) => if p.0.len() > 0 && all_hex_any(p.0) && hex_value(p.0) <= u64::MAX {
                    Some(Message::AuthenticatedAs(hex_value(p.0) as u64, p.1))
                } else {
                    None
                },
                None => None,
            }
        }
    } else if finished_ws_marker().is_prefix_of(raw) || finished_marker().is_prefix_of(raw)
        || closing_marker().is_prefix_of(raw) {
        Some(Message::Finished)
    } else {
        None
    }
}

/// Scans the legacy log shape for its account id.
pub fn extract_account_id_from_old_log(raw: &[u8]) -> (r: Option<AccountId>)
    ensures
        r == old_account_id(raw@),
{
    let marker = "{ accountId: '".as_bytes();
    let m = match find_subslice(raw, marker) {
        Some(m) => m,
        None => {
            proof {
                lemma_first_match_is(raw@, account_marker(), (raw@.len() + 1) as int);
            }
            return None;
        },
    };
    proof {
        lemma_first_match_is(raw@, account_marker(), m as int);
        assert(m + marker@.len() <= raw@.len());
    }
    let n = raw.len();
    let start = m + marker.len();
    let mut end = start;
    while end < n && is_ascii_hex_character(*vstd::slice::slice_index_get(raw, end))
        invariant
            n == raw@.len(),
            start <= end <= raw@.len(),
            forall|j: int| start <= j < end ==> is_hex_char(#[trigger] raw@[j]),
        decreases raw@.len() - end,
    {
        end = end + 1;
    }
    proof {
        lemma_hex_end_is(raw@, start as int, end as int);
    }
    let digits = vstd::slice::slice_subrange(raw, start, end);
    let r = parse_hex_u64(digits);
    proof {
        if r is None {
            assert(digits@.len() == 0 || hex_value(digits@) > u64::MAX) by {
                if digits@.len() > 0 {
                    assert(all_hex_any(digits@));
                }
            }
        }
    }
    r
}

/// An index with the first-match properties is `first_match_from(.., 0)`.
proof fn lemma_first_match_is(s: Seq<u8>, needle: Seq<u8>, found: int)
    requires
        0 <= found <= s.len() + 1,
        found <= s.len() ==> matches_at(s, needle, found),
        forall|j: int| 0 <= j < found ==> !matches_at(s, needle, j),
        found == s.len() + 1 ==> forall|j: int| !matches_at(s, needle, j),
    ensures
        first_match_from(s, needle, 0) == found,
{
    lemma_first_match_from(s, needle, 0);
    let f = first_match_from(s, needle, 0);
    if f < found {
        assert(!matches_at(s, needle, f));
        assert(f <= s.len());
        assert(false);
    }
    if found < f {
        assert(found <= s.len());
        assert(!matches_at(s, needle, found));
        assert(false);
    }
}

/// An index with the hex-run-end properties is `hex_end_from`.
proof fn lemma_hex_end_is(s: Seq<u8>, from: int, found: int)
    requires
        0 <= from <= found <= s.len(),
        forall|j: int| from <= j < found ==> is_hex_char(#[trigger] s[j]),
        found < s.len() ==> !is_hex_char(s[found]),
    ensures
        hex_end_from(s, from) == found,
{
    lemma_hex_end_from(s, from);
    let f = hex_end_from(s, from);
    if f < found {
        assert(is_hex_char(s[f]));
    }
    if found < f {
        assert(is_hex_char(s[found]));
    }
}

/// Scans the legacy log shape for its admin flag.
pub fn extract_is_admin_from_old_log(raw: &[u8]) -> (r: Option<bool>)
    ensures
        r == old_is_admin(raw@),
{
    let marker = "#012  isAdmin: ".as_bytes();
    let m = match find_subslice(raw, marker) {
        Some(m) => m,
        None => {
            proof {
                lemma_first_match_is(raw@, admin_marker(), (raw@.len() + 1) as int);
            }
            return None;
        },
    };
    proof {
        lemma_first_match_is(raw@, admin_marker(), m as int);
        assert(m + marker@.len() <= raw@.len());
    }
    let n = raw.len();
    let cut = vstd::slice::slice_subrange(raw, m + marker.len(), n);
    proof {
        assert(cut@ =~= raw@.skip(m + admin_marker().len()));
    }
    if skip_prefix("true".as_bytes(), cut).is_some() {
        Some(true)
    } else if skip_prefix("false".as_bytes(), cut).is_some() {
        Some(false)
    } else {
        None
    }
}

/// Decodes one message field into the message it denotes, if any.
pub fn parse_message(raw: &[u8]) -> (r: Option<Message>)
    ensures
        r == message_of(raw@),
{
    if let Some(remainder) = skip_prefix("Started websocket: GET /game-socket/".as_bytes(), raw) {
        match extract_integer(remainder) {
            Some(game_id) => Some(Message::StartedGameId(game_id)),
            None => None,
        }
    } else if let Some(remainder) = skip_prefix("Analytics ID: ".as_bytes(), raw) {
        match parse_uuid(remainder) {
            Some(u) => Some(Message::AnalyticsId(u)),
            None => None,
        }
    } else if let Some(remainder) = skip_prefix("Client added to client DB: ".as_bytes(), raw) {
        if skip_prefix("{ gameId".as_bytes(), remainder).is_some() {
            match (extract_account_id_from_old_log(raw), extract_is_admin_from_old_log(raw)) {
                (Some(a), Some(adm)) => Some(Message::AuthenticatedAs(a, adm)),
                _ => None,
            }
        } else {
            match extract_json_auth(remainder) {
                Some((id_bytes, is_admin)) => match parse_hex_u64(id_bytes.as_slice()) {
                    Some(a) => Some(Message::AuthenticatedAs(a, is_admin)),
                    None => None,
                },
                None => None,
            }
        }
    } else if starts_with_any_finished(raw) {
        Some(Message::Finished)
    } else {
        None
    }
}

/// Whether the message is one of the three session-end shapes.
fn starts_with_any_finished(raw: &[u8]) -> (r: bool)
    ensures
        r == (finished_ws_marker().is_prefix_of(raw@) || finished_marker().is_prefix_of(raw@)
            || closing_marker().is_prefix_of(raw@)),
{
    crate::bytes::starts_with(raw, "Finished websocket: ".as_bytes()) || crate::bytes::starts_with(
        raw,
        "Finished: ".as_bytes(),
    ) || crate::bytes::starts_with(
        raw,
        "Waiting for client to complete closing handshake.".as_bytes(),
    )
}

/// Who a request belonged to: an account when one authenticated, else the
/// analytics identity, else anonymous. Ordered for deterministic grouping.
#[derive(PartialEq, Eq, Structural, Debug, Clone, Copy, Hash)]
pub enum UserId {
    AnalyticsId(UUID),
    AccountId(AccountId),
    Anonymous,
}

impl crate::order::KeyOrder for UserId {
    open spec fn le(self, other: Self) -> bool {
        match (self, other) {
            (UserId::AnalyticsId(a), UserId::AnalyticsId(b)) => a.0 <= b.0,
            (UserId::AnalyticsId(_), _) => true,
            (UserId::AccountId(_), UserId::AnalyticsId(_)) => false,
            (UserId::AccountId(a), UserId::AccountId(b)) => a <= b,
            (UserId::AccountId(_), UserId::Anonymous) => true,
            (UserId::Anonymous, UserId::Anonymous) => true,
            (UserId::Anonymous, _) => false,
        }
    }

    proof fn reflexive(x: Self) {
    }

    proof fn transitive(x: Self, y: Self, z: Self) {
    }

    proof fn antisymmetric(x: Self, y: Self) {
    }

    proof fn total(x: Self, y: Self) {
    }

    fn compare(&self, other: &Self) -> (c: crate::order::Cmp) {
        match (self, other) {
            (UserId::AnalyticsId(a), UserId::AnalyticsId(b)) => a.compare(b),
            (UserId::AnalyticsId(_), _) => crate::order::Cmp::Less,
            (UserId::AccountId(_), UserId::AnalyticsId(_)) => crate::order::Cmp::Greater,
            (UserId::AccountId(a), UserId::AccountId(b)) => a.compare(b),
            (UserId::AccountId(_), UserId::Anonymous) => crate::order::Cmp::Less,
            (UserId::Anonymous, UserId::Anonymous) => crate::order::Cmp::Equal,
            (UserId::Anonymous, _) => crate::order::Cmp::Greater,
        }
    }
}

/// One fully reconstructed request.
#[derive(PartialEq, Eq, Structural, Debug, Clone, Copy)]
pub struct Request {
    pub request_id: UUID,
    pub start: i64,
    pub end: i64,
    pub game_id: GameId,
    pub user_id: UserId,
    pub is_admin: bool,
}

/// The mutable accumulator for one request id, with every field optional.
#[derive(Debug, Clone, Copy, PartialEq, Eq, Structural)]
pub struct PartialRequest {
    pub start: Option<i64>,
    pub end: Option<i64>,
    pub game_id: Option<GameId>,
    pub analytics_id: Option<UUID>,
    pub account_id: Option<AccountId>,
    pub is_admin: Option<bool>,
}

impl PartialRequest {
    /// The accumulator with nothing recorded yet.
    pub open spec fn spec_empty() -> PartialRequest {
        PartialRequest {
            start: None,
            end: None,
            game_id: None,
            analytics_id: None,
            account_id: None,
            is_admin: None,
        }
    }

    pub fn empty() -> (r: PartialRequest)
        ensures
            r == PartialRequest::spec_empty(),
    {
        PartialRequest {
            start: None,
            end: None,
            game_id: None,
            analytics_id: None,
            account_id: None,
            is_admin: None,
        }
    }
}

impl Default for PartialRequest {
    fn default() -> (r: PartialRequest)
        ensures
            r == PartialRequest::spec_empty(),
    {
        PartialRequest::empty()
    }
}

/// The user a partial request resolves to: the account id wins over the
/// analytics id; neither means anonymous.
pub open spec fn user_of(p: PartialRequest) -> UserId {
    match (p.account_id, p.analytics_id) {
        (Some(a), _) => UserId::AccountId(a),
        (None, Some(x)) => UserId::AnalyticsId(x),
        _ => UserId::Anonymous,
    }
}

/// The request a partial one finalizes to: exists exactly when start, end,
/// game id and admin flag were all populated.
pub open spec fn spec_from_partial(id: UUID, p: PartialRequest) -> Option<Request> {
    match (p.start, p.end, p.game_id, p.is_admin) {
        (Some(s), Some(e), Some(g), Some(adm)) => Some(
            Request {
                request_id: id,
                start: s,
                end: e,
                game_id: g,
                user_id: user_of(p),
                is_admin: adm,
            },
        ),
        _ => None,
    }
}

impl Request {
    /// Finalizes an accumulator: a `Request` exactly when every required
    /// field was populated, never a half-formed record.
    pub fn from_partial(request_id: UUID, partial: &PartialRequest) -> (r: Option<Request>)
        ensures
            r == spec_from_partial(request_id, *partial),
    {
        match (partial.start, partial.end, partial.game_id, partial.is_admin) {
            (Some(s), Some(e), Some(g), Some(adm)) => Some(
                Request {
                    request_id,
                    start: s,
                    end: e,
                    game_id: g,
                    user_id: match (partial.account_id, partial.analytics_id) {
                        (Some(a), _) => UserId::AccountId(a),
                        (None, Some(x)) => UserId::AnalyticsId(x),
                        _ => UserId::Anonymous,
                    },
                    is_admin: adm,
                },
            ),
            _ => None,
        }
    }
}

/// How one decoded message changes one accumulator.
pub open spec fn apply_message(p: PartialRequest, msg: Message, ts: Seq<u8>) -> PartialRequest {
    match msg {
        Message::StartedGameId(g) => PartialRequest {
            game_id: Some(g),
            start: parsed_timestamp(ts),
            ..p
        },
        Message::AnalyticsId(x) => PartialRequest { analytics_id: Some(x), ..p },
        Message::AuthenticatedAs(a, adm) => PartialRequest {
            account_id: Some(a),
            is_admin: Some(adm),
            ..p
        },
        Message::Finished => if p.end is None {
            PartialRequest { end: parsed_timestamp(ts), ..p }
        } else {
            p
        },
    }
}

/// How one lexed line changes the whole keyed state: a `Started` message
/// resets its id's accumulator first; any other message for an unknown id is
/// dropped; undecodable fields leave the state unchanged.
pub open spec fn collector_step(
    m: Seq<(UUID, PartialRequest)>,
    uuid_b: Seq<u8>,
    ts_b: Seq<u8>,
    msg_b: Seq<u8>,
) -> Seq<(UUID, PartialRequest)> {
    match (message_of(msg_b), uuid_of(uuid_b)) {
        (Some(msg), Some(v)) => {
            let id = UUID(v);
            match msg {
                Message::StartedGameId(_) => spec_map_set(
                    m,
                    id,
                    apply_message(PartialRequest::spec_empty(), msg, ts_b),
                ),
                _ => match map_get(m, id) {
                    Some(p) => spec_map_set(m, id, apply_message(p, msg, ts_b)),
                    None => m,
                },
            }
        },
        _ => m,
    }
}

/// Whether a lexed line changes the keyed state at all (both fields decode,
/// and the id is known or the message starts it).
pub open spec fn collector_step_applies(
    m: Seq<(UUID, PartialRequest)>,
    uuid_b: Seq<u8>,
    msg_b: Seq<u8>,
) -> bool {
    match (message_of(msg_b), uuid_of(uuid_b)) {
        (Some(msg), Some(v)) => msg is StartedGameId || map_get(m, UUID(v)) is Some,
        _ => false,
    }
}

/// The requests the final state finalizes to, in key order.
pub open spec fn requests_of(s: Seq<(UUID, PartialRequest)>) -> Seq<Request>
    decreases s.len(),
{
    if s.len() == 0 {
        Seq::empty()
    } else {
        requests_of(s.drop_last()) + match spec_from_partial(s.last().0, s.last().1) {
            Some(r) => seq![r],
            None => Seq::empty(),
        }
    }
}

/// The keyed state machine that folds decoded messages into completed
/// requests.
pub struct RequestCollector {
    pub partial_requests: OrdMap<UUID, PartialRequest>,
}

/// Every recorded instant stays within chrono's timestamp range.
pub open spec fn partials_bounded(s: Seq<(UUID, PartialRequest)>) -> bool {
    forall|i: int|
        0 <= i < s.len() ==> (match (#[trigger] s[i]).1.start {
            Some(t) => -crate::parse::MAX_TIMESTAMP <= t <= crate::parse::MAX_TIMESTAMP,
            None => true,
        }) && (match s[i].1.end {
            Some(t) => -crate::parse::MAX_TIMESTAMP <= t <= crate::parse::MAX_TIMESTAMP,
            None => true,
        })
}

impl RequestCollector {
    pub open spec fn wf(self) -> bool {
        self.partial_requests.wf() && partials_bounded(self.state())
    }

    /// The keyed state, as the sorted entry sequence.
    pub open spec fn state(self) -> Seq<(UUID, PartialRequest)> {
        self.partial_requests.entries@
    }

    pub fn new() -> (r: RequestCollector)
        ensures
            r.wf(),
            r.state() =~= Seq::<(UUID, PartialRequest)>::empty(),
    {
        RequestCollector { partial_requests: OrdMap::new() }
    }

    /// Feeds one lexed line into the state machine. Returns `Some(())`
    /// exactly when the line changed the state.
    pub fn update(&mut self, parts: &Parts) -> (r: Option<()>)
        requires
            old(self).wf(),
        ensures
            final(self).wf(),
            final(self).state() == collector_step(
                old(self).state(),
                parts.uuid@,
                parts.timestamp@,
                parts.message@,
            ),
            r is Some <==> collector_step_applies(old(self).state(), parts.uuid@, parts.message@),
    {
        let ghost olds = self.state();
        let message = match parse_message(parts.message) {
            Some(m) => m,
            None => {
                return None;
            },
        };
        let uuid = match parse_uuid(parts.uuid) {
            Some(u) => u,
            None => {
                return None;
            },
        };
        proof {
            crate::ordmap::lemma_map_get_index(olds, uuid);
        }
        let is_start = match message {
            Message::StartedGameId(_) => true,
            _ => false,
        };
        if is_start {
            let fresh = apply_message_exec(PartialRequest::empty(), message, parts.timestamp);
            self.partial_requests.set(uuid, fresh);
            proof {
                lemma_partial_set_bounded(olds, uuid, fresh);
            }
            return Some(());
        }
        let partial = match self.partial_requests.get(&uuid) {
            Some(p) => *p,
            None => {
                return None;
            },
        };
        proof {
            assert(map_get(olds, uuid) == Some(partial));
        }
        proof {
            crate::ordmap::lemma_map_get_index(olds, uuid);
            let i = choose|i: int| 0 <= i < olds.len() && olds[i] == (uuid, partial);
            assert(olds[i].1 == partial);
        }
        let updated = apply_message_exec(partial, message, parts.timestamp);
        self.partial_requests.set(uuid, updated);
        proof {
            lemma_partial_set_bounded(olds, uuid, updated);
        }
        Some(())
    }

    /// Finalizes every accumulator: the completed requests, in key order.
    pub fn into_requests(self) -> (r: Vec<Request>)
        requires
            self.wf(),
        ensures
            r@ == requests_of(self.state()),
    {
        let mut out: Vec<Request> = Vec::new();
        let mut i: usize = 0;
        proof {
            assert(self.state().take(0) =~= Seq::<(UUID, PartialRequest)>::empty());
        }
        while i < self.partial_requests.entries.len()
            invariant
                0 <= i <= self.state().len(),
                out@ == requests_of(self.state().take(i as int)),
            decreases self.state().len() - i,
        {
            let entry = &self.partial_requests.entries[i];
            proof {
                let t1 = self.state().take(i + 1);
                assert(t1.drop_last() =~= self.state().take(i as int));
                assert(t1.last() == self.state()[i as int]);
            }
            match Request::from_partial(entry.0, &entry.1) {
                Some(req) => {
                    out.push(req);
                    proof {
                        assert(out@ =~= requests_of(self.state().take(i as int)) + seq![req]);
                    }
                },
                None => {
                    proof {
                        assert(out@ + Seq::<Request>::empty() =~= out@);
                    }
                },
            }
            i = i + 1;
        }
        proof {
            assert(self.state().take(self.state().len() as int) =~= self.state());
        }
        out
    }

    /// The game id recorded so far for a request id, if any.
    pub fn game_id_for_request(&self, request_id: UUID) -> (r: Option<GameId>)
        requires
            self.wf(),
        ensures
            r == match map_get(self.state(), request_id) {
                Some(p) => p.game_id,
                None => None::<GameId>,
            },
    {
        proof {
            crate::ordmap::lemma_map_get_index(self.state(), request_id);
        }
        match self.partial_requests.get(&request_id) {
            Some(p) => p.game_id,
            None => None,
        }
    }
}

/// Applies one decoded message to one accumulator.
fn apply_message_exec(p: PartialRequest, msg: Message, ts: &[u8]) -> (r: PartialRequest)
    ensures
        r == apply_message(p, msg, ts@),
        ((match p.start {
            Some(t) => -crate::parse::MAX_TIMESTAMP <= t <= crate::parse::MAX_TIMESTAMP,
            None => true,
        }) && (match p.end {
            Some(t) => -crate::parse::MAX_TIMESTAMP <= t <= crate::parse::MAX_TIMESTAMP,
            None => true,
        })) ==> ((match r.start {
            Some(t) => -crate::parse::MAX_TIMESTAMP <= t <= crate::parse::MAX_TIMESTAMP,
            None => true,
        }) && (match r.end {
            Some(t) => -crate::parse::MAX_TIMESTAMP <= t <= crate::parse::MAX_TIMESTAMP,
            None => true,
        })),
{
    match msg {
        Message::StartedGameId(g) => {
            let start = parse_timestamp(ts);
            PartialRequest { game_id: Some(g), start, ..p }
        },
        Message::AnalyticsId(x) => PartialRequest { analytics_id: Some(x), ..p },
        Message::AuthenticatedAs(a, adm) => PartialRequest {
            account_id: Some(a),
            is_admin: Some(adm),
            ..p
        },
        Message::Finished => {
            if p.end.is_none() {
                let end = parse_timestamp(ts);
                PartialRequest { end, ..p }
            } else {
                p
            }
        },
    }
}


/// Writing a partial with bounded instants keeps the whole state bounded.
proof fn lemma_partial_set_bounded(s: Seq<(UUID, PartialRequest)>, key: UUID, value: PartialRequest)
    requires
        partials_bounded(s),
        match value.start {
            Some(t) => -crate::parse::MAX_TIMESTAMP <= t <= crate::parse::MAX_TIMESTAMP,
            None => true,
        },
        match value.end {
            Some(t) => -crate::parse::MAX_TIMESTAMP <= t <= crate::parse::MAX_TIMESTAMP,
            None => true,
        },
    ensures
        partials_bounded(spec_map_set(s, key, value)),
{
    crate::ordmap::lemma_map_set_values(s, key, value);
    let r = spec_map_set(s, key, value);
    assert forall|i: int|
        0 <= i < r.len() implies (match (#[trigger] r[i]).1.start {
        Some(t) => -crate::parse::MAX_TIMESTAMP <= t <= crate::parse::MAX_TIMESTAMP,
        None => true,
    }) && (match r[i].1.end {
        Some(t) => -crate::parse::MAX_TIMESTAMP <= t <= crate::parse::MAX_TIMESTAMP,
        None => true,
    }) by {
        if r[i].1 == value {
        } else {
            let j = choose|j: int| 0 <= j < s.len() && (#[trigger] s[j]).1 == r[i].1;
        }
    }
}

impl RequestCollector {
    /// The game id recorded so far for every request id, as one lookup map.
    pub fn game_ids(&self) -> (r: OrdMap<UUID, GameId>)
        requires
            self.wf(),
        ensures
            r.wf(),
            forall|u: UUID|
                #[trigger] map_get(r.entries@, u) == (match map_get(self.state(), u) {
                    Some(p) => p.game_id,
                    None => None::<GameId>,
                }),
    {
        let ghost st = self.state();
        let mut r: OrdMap<UUID, GameId> = OrdMap::new();
        let mut i: usize = 0;
        proof {
            assert(st.take(0) =~= Seq::<(UUID, PartialRequest)>::empty());
            assert forall|u: UUID|
                #[trigger] map_get(r.entries@, u) == (match map_get(st.take(0), u) {
                Some(p) => p.game_id,
                None => None::<GameId>,
            }) by {}
        }
        while i < self.partial_requests.entries.len()
            invariant
                0 <= i <= st.len(),
                st == self.state(),
                self.wf(),
                r.wf(),
                forall|u: UUID|
                    #[trigger] map_get(r.entries@, u) == (match map_get(st.take(i as int), u) {
                        Some(p) => p.game_id,
                        None => None::<GameId>,
                    }),
            decreases st.len() - i,
        {
            let entry = &self.partial_requests.entries[i];
            let ghost prev = r.entries@;
            proof {
                assert(st[i as int] == (entry.0, entry.1));
                assert(st.take(i + 1).drop_last() =~= st.take(i as int));
                assert(st.take(i + 1).last() == st[i as int]);
            }
            match entry.1.game_id {
                Some(g) => {
                    r.set(entry.0, g);
                    proof {
                        assert forall|u: UUID|
                            #[trigger] map_get(r.entries@, u) == (match map_get(
                            st.take(i + 1),
                            u,
                        ) {
                            Some(p) => p.game_id,
                            None => None::<GameId>,
                        }) by {
                            crate::ordmap::lemma_map_set_get(prev, st[i as int].0, g, u);
                            lemma_map_get_extend(st, i as int, u);
                            assert(map_get(prev, u) == (match map_get(st.take(i as int), u) {
                                Some(p) => p.game_id,
                                None => None::<GameId>,
                            }));
                            assert(r.entries@ == crate::ordmap::spec_map_set(
                                prev,
                                st[i as int].0,
                                g,
                            ));
                            if u == st[i as int].0 {
                                assert(map_get(r.entries@, u) == Some(g));
                                assert(map_get(st.take(i + 1), u) == Some(st[i as int].1));
                                assert(st[i as int].1.game_id == Some(g));
                            } else {
                                assert(map_get(r.entries@, u) == map_get(prev, u));
                                assert(map_get(st.take(i + 1), u) == map_get(st.take(i as int), u));
                            }
                        }
                    }
                },
                None => {
                    proof {
                        assert forall|u: UUID|
                            #[trigger] map_get(r.entries@, u) == (match map_get(
                            st.take(i + 1),
                            u,
                        ) {
                            Some(p) => p.game_id,
                            None => None::<GameId>,
                        }) by {
                            lemma_map_get_extend(st, i as int, u);
                            assert(map_get(prev, u) == (match map_get(st.take(i as int), u) {
                                Some(p) => p.game_id,
                                None => None::<GameId>,
                            }));
                            if u == st[i as int].0 {
                                assert(map_get(st.take(i + 1), u) == Some(st[i as int].1));
                                assert(st[i as int].1.game_id is None);
                                assert(map_get(st.take(i as int), u) is None) by {
                                    crate::ordmap::lemma_map_get_index(st.take(i as int), u);
                                    match map_get(st.take(i as int), u) {
                                        Some(v) => {
                                            let w = choose|w: int|
                                                0 <= w < st.take(i as int).len()
                                                    && #[trigger] st.take(i as int)[w] == (u, v);
                                            assert(st[w] == (u, v));
                                            assert(crate::ordmap::key_lt(st[w].0, st[i as int].0));
                                            assert(false);
                                        },
                                        None => {},
                                    }
                                }
                            } else {
                                assert(map_get(st.take(i + 1), u) == map_get(st.take(i as int), u));
                            }
                        }
                    }
                },
            }
            i = i + 1;
        }
        proof {
            assert(st.take(st.len() as int) =~= st);
        }
        r
    }
}

/// On a key-sorted state, extending a prefix by one entry only adds that
/// entry's lookup.
proof fn lemma_map_get_extend(st: Seq<(UUID, PartialRequest)>, i: int, u: UUID)
    requires
        crate::ordmap::sorted_keys(st),
        0 <= i < st.len(),
    ensures
        u == st[i].0 ==> map_get(st.take(i + 1), u) == Some(st[i].1),
        u != st[i].0 ==> map_get(st.take(i + 1), u) == map_get(st.take(i), u),
{
    let t1 = st.take(i + 1);
    assert(forall|j: int| 0 <= j < t1.len() ==> #[trigger] t1[j] == st[j]);
    assert forall|p: int, q: int|
        0 <= p < q < t1.len() implies crate::ordmap::key_lt(
        #[trigger] t1[p].0,
        #[trigger] t1[q].0,
    ) by {
        assert(t1[p] == st[p]);
        assert(t1[q] == st[q]);
        assert(crate::ordmap::key_lt(st[p].0, st[q].0));
    }
    if u == st[i].0 {
        crate::ordmap::lemma_map_get_at(t1, i);
        assert(t1[i] == st[i]);
    } else {
        assert(t1.last().0 != u);
        crate::ordmap::lemma_map_get_drop_last(t1, u);
        assert(t1.drop_last() =~= st.take(i));
    }
}

/// A request that is still missing its start, end, game id or admin flag
/// never appears in the finalized output, however the messages arrived: the
/// state holds at most one accumulator per id, and finalization emits a
/// record only when every required field is populated.
pub proof fn lemma_finalization_monotonic(s: Seq<(UUID, PartialRequest)>, id: UUID)
    requires
        crate::ordmap::sorted_keys(s),
        match map_get(s, id) {
            Some(p) => spec_from_partial(id, p) is None,
            None => true,
        },
    ensures
        forall|n: int|
            0 <= n < requests_of(s).len() ==> (#[trigger] requests_of(s)[n]).request_id != id,
    decreases s.len(),
{
    if s.len() > 0 {
        let t = s.drop_last();
        assert(forall|j: int| 0 <= j < t.len() ==> #[trigger] t[j] == s[j]);
        assert forall|p: int, q: int|
            0 <= p < q < t.len() implies crate::ordmap::key_lt(
            #[trigger] t[p].0,
            #[trigger] t[q].0,
        ) by {
            assert(t[p] == s[p]);
            assert(t[q] == s[q]);
            assert(crate::ordmap::key_lt(s[p].0, s[q].0));
        }
        if s.last().0 == id {
            crate::ordmap::lemma_map_get_at(s, s.len() - 1);
            assert(map_get(s, id) == Some(s.last().1));
            assert(spec_from_partial(id, s.last().1) is None);
            // the id cannot also sit in the front
            assert forall|j: int| 0 <= j < t.len() implies (#[trigger] t[j]).0 != id by {
                assert(crate::ordmap::key_lt(s[j].0, s[s.len() - 1].0));
            }
            crate::ordmap::lemma_map_get_absent(t, id);
            lemma_finalization_monotonic(t, id);
            assert forall|n: int|
                0 <= n < requests_of(s).len() implies (#[trigger] requests_of(s)[n]).request_id
                != id by {
                if n < requests_of(t).len() {
                    assert(requests_of(s)[n] == requests_of(t)[n]);
                }
            }
        } else {
            crate::ordmap::lemma_map_get_drop_last(s, id);
            lemma_finalization_monotonic(t, id);
            assert forall|n: int|
                0 <= n < requests_of(s).len() implies (#[trigger] requests_of(s)[n]).request_id
                != id by {
                if n < requests_of(t).len() {
                    assert(requests_of(s)[n] == requests_of(t)[n]);
                } else {
                    match spec_from_partial(s.last().0, s.last().1) {
                        Some(req) => {
                            assert(requests_of(s)[n] == req);
                            assert(req.request_id == s.last().0);
                        },
                        None => {
                            assert(false);
                        },
                    }
                }
            }
        }
    }
}

} // verus!
