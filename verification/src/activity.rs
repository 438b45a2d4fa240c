//! The activity tracker: collects the instants at which each request
//! committed work, then pools them per game into windowed activity
//! interval sets — the "game had live activity" signal.

use vstd::prelude::*;
use vstd::string::StringSliceAdditionalSpecFns;

use crate::lex::Parts;
use crate::order::{le_of, sort_vec};
use crate::ordmap::{
    acc_view, bucket_of, lemma_bucket_index, lemma_push_onto_buckets, lemma_push_onto_keys,
    map_get, push_onto_accumulator, seq_has_key, spec_push_onto, OrdMap,
};
use crate::parse::{parse_timestamp, parse_uuid, parsed_timestamp, uuid_of, MAX_TIMESTAMP, UUID};
use crate::request::GameId;
use crate::spanset::{merged, SpanSet, TimeSpan};

verus! {

pub open spec fn activity_prefix() -> Seq<u8> {
    "Committed ".spec_bytes()
}

pub open spec fn activity_suffix() -> Seq<u8> {
    " operation(s).".spec_bytes()
}

/// Whether a message field reports committed operations.
pub open spec fn is_activity_spec(msg: Seq<u8>) -> bool {
    activity_prefix().is_prefix_of(msg) && activity_suffix().is_suffix_of(msg)
}

/// Recognizes the "committed N operation(s)" message shape.
pub fn is_activity_message(msg: &[u8]) -> (r: bool)
    ensures
        r == is_activity_spec(msg@),
{
    crate::bytes::starts_with(msg, "Committed ".as_bytes()) && crate::bytes::ends_with(
        msg,
        " operation(s).".as_bytes(),
    )
}

/// Every instant any bucket holds stays within chrono's timestamp range.
pub open spec fn times_bounded<K>(m: Seq<(K, Seq<i64>)>) -> bool {
    forall|i: int, j: int|
        0 <= i < m.len() && 0 <= j < m[i].1.len() ==> -MAX_TIMESTAMP <= #[trigger] m[i].1[j]
            <= MAX_TIMESTAMP
}

/// How one lexed line changes the tracker: a commit message whose id and
/// timestamp both decode appends the instant to the id's bucket.
pub open spec fn activity_step(
    m: Seq<(UUID, Seq<i64>)>,
    uuid_b: Seq<u8>,
    ts_b: Seq<u8>,
    msg_b: Seq<u8>,
) -> Seq<(UUID, Seq<i64>)> {
    if is_activity_spec(msg_b) {
        match (uuid_of(uuid_b), parsed_timestamp(ts_b)) {
            (Some(v), Some(t)) => spec_push_onto(m, UUID(v), t),
            _ => m,
        }
    } else {
        m
    }
}

/// The instants pooled for game `g`: the concatenation, in id order, of the
/// buckets whose request id resolves to `g`.
pub open spec fn pooled(
    m: Seq<(UUID, Seq<i64>)>,
    games: Seq<(UUID, GameId)>,
    g: GameId,
) -> Seq<i64>
    decreases m.len(),
{
    if m.len() == 0 {
        Seq::empty()
    } else {
        pooled(m.drop_last(), games, g) + if map_get(games, m.last().0) == Some(g) {
            m.last().1
        } else {
            Seq::empty()
        }
    }
}

/// The symmetric activity windows around a list of instants.
pub open spec fn window_spans(ts: Seq<i64>, w: i64) -> Seq<TimeSpan> {
    ts.map_values(
        |t: i64| TimeSpan { start: (t - w / 2) as i64, end: (t + w / 2) as i64 },
    )
}

/// The activity interval set of game `g`: its pooled instants, sorted, each
/// widened to a window, merged into canonical form.
pub open spec fn activity_spans(
    m: Seq<(UUID, Seq<i64>)>,
    games: Seq<(UUID, GameId)>,
    g: GameId,
    w: i64,
) -> Seq<TimeSpan> {
    merged(window_spans(pooled(m, games, g).sort_by(le_of::<i64>()), w))
}

/// Collects `(request id, instant)` pairs for every commit message, grouped
/// by id in arrival order.
pub struct ActivityCollector {
    pub active_times: OrdMap<UUID, Vec<i64>>,
}

impl ActivityCollector {
    pub open spec fn wf(self) -> bool {
        self.active_times.wf() && times_bounded(acc_view(self.active_times))
    }

    /// The tracker state: each request id's instants, in arrival order.
    pub open spec fn state(self) -> Seq<(UUID, Seq<i64>)> {
        acc_view(self.active_times)
    }

    pub fn new() -> (r: ActivityCollector)
        ensures
            r.wf(),
            r.state() =~= Seq::<(UUID, Seq<i64>)>::empty(),
    {
        ActivityCollector { active_times: OrdMap::new() }
    }

    /// Feeds one lexed line into the tracker. Returns `Some(())` exactly
    /// when the line was a commit message whose id and timestamp decoded.
    pub fn update(&mut self, parts: &Parts) -> (r: Option<()>)
        requires
            old(self).wf(),
        ensures
            final(self).wf(),
            final(self).state() == activity_step(
                old(self).state(),
                parts.uuid@,
                parts.timestamp@,
                parts.message@,
            ),
            r is Some <==> (is_activity_spec(parts.message@) && uuid_of(parts.uuid@) is Some
                && parsed_timestamp(parts.timestamp@) is Some),
    {
        let ghost olds = self.state();
        if is_activity_message(parts.message) {
            let uuid = match parse_uuid(parts.uuid) {
                Some(u) => u,
                None => {
                    return None;
                },
            };
            let timestamp = match parse_timestamp(parts.timestamp) {
                Some(t) => t,
                None => {
                    return None;
                },
            };
            push_onto_accumulator(&mut self.active_times, uuid, timestamp);
            proof {
                lemma_push_onto_bounded::<UUID>(olds, uuid, timestamp);
            }
            Some(())
        } else {
            None
        }
    }

    /// Resolves each request id to its game, pools the instants per game,
    /// and merges each pool's symmetric windows into one canonical interval
    /// set per game, keyed and ordered by game id.
    pub fn into_spets(self, game_ids: &OrdMap<UUID, GameId>, window_size: i64) -> (r: OrdMap<
        GameId,
        SpanSet,
    >)
        requires
            self.wf(),
            game_ids.wf(),
            0 <= window_size <= 1_000_000_000,
        ensures
            r.wf(),
            forall|i: int| 0 <= i < r.entries@.len() ==> (#[trigger] r.entries@[i]).1.wf(),
            forall|i: int|
                0 <= i < r.entries@.len() ==> (#[trigger] r.entries@[i]).1.spans@
                    == activity_spans(
                    self.state(),
                    game_ids.entries@,
                    r.entries@[i].0,
                    window_size,
                ),
            forall|g: GameId|
                #[trigger] seq_has_key(r.entries@, g) <==> pooled(
                    self.state(),
                    game_ids.entries@,
                    g,
                ).len() > 0,
    {
        let ghost m = self.state();
        let ghost games = game_ids.entries@;
        let mut by_game: OrdMap<GameId, Vec<i64>> = OrdMap::new();
        let mut i: usize = 0;
        proof {
            assert(m.take(0) =~= Seq::<(UUID, Seq<i64>)>::empty());
            assert forall|g: GameId| #[trigger]
                bucket_of(acc_view(by_game), g) =~= pooled(m.take(0), games, g) by {}
            assert forall|g: GameId| !(#[trigger] seq_has_key(acc_view(by_game), g)) by {
                if seq_has_key(acc_view(by_game), g) {
                    let k = choose|k: int|
                        0 <= k < acc_view(by_game).len() && (#[trigger] acc_view(by_game)[k]).0
                            == g;
                }
            }
        }
        while i < self.active_times.entries.len()
            invariant
                0 <= i <= m.len(),
                m == acc_view(self.active_times),
                self.active_times.wf(),
                times_bounded(m),
                games == game_ids.entries@,
                game_ids.wf(),
                by_game.wf(),
                times_bounded(acc_view(by_game)),
                forall|g: GameId|
                    #[trigger] bucket_of(acc_view(by_game), g) == pooled(
                        m.take(i as int),
                        games,
                        g,
                    ),
                forall|g: GameId|
                    #[trigger] seq_has_key(acc_view(by_game), g) <==> pooled(
                        m.take(i as int),
                        games,
                        g,
                    ).len() > 0,
            decreases m.len() - i,
        {
            let entry = &self.active_times.entries[i];
            let uuid = entry.0;
            proof {
                assert(m[i as int].0 == uuid);
                assert(m[i as int].1 == entry.1@);
            }
            let resolved = game_ids.get(&uuid);
            match resolved {
                Some(gref) => {
                    let game: GameId = *gref;
                    let ghost before = acc_view(by_game);
                    let mut j: usize = 0;
                    while j < entry.1.len()
                        invariant
                            0 <= j <= entry.1@.len(),
                            entry == &self.active_times.entries@[i as int],
                            m == acc_view(self.active_times),
                            self.active_times.wf(),
                            0 <= i < m.len(),
                            m[i as int].1 == entry.1@,
                            times_bounded(m),
                            map_get(games, m[i as int].0) == Some(game),
                            by_game.wf(),
                            times_bounded(acc_view(by_game)),
                            forall|g: GameId|
                                g != game ==> #[trigger] bucket_of(acc_view(by_game), g) == pooled(
                                    m.take(i as int),
                                    games,
                                    g,
                                ),
                            bucket_of(acc_view(by_game), game) == pooled(
                                m.take(i as int),
                                games,
                                game,
                            ) + entry.1@.take(j as int),
                            forall|g: GameId|
                                g != game ==> (#[trigger] seq_has_key(acc_view(by_game), g) <==> pooled(
                                    m.take(i as int),
                                    games,
                                    g,
                                ).len() > 0),
                            seq_has_key(acc_view(by_game), game) <==> (pooled(
                                m.take(i as int),
                                games,
                                game,
                            ).len() + j > 0),
                        decreases entry.1@.len() - j,
                    {
                        let t = entry.1[j];
                        let ghost prev = acc_view(by_game);
                        proof {
                            assert(entry.1@[j as int] == m[i as int].1[j as int]);
                        }
                        push_onto_accumulator(&mut by_game, game, t);
                        proof {
                            lemma_push_onto_bounded::<GameId>(prev, game, t);
                            assert forall|g: GameId|
                                g != game implies #[trigger] bucket_of(acc_view(by_game), g)
                                == pooled(m.take(i as int), games, g) by {
                                lemma_push_onto_buckets(prev, game, t, g);
                            }
                            lemma_push_onto_buckets(prev, game, t, game);
                            assert(bucket_of(acc_view(by_game), game) =~= pooled(
                                m.take(i as int),
                                games,
                                game,
                            ) + entry.1@.take(j + 1));
                            assert forall|g: GameId|
                                g != game implies (#[trigger] seq_has_key(acc_view(by_game), g)
                                <==> pooled(m.take(i as int), games, g).len() > 0) by {
                                lemma_push_onto_keys(prev, game, t, g);
                            }
                            lemma_push_onto_keys(prev, game, t, game);
                        }
                        j = j + 1;
                    }
                    proof {
                        assert(entry.1@.take(entry.1@.len() as int) =~= entry.1@);
                        let t1 = m.take(i + 1);
                        assert(t1.drop_last() =~= m.take(i as int));
                        assert(t1.last() == m[i as int]);
                        assert forall|g: GameId| #[trigger]
                            bucket_of(acc_view(by_game), g) == pooled(
                            m.take(i + 1),
                            games,
                            g,
                        ) by {
                            if g == game {
                                assert(pooled(t1, games, g) == pooled(m.take(i as int), games, g)
                                    + m[i as int].1);
                            } else {
                                assert(pooled(t1, games, g) =~= pooled(
                                    m.take(i as int),
                                    games,
                                    g,
                                ) + Seq::<i64>::empty());
                            }
                        }
                        assert forall|g: GameId| #[trigger]
                            seq_has_key(acc_view(by_game), g) <==> pooled(
                            m.take(i + 1),
                            games,
                            g,
                        ).len() > 0 by {
                            if g == game {
                            } else {
                                assert(pooled(t1, games, g) =~= pooled(
                                    m.take(i as int),
                                    games,
                                    g,
                                ) + Seq::<i64>::empty());
                            }
                        }
                    }
                },
                None => {
                    proof {
                        let t1 = m.take(i + 1);
                        assert(t1.drop_last() =~= m.take(i as int));
                        assert(t1.last() == m[i as int]);
                        assert forall|g: GameId| #[trigger]
                            bucket_of(acc_view(by_game), g) == pooled(
                            m.take(i + 1),
                            games,
                            g,
                        ) by {
                            assert(map_get(games, m[i as int].0) != Some(g));
                            assert(pooled(t1, games, g) =~= pooled(m.take(i as int), games, g)
                                + Seq::<i64>::empty());
                        }
                        assert forall|g: GameId| #[trigger]
                            seq_has_key(acc_view(by_game), g) <==> pooled(
                            m.take(i + 1),
                            games,
                            g,
                        ).len() > 0 by {
                            assert(pooled(t1, games, g) =~= pooled(m.take(i as int), games, g)
                                + Seq::<i64>::empty());
                        }
                    }
                },
            }
            i = i + 1;
        }
        proof {
            assert(m.take(m.len() as int) =~= m);
        }
        // turn each pooled bucket into a canonical windowed interval set
        let half = window_size / 2;
        let mut result: OrdMap<GameId, SpanSet> = OrdMap { entries: Vec::new() };
        let ghost grouped = acc_view(by_game);
        let mut k: usize = 0;
        while k < by_game.entries.len()
            invariant
                0 <= k <= by_game.entries@.len(),
                grouped == acc_view(by_game),
                by_game.wf(),
                times_bounded(grouped),
                games == game_ids.entries@,
                m == acc_view(self.active_times),
                half == window_size / 2,
                0 <= window_size <= 1_000_000_000,
                0 <= half <= 500_000_000,
                forall|g: GameId|
                    #[trigger] bucket_of(grouped, g) == pooled(m, games, g),
                forall|g: GameId|
                    #[trigger] seq_has_key(grouped, g) <==> pooled(m, games, g).len() > 0,
                result.entries@.len() == k,
                forall|n: int|
                    0 <= n < k ==> (#[trigger] result.entries@[n]).0 == by_game.entries@[n].0,
                forall|n: int| 0 <= n < k ==> (#[trigger] result.entries@[n]).1.wf(),
                forall|n: int|
                    0 <= n < k ==> (#[trigger] result.entries@[n]).1.spans@ == activity_spans(
                        m,
                        games,
                        result.entries@[n].0,
                        window_size,
                    ),
            decreases by_game.entries@.len() - k,
        {
            let entry = &by_game.entries[k];
            let game = entry.0;
            let mut times: Vec<i64> = Vec::new();
            let mut j: usize = 0;
            while j < entry.1.len()
                invariant
                    0 <= j <= entry.1@.len(),
                    entry == &by_game.entries@[k as int],
                    0 <= k < by_game.entries@.len(),
                    grouped == acc_view(by_game),
                    times@ =~= entry.1@.take(j as int),
                decreases entry.1@.len() - j,
            {
                times.push(entry.1[j]);
                proof {
                    assert(times@ =~= entry.1@.take(j + 1));
                }
                j = j + 1;
            }
            proof {
                assert(times@ =~= entry.1@);
                lemma_bucket_index(grouped, k as int);
                assert(grouped[k as int].0 == game);
                assert(grouped[k as int].1 == entry.1@);
                assert(bucket_of(grouped, game) == entry.1@);
                assert(times@ == pooled(m, games, game));
            }
            sort_vec(&mut times);
            let ghost sorted_pool = pooled(m, games, game).sort_by(le_of::<i64>());
            proof {
                assert(times@ == sorted_pool);
                assert forall|n: int|
                    0 <= n < times@.len() implies -MAX_TIMESTAMP <= #[trigger] times@[n]
                    <= MAX_TIMESTAMP by {
                    times@.to_multiset_ensures();
                    grouped[k as int].1.to_multiset_ensures();
                    assert(times@.to_multiset().count(times@[n]) > 0);
                    assert(grouped[k as int].1.contains(times@[n]));
                    let w = choose|w: int|
                        0 <= w < grouped[k as int].1.len() && grouped[k as int].1[w] == times@[n];
                    assert(grouped[k as int].1[w] == times@[n]);
                }
            }
            let mut spans: Vec<TimeSpan> = Vec::new();
            let mut j2: usize = 0;
            while j2 < times.len()
                invariant
                    0 <= j2 <= times@.len(),
                    0 <= half <= 500_000_000,
                    forall|n: int|
                        0 <= n < times@.len() ==> -MAX_TIMESTAMP <= #[trigger] times@[n]
                            <= MAX_TIMESTAMP,
                    spans@ =~= window_spans(times@.take(j2 as int), (2 * half) as i64)
                        || spans@ =~= window_spans(times@, (2 * half) as i64).take(j2 as int),
                    spans@.len() == j2,
                    forall|n: int|
                        0 <= n < j2 ==> #[trigger] spans@[n] == (TimeSpan {
                            start: (times@[n] - half) as i64,
                            end: (times@[n] + half) as i64,
                        }),
                decreases times@.len() - j2,
            {
                let t = times[j2];
                spans.push(TimeSpan { start: t - half, end: t + half });
                j2 = j2 + 1;
                proof {
                    assert forall|n: int|
                        0 <= n < j2 implies #[trigger] spans@[n] == (TimeSpan {
                        start: (times@[n] - half) as i64,
                        end: (times@[n] + half) as i64,
                    }) by {}
                    assert(spans@ =~= window_spans(times@, (2 * half) as i64).take(j2 as int))
                        by {
                        assert(((2 * half) as i64) / 2 == half);
                    }
                }
            }
            proof {
                assert(spans@ =~= window_spans(times@, (2 * half) as i64));
            }
            let spet = build_windowed(spans, times, half, window_size, Ghost(sorted_pool));
            let ghost prev_res = result.entries@;
            result.entries.push((game, spet));
            proof {
                assert forall|n: int|
                    0 <= n < k + 1 implies (#[trigger] result.entries@[n]).0
                    == by_game.entries@[n].0 by {
                    if n < k {
                        assert(result.entries@[n] == prev_res[n]);
                    }
                }
            }
            k = k + 1;
        }
        proof {
            assert forall|p: int, q: int|
                0 <= p < q < result.entries@.len() implies crate::ordmap::key_lt(
                #[trigger] result.entries@[p].0,
                #[trigger] result.entries@[q].0,
            ) by {
                assert(result.entries@[p].0 == by_game.entries@[p].0);
                assert(result.entries@[q].0 == by_game.entries@[q].0);
            }
            assert forall|g: GameId| #[trigger]
                seq_has_key(result.entries@, g) <==> pooled(m, games, g).len() > 0 by {
                if seq_has_key(result.entries@, g) {
                    let n = choose|n: int|
                        0 <= n < result.entries@.len() && (#[trigger] result.entries@[n]).0 == g;
                    assert(grouped[n].0 == g);
                    assert(seq_has_key(grouped, g));
                }
                if seq_has_key(grouped, g) {
                    let n = choose|n: int|
                        0 <= n < grouped.len() && (#[trigger] grouped[n]).0 == g;
                    assert(result.entries@[n].0 == g);
                    assert(seq_has_key(result.entries@, g));
                }
            }
        }
        result
    }
}

/// Builds the canonical interval set of one game's sorted pooled instants.
fn build_windowed(
    spans: Vec<TimeSpan>,
    times: Vec<i64>,
    half: i64,
    window_size: i64,
    Ghost(sorted_pool): Ghost<Seq<i64>>,
) -> (r: SpanSet)
    requires
        0 <= half <= 500_000_000,
        half == window_size / 2,
        0 <= window_size,
        2 * half <= window_size,
        times@ == sorted_pool,
        vstd::relations::sorted_by(times@, le_of::<i64>()),
        forall|n: int| 0 <= n < times@.len() ==> -MAX_TIMESTAMP <= #[trigger] times@[n]
            <= MAX_TIMESTAMP,
        spans@ == window_spans(times@, (2 * half) as i64),
    ensures
        r.wf(),
        r.spans@ == merged(window_spans(sorted_pool, window_size)),
{
    proof {
        assert(window_spans(times@, (2 * half) as i64) =~= window_spans(times@, window_size)) by {
            assert(((2 * half) as i64) / 2 == half);
            assert(window_size / 2 == half);
        }
        assert forall|n: int| 0 <= n < spans@.len() implies (#[trigger] spans@[n]).wf() by {
            assert(spans@[n] == window_spans(times@, (2 * half) as i64)[n]);
        }
        assert forall|p: int, q: int|
            0 <= p < q < spans@.len() implies (#[trigger] spans@[p]).start <= (
        #[trigger] spans@[q]).start by {
            assert(le_of::<i64>()(times@[p], times@[q]));
        }
    }
    SpanSet::from_sorted(spans)
}

/// A pushed bounded instant keeps every bucket of any accumulator bounded.
proof fn lemma_push_onto_bounded<K: crate::order::KeyOrder + Copy>(
    s: Seq<(K, Seq<i64>)>,
    key: K,
    value: i64,
)
    requires
        times_bounded(s),
        -MAX_TIMESTAMP <= value <= MAX_TIMESTAMP,
    ensures
        times_bounded(spec_push_onto(s, key, value)),
    decreases s.len(),
{
    let r = spec_push_onto(s, key, value);
    if s.len() == 0 {
        assert(r =~= seq![(key, seq![value])]);
        assert forall|i: int, j: int|
            0 <= i < r.len() && 0 <= j < r[i].1.len() implies -MAX_TIMESTAMP <= #[trigger] r[i].1[j]
            <= MAX_TIMESTAMP by {
            assert(r[i].1 =~= seq![value]);
        }
    } else if key == s[0].0 {
        let r0 = s.update(0, (key, s[0].1.push(value)));
        assert(r == r0);
        assert forall|i: int, j: int|
            0 <= i < r0.len() && 0 <= j < r0[i].1.len() implies -MAX_TIMESTAMP
            <= #[trigger] r0[i].1[j] <= MAX_TIMESTAMP by {
            if i == 0 {
                if j < s[0].1.len() {
                    assert(r0[0].1[j] == s[0].1[j]);
                } else {
                    assert(r0[0].1[j] == value);
                }
            } else {
                assert(r0[i].1[j] == s[i].1[j]);
            }
        }
    } else if crate::ordmap::key_lt(key, s[0].0) {
        let r0 = s.insert(0, (key, seq![value]));
        assert(r == r0);
        assert forall|i: int, j: int|
            0 <= i < r0.len() && 0 <= j < r0[i].1.len() implies -MAX_TIMESTAMP
            <= #[trigger] r0[i].1[j] <= MAX_TIMESTAMP by {
            if i == 0 {
                assert(r0[0].1 =~= seq![value]);
            } else {
                assert(r0[i].1[j] == s[i - 1].1[j]);
            }
        }
    } else {
        let t = s.drop_first();
        assert(forall|m: int| 0 <= m < t.len() ==> #[trigger] t[m] == s[m + 1]);
        assert forall|i: int, j: int|
            0 <= i < t.len() && 0 <= j < t[i].1.len() implies -MAX_TIMESTAMP
            <= #[trigger] t[i].1[j] <= MAX_TIMESTAMP by {
            assert(t[i].1 == s[i + 1].1);
            assert(s[i + 1].1[j] == t[i].1[j]);
        }
        lemma_push_onto_bounded(t, key, value);
        let tail = spec_push_onto(t, key, value);
        let r0 = seq![s[0]] + tail;
        assert(r == r0);
        assert forall|i: int, j: int|
            0 <= i < r0.len() && 0 <= j < r0[i].1.len() implies -MAX_TIMESTAMP
            <= #[trigger] r0[i].1[j] <= MAX_TIMESTAMP by {
            if i == 0 {
                assert(r0[0].1 == s[0].1);
                assert(s[0].1[j] == r0[0].1[j]);
            } else {
                assert(r0[i].1 == tail[i - 1].1);
                assert(tail[i - 1].1[j] == r0[i].1[j]);
            }
        }
    }
}

} // verus!
