//! The convocation detector: per game, the instants where enough users were
//! simultaneously present, confirmed by activity, smoothed, filtered for
//! length, and re-attributed to the users involved, grouped by calendar day.

use vstd::prelude::*;

use crate::order::KeyOrder;
use crate::ordmap::{lemma_map_set_get, map_get, push_onto_accumulator, seq_has_key, OrdMap};
use crate::presence::Presence;
use crate::request::{GameId, UserId};
use crate::spanset::{
    canonical_spans, gaps_closed, lemma_canonical, n_of_k, seq_covers, span_covers, SpanSet,
    TimeSpan,
};

verus! {

/// The tunables of convocation detection; different deployments use
/// different values.
pub struct ConvokerConfig {
    /// How many users must be present at once (at least 1).
    pub threshold: usize,
    /// Gaps shorter than this (seconds) close before length filtering;
    /// zero closes nothing.
    pub close_gap_before: i64,
    /// Windows shorter than this (seconds) are dropped as noise.
    pub min_length: i64,
    /// Gaps shorter than this (seconds) close after length filtering.
    pub close_gap_after: i64,
}

/// One detected session: a window during which at least the threshold of
/// users were verifiably active together in one game, with the users split
/// into admins and plain players.
pub struct Convocation {
    pub game_id: GameId,
    pub during: TimeSpan,
    pub admins: Vec<UserId>,
    pub players: Vec<UserId>,
}

/// How many of the span sequences cover sample point `p`.
pub open spec fn count_spans(ss: Seq<Seq<TimeSpan>>, p: int) -> int
    decreases ss.len(),
{
    if ss.len() == 0 {
        0int
    } else {
        count_spans(ss.drop_last(), p) + if seq_covers(ss.last(), p) {
            1int
        } else {
            0int
        }
    }
}

/// The interval sets of a game's presences.
pub open spec fn spans_list(ps: Seq<Presence>) -> Seq<Seq<TimeSpan>> {
    ps.map_values(|q: Presence| q.spans.spans@)
}

/// Whether sample point `p` is covered by at least `threshold` of the
/// presences and by the game's activity set.
pub open spec fn base_cov(
    ps: Seq<Presence>,
    activity: Option<SpanSet>,
    threshold: int,
    p: int,
) -> bool {
    count_spans(spans_list(ps), p) >= threshold && match activity {
        Some(a) => a.covers(p),
        None => false,
    }
}

/// The noise-smoothing passes over the raw overlap windows: close small
/// gaps, drop short windows, close larger gaps.
pub open spec fn refine(s: Seq<TimeSpan>, cfg: ConvokerConfig) -> Seq<TimeSpan> {
    gaps_closed(
        gaps_closed(s, cfg.close_gap_before as int).filter(
            |sp: TimeSpan| sp.end - sp.start >= cfg.min_length,
        ),
        cfg.close_gap_after as int,
    )
}

/// The convocation windows of one game: the instants where at least the
/// threshold of its presences overlap, cut to its activity set, smoothed.
pub open spec fn windows_spec(
    ps: Seq<Presence>,
    activity: Option<SpanSet>,
    cfg: ConvokerConfig,
) -> Seq<TimeSpan> {
    refine(
        canonical_spans(|p: int| base_cov(ps, activity, cfg.threshold as int, p)),
        cfg,
    )
}

/// Whether an interval set shares an instant with the window.
pub open spec fn intersects(spansq: Seq<TimeSpan>, w: TimeSpan) -> bool {
    exists|p: int| #[trigger] seq_covers(spansq, p) && span_covers(w, p)
}

/// Whether `u` is an admin of the window: some admin-flagged presence of the
/// user touches it.
pub open spec fn admin_in(ps: Seq<Presence>, w: TimeSpan, u: UserId) -> bool {
    exists|i: int|
        0 <= i < ps.len() && (#[trigger] ps[i]).is_admin && ps[i].user_id == u && intersects(
            ps[i].spans.spans@,
            w,
        )
}

/// Whether `u` is a plain player of the window: present but never an admin.
pub open spec fn player_in(ps: Seq<Presence>, w: TimeSpan, u: UserId) -> bool {
    (exists|i: int|
        0 <= i < ps.len() && !(#[trigger] ps[i]).is_admin && ps[i].user_id == u && intersects(
            ps[i].spans.spans@,
            w,
        )) && !admin_in(ps, w, u)
}

/// The calendar day (UTC) an instant falls in, as days since the epoch.
pub open spec fn day_number(ts: int) -> int {
    ts / 86400
}

/// Every presence's interval set is well-formed.
pub open spec fn presences_wf(ps: Seq<Presence>) -> bool {
    forall|i: int| 0 <= i < ps.len() ==> (#[trigger] ps[i]).spans.wf()
}

/// The convocation windows of one game, as the canonical interval set.
pub fn game_convocation_windows(
    presences: &Vec<Presence>,
    activity: Option<&SpanSet>,
    config: &ConvokerConfig,
) -> (r: SpanSet)
    requires
        config.threshold >= 1,
        presences_wf(presences@),
        match activity {
            Some(a) => a.wf(),
            None => true,
        },
    ensures
        r.wf(),
        r.spans@ == windows_spec(
            presences@,
            match activity {
                Some(a) => Some(*a),
                None => None,
            },
            *config,
        ),
{
    let ghost act = match activity {
        Some(a) => Some(*a),
        None => None::<SpanSet>,
    };
    let mut sets: Vec<SpanSet> = Vec::new();
    let mut i: usize = 0;
    while i < presences.len()
        invariant
            0 <= i <= presences@.len(),
            presences_wf(presences@),
            sets@.len() == i,
            forall|n: int| 0 <= n < i ==> (#[trigger] sets@[n]).wf(),
            forall|n: int| 0 <= n < i ==> (#[trigger] sets@[n]).spans@ == presences@[n].spans.spans@,
        decreases presences@.len() - i,
    {
        let p = &presences[i];
        let mut spans: Vec<TimeSpan> = Vec::new();
        let mut j: usize = 0;
        while j < p.spans.spans.len()
            invariant
                0 <= j <= p.spans.spans@.len(),
                p == &presences@[i as int],
                0 <= i < presences@.len(),
                spans@ =~= p.spans.spans@.take(j as int),
            decreases p.spans.spans@.len() - j,
        {
            spans.push(p.spans.spans[j]);
            proof {
                assert(spans@ =~= p.spans.spans@.take(j + 1));
            }
            j = j + 1;
        }
        proof {
            assert(spans@ =~= p.spans.spans@);
        }
        sets.push(SpanSet { spans });
        i = i + 1;
    }
    let base = n_of_k(config.threshold, &sets);
    let cut = match activity {
        Some(a) => base.intersection(a),
        None => SpanSet::empty(),
    };
    proof {
        lemma_count_spans_eq(sets@, spans_list(presences@));
        assert forall|p: int|
            #[trigger] seq_covers(cut.spans@, p) == base_cov(
            presences@,
            act,
            config.threshold as int,
            p,
        ) by {
            assert(cut.covers(p) == seq_covers(cut.spans@, p));
        }
        lemma_canonical(
            cut.spans@,
            |p: int| base_cov(presences@, act, config.threshold as int, p),
        );
    }
    let smoothed = cut.close_gaps(config.close_gap_before);
    let long = smoothed.drop_short(config.min_length);
    let joined = long.close_gaps(config.close_gap_after);
    proof {
        assert(joined.spans@ == windows_spec(presences@, act, *config));
    }
    joined
}

/// The per-set and per-sequence coverage counts agree when the sets hold the
/// given sequences.
proof fn lemma_count_spans_eq(sets: Seq<SpanSet>, ss: Seq<Seq<TimeSpan>>)
    requires
        sets.len() == ss.len(),
        forall|n: int| 0 <= n < sets.len() ==> (#[trigger] sets[n]).spans@ == ss[n],
    ensures
        forall|p: int|
            #[trigger] crate::spanset::count_covering(sets, p) == count_spans(ss, p),
    decreases sets.len(),
{
    if sets.len() > 0 {
        assert(forall|n: int|
            0 <= n < sets.drop_last().len() ==> #[trigger] sets.drop_last()[n] == sets[n]);
        assert(forall|n: int|
            0 <= n < ss.drop_last().len() ==> #[trigger] ss.drop_last()[n] == ss[n]);
        lemma_count_spans_eq(sets.drop_last(), ss.drop_last());
        assert(sets.last().spans@ == ss.last()) by {
            assert(sets[sets.len() - 1].spans@ == ss[ss.len() - 1]);
        }
        assert forall|p: int|
            #[trigger] crate::spanset::count_covering(sets, p) == count_spans(ss, p) by {
            assert(crate::spanset::count_covering(sets.drop_last(), p) == count_spans(
                ss.drop_last(),
                p,
            ));
            assert(sets.last().covers(p) == seq_covers(ss.last(), p));
        }
    }
}

/// Splits the users present in the window into admins and plain players:
/// whoever ever held the admin role during the window is an admin; whoever
/// was present and never an admin is a player. Both lists are sorted and
/// duplicate-free.
pub fn attribute_window(presences: &Vec<Presence>, window: TimeSpan) -> (r: (
    Vec<UserId>,
    Vec<UserId>,
))
    requires
        presences_wf(presences@),
        window.wf(),
    ensures
        forall|u: UserId| r.0@.contains(u) <==> admin_in(presences@, window, u),
        forall|u: UserId| r.1@.contains(u) <==> player_in(presences@, window, u),
        forall|p: int, q: int|
            0 <= p < q < r.0@.len() ==> crate::ordmap::key_lt(#[trigger] r.0@[p], #[trigger] r.0@[q]),
        forall|p: int, q: int|
            0 <= p < q < r.1@.len() ==> crate::ordmap::key_lt(#[trigger] r.1@[p], #[trigger] r.1@[q]),
{
    let admins = collect_side(presences, window, true, None);
    let players = collect_side(presences, window, false, Some(&admins));
    proof {
        assert forall|u: UserId| admins@.contains(u) <==> admin_in(presences@, window, u) by {}
    }
    (admins, players)
}

/// Collects, sorted and duplicate-free, the users with a presence of the
/// given role that touches the window; with `excluded` set, users on that
/// (sorted) list are left out.
fn collect_side(
    presences: &Vec<Presence>,
    window: TimeSpan,
    want_admin: bool,
    excluded: Option<&Vec<UserId>>,
) -> (r: Vec<UserId>)
    requires
        presences_wf(presences@),
        window.wf(),
        match excluded {
            Some(e) => forall|p: int, q: int|
                0 <= p < q < e@.len() ==> crate::ordmap::key_lt(#[trigger] e@[p], #[trigger] e@[q]),
            None => true,
        },
    ensures
        forall|u: UserId|
            #[trigger] r@.contains(u) <==> ((exists|i: int|
                0 <= i < presences@.len() && (#[trigger] presences@[i]).is_admin == want_admin
                    && presences@[i].user_id == u && intersects(presences@[i].spans.spans@, window))
                && match excluded {
                Some(e) => !e@.contains(u),
                None => true,
            }),
        forall|p: int, q: int|
            0 <= p < q < r@.len() ==> crate::ordmap::key_lt(#[trigger] r@[p], #[trigger] r@[q]),
{
    let ghost ps = presences@;
    let mut found: OrdMap<UserId, ()> = OrdMap::new();
    let mut window_vec: Vec<TimeSpan> = Vec::new();
    window_vec.push(window);
    proof {
        assert(window_vec@ =~= seq![window]);
    }
    let window_set = SpanSet::from_sorted(window_vec);
    let mut i: usize = 0;
    proof {
        assert forall|u: UserId| map_get(found.entries@, u) is None by {}
    }
    while i < presences.len()
        invariant
            0 <= i <= ps.len(),
            ps == presences@,
            presences_wf(ps),
            window_set.wf(),
            forall|p: int| #[trigger] window_set.covers(p) == span_covers(window, p),
            found.wf(),
            match excluded {
                Some(e) => forall|p: int, q: int|
                    0 <= p < q < e@.len() ==> crate::ordmap::key_lt(
                        #[trigger] e@[p],
                        #[trigger] e@[q],
                    ),
                None => true,
            },
            forall|u: UserId|
                (#[trigger] map_get(found.entries@, u)) is Some <==> ((exists|n: int|
                    0 <= n < i && (#[trigger] ps[n]).is_admin == want_admin && ps[n].user_id == u
                        && intersects(ps[n].spans.spans@, window)) && match excluded {
                    Some(e) => !e@.contains(u),
                    None => true,
                }),
        decreases ps.len() - i,
    {
        let p = &presences[i];
        let role_match = p.is_admin == want_admin;
        let mut touches = false;
        if role_match {
            let inter = p.spans.intersection(&window_set);
            touches = !inter.is_empty();
            proof {
                assert(touches == intersects(ps[i as int].spans.spans@, window)) by {
                    if touches {
                        let q = choose|q: int| #[trigger] inter.covers(q);
                        assert(seq_covers(ps[i as int].spans.spans@, q) && span_covers(window, q));
                    }
                    if intersects(ps[i as int].spans.spans@, window) {
                        let q = choose|q: int|
                            #[trigger] seq_covers(ps[i as int].spans.spans@, q) && span_covers(
                                window,
                                q,
                            );
                        assert(inter.covers(q));
                    }
                }
            }
        }
        let mut skip = false;
        if touches {
            match excluded {
                Some(e) => {
                    if vec_contains_user(e, &p.user_id) {
                        skip = true;
                    }
                },
                None => {},
            }
        }
        if touches && !skip {
            let ghost prevf = found.entries@;
            found.set(p.user_id, ());
            proof {
                assert forall|u: UserId|
                    (#[trigger] map_get(found.entries@, u)) is Some <==> ((exists|n: int|
                        0 <= n < i + 1 && (#[trigger] ps[n]).is_admin == want_admin && ps[n].user_id
                            == u && intersects(ps[n].spans.spans@, window)) && match excluded {
                        Some(e) => !e@.contains(u),
                        None => true,
                    }) by {
                    lemma_map_set_get(prevf, ps[i as int].user_id, (), u);
                }
            }
        } else {
            proof {
                assert forall|u: UserId|
                    (#[trigger] map_get(found.entries@, u)) is Some <==> ((exists|n: int|
                        0 <= n < i + 1 && (#[trigger] ps[n]).is_admin == want_admin && ps[n].user_id
                            == u && intersects(ps[n].spans.spans@, window)) && match excluded {
                        Some(e) => !e@.contains(u),
                        None => true,
                    }) by {
                    if (exists|n: int|
                        0 <= n < i + 1 && (#[trigger] ps[n]).is_admin == want_admin && ps[n].user_id
                            == u && intersects(ps[n].spans.spans@, window)) && match excluded {
                        Some(e) => !e@.contains(u),
                        None => true,
                    } {
                        let n = choose|n: int|
                            0 <= n < i + 1 && (#[trigger] ps[n]).is_admin == want_admin
                                && ps[n].user_id == u && intersects(ps[n].spans.spans@, window);
                        if n == i {
                            assert(false);
                        }
                    }
                }
            }
        }
        i = i + 1;
    }
    // read the sorted keys out
    let mut out: Vec<UserId> = Vec::new();
    let mut k: usize = 0;
    while k < found.entries.len()
        invariant
            0 <= k <= found.entries@.len(),
            found.wf(),
            out@.len() == k,
            forall|n: int| 0 <= n < k ==> (#[trigger] out@[n]) == found.entries@[n].0,
        decreases found.entries@.len() - k,
    {
        out.push(found.entries[k].0);
        k = k + 1;
    }
    proof {
        assert forall|u: UserId|
            #[trigger] out@.contains(u) <==> map_get(found.entries@, u) is Some by {
            crate::ordmap::lemma_map_get_index(found.entries@, u);
            if out@.contains(u) {
                let n = choose|n: int| 0 <= n < out@.len() && out@[n] == u;
                assert(found.entries@[n].0 == u);
                match map_get(found.entries@, u) {
                    Some(v) => {},
                    None => {
                        assert(false);
                    },
                }
            }
            match map_get(found.entries@, u) {
                Some(v) => {
                    let n = choose|n: int|
                        0 <= n < found.entries@.len() && #[trigger] found.entries@[n] == (u, v);
                    assert(out@[n] == u);
                    assert(out@.contains(u));
                },
                None => {},
            }
        }
        assert forall|p: int, q: int|
            0 <= p < q < out@.len() implies crate::ordmap::key_lt(
            #[trigger] out@[p],
            #[trigger] out@[q],
        ) by {
            assert(out@[p] == found.entries@[p].0);
            assert(out@[q] == found.entries@[q].0);
        }
    }
    out
}

/// Whether a sorted user list holds the user.
fn vec_contains_user(v: &Vec<UserId>, u: &UserId) -> (r: bool)
    ensures
        r == v@.contains(*u),
{
    let mut i: usize = 0;
    while i < v.len()
        invariant
            0 <= i <= v@.len(),
            forall|n: int| 0 <= n < i ==> (#[trigger] v@[n]) != *u,
        decreases v@.len() - i,
    {
        let c = v[i].compare(u);
        if let crate::order::Cmp::Equal = c {
            proof {
                assert(v@[i as int] == *u);
            }
            return true;
        }
        i = i + 1;
    }
    proof {
        if v@.contains(*u) {
            let n = choose|n: int| 0 <= n < v@.len() && v@[n] == *u;
        }
    }
    false
}

/// Whether the day-grouped result holds this convocation under this day.
pub open spec fn conv_in(entries: Seq<(i64, Vec<Convocation>)>, day: int, c: Convocation) -> bool {
    exists|n: int, m: int|
        0 <= n < entries.len() && 0 <= m < entries[n].1@.len() && (#[trigger] entries[n].1@[m]) == c
            && entries[n].0 == day
}

/// Whether a convocation is a correctly attributed window of its game.
pub open spec fn conv_sound(
    c: Convocation,
    presences: Seq<(GameId, Vec<Presence>)>,
    activity: Seq<(GameId, SpanSet)>,
    cfg: ConvokerConfig,
) -> bool {
    match map_get(presences, c.game_id) {
        Some(ps) => {
            &&& windows_spec(ps@, map_get(activity, c.game_id), cfg).contains(c.during)
            &&& (forall|u: UserId| c.admins@.contains(u) <==> admin_in(ps@, c.during, u))
            &&& (forall|u: UserId| c.players@.contains(u) <==> player_in(ps@, c.during, u))
            &&& c.admins@.len() > 0
        },
        None => false,
    }
}

/// Detects the convocations of every game and groups them by the calendar
/// day (days since the epoch, UTC) of their start. A window with no admin
/// present is discarded. Every emitted convocation is a correctly attributed
/// window of its game, and every admin-attended window of every game is
/// emitted under its day.
pub fn detect_convocations(
    presences: &OrdMap<GameId, Vec<Presence>>,
    activity: &OrdMap<GameId, SpanSet>,
    config: &ConvokerConfig,
) -> (r: OrdMap<i64, Vec<Convocation>>)
    requires
        config.threshold >= 1,
        presences.wf(),
        activity.wf(),
        forall|n: int, m: int|
            0 <= n < presences.entries@.len() && 0 <= m < presences.entries@[n].1@.len() ==> (
            #[trigger] presences.entries@[n].1@[m]).spans.wf(),
        forall|n: int| 0 <= n < activity.entries@.len() ==> (#[trigger] activity.entries@[n]).1.wf(),
    ensures
        r.wf(),
        convs_distinct(r.entries@),
        forall|n: int, m: int|
            0 <= n < r.entries@.len() && 0 <= m < r.entries@[n].1@.len() ==> conv_sound(
                #[trigger] r.entries@[n].1@[m],
                presences.entries@,
                activity.entries@,
                *config,
            ) && r.entries@[n].0 == day_number(r.entries@[n].1@[m].during.start as int),
        forall|g: GameId, wi: int|
            #[trigger] conv_expected(presences.entries@, activity.entries@, *config, g, wi)
                ==> exists|c: Convocation|
                c.game_id == g && c.during == windows_spec(
                    bucket_or_empty(presences.entries@, g),
                    map_get(activity.entries@, g),
                    *config,
                )[wi] && conv_in(r.entries@, day_number(c.during.start as int), c),
{
    let ghost pres = presences.entries@;
    let ghost act = activity.entries@;
    let mut result: OrdMap<i64, Vec<Convocation>> = OrdMap::new();
    let mut k: usize = 0;
    while k < presences.entries.len()
        invariant
            0 <= k <= pres.len(),
            pres == presences.entries@,
            act == activity.entries@,
            presences.wf(),
            activity.wf(),
            config.threshold >= 1,
            forall|n: int, m: int|
                0 <= n < pres.len() && 0 <= m < pres[n].1@.len() ==> (
                #[trigger] pres[n].1@[m]).spans.wf(),
            forall|n: int| 0 <= n < act.len() ==> (#[trigger] act[n]).1.wf(),
            result.wf(),
            convs_distinct(result.entries@),
            forall|n: int, m: int|
                0 <= n < result.entries@.len() && 0 <= m < result.entries@[n].1@.len()
                    ==> game_index_lt(pres, (#[trigger] result.entries@[n].1@[m]).game_id, k as int),
            forall|n: int, m: int|
                0 <= n < result.entries@.len() && 0 <= m < result.entries@[n].1@.len()
                    ==> conv_sound(#[trigger] result.entries@[n].1@[m], pres, act, *config)
                    && result.entries@[n].0 == day_number(
                    result.entries@[n].1@[m].during.start as int,
                ),
            forall|g: GameId, wi: int|
                (#[trigger] conv_expected(pres, act, *config, g, wi)) && game_index_lt(pres, g, k as int)
                    ==> exists|c: Convocation|
                    c.game_id == g && c.during == windows_spec(
                        bucket_or_empty(pres, g),
                        map_get(act, g),
                        *config,
                    )[wi] && conv_in(result.entries@, day_number(c.during.start as int), c),
        decreases pres.len() - k,
    {
        let entry = &presences.entries[k];
        let game = entry.0;
        let ghost ps = entry.1@;
        proof {
            assert(pres[k as int] == (game, entry.1));
            crate::ordmap::lemma_map_get_at(pres, k as int);
            assert(map_get(pres, game) == Some(pres[k as int].1));
            assert forall|i: int| 0 <= i < ps.len() implies (#[trigger] ps[i]).spans.wf() by {
                assert(pres[k as int].1@[i] == ps[i]);
            }
        }
        let maybe_act = activity.get(&game);
        let windows = match maybe_act {
            Some(a) => {
                proof {
                    crate::ordmap::lemma_map_get_index(act, game);
                    let w = choose|w: int| 0 <= w < act.len() && #[trigger] act[w] == (game, *a);
                    assert(act[w].1.wf());
                }
                game_convocation_windows(&entry.1, Some(a), config)
            },
            None => game_convocation_windows(&entry.1, None, config),
        };
        let ghost wseq = windows.spans@;
        proof {
            assert(wseq == windows_spec(ps, map_get(act, game), *config));
        }
        let mut wi: usize = 0;
        while wi < windows.spans.len()
            invariant
                0 <= wi <= wseq.len(),
                wseq == windows.spans@,
                windows.wf(),
                wseq == windows_spec(ps, map_get(act, game), *config),
                pres == presences.entries@,
                act == activity.entries@,
                presences.wf(),
                activity.wf(),
                config.threshold >= 1,
                0 <= k < pres.len(),
                pres[k as int].0 == game,
                ps == pres[k as int].1@,
                entry == &presences.entries@[k as int],
                entry.1@ == ps,
                entry.0 == game,
                map_get(pres, game) == Some(pres[k as int].1),
                forall|i: int| 0 <= i < ps.len() ==> (#[trigger] ps[i]).spans.wf(),
                forall|n: int, m: int|
                    0 <= n < pres.len() && 0 <= m < pres[n].1@.len() ==> (
                    #[trigger] pres[n].1@[m]).spans.wf(),
                forall|n: int| 0 <= n < act.len() ==> (#[trigger] act[n]).1.wf(),
                result.wf(),
                convs_distinct(result.entries@),
                forall|n: int, m: int|
                    0 <= n < result.entries@.len() && 0 <= m < result.entries@[n].1@.len()
                        ==> game_index_lt(pres, (#[trigger] result.entries@[n].1@[m]).game_id, k as int)
                        || ((#[trigger] result.entries@[n].1@[m]).game_id == game && exists|j: int|
                        0 <= j < wi && wseq[j] == result.entries@[n].1@[m].during),
                forall|n: int, m: int|
                    0 <= n < result.entries@.len() && 0 <= m < result.entries@[n].1@.len()
                        ==> conv_sound(#[trigger] result.entries@[n].1@[m], pres, act, *config)
                        && result.entries@[n].0 == day_number(
                        result.entries@[n].1@[m].during.start as int,
                    ),
                forall|g: GameId, wj: int|
                    (#[trigger] conv_expected(pres, act, *config, g, wj)) && (game_index_lt(
                        pres,
                        g,
                        k as int,
                    ) || (g == game && wj < wi)) ==> exists|c: Convocation|
                        c.game_id == g && c.during == windows_spec(
                            bucket_or_empty(pres, g),
                            map_get(act, g),
                            *config,
                        )[wj] && conv_in(result.entries@, day_number(c.during.start as int), c),
            decreases wseq.len() - wi,
        {
            let w = windows.spans[wi];
            proof {
                assert(wseq[wi as int] == w);
                assert(w.wf());
            }
            let (admins, players) = attribute_window(&entry.1, w);
            if admins.len() > 0 {
                let day = day_of(w.start);
                let c = Convocation { game_id: game, during: w, admins, players };
                let ghost prevr = result.entries@;
                let ghost pv = crate::ordmap::acc_view(result);
                proof {
                    assert(forall|n: int|
                        0 <= n < prevr.len() ==> #[trigger] pv[n] == (prevr[n].0, prevr[n].1@));
                    assert forall|n: int, q: int|
                        0 <= n < q < pv.len() implies crate::ordmap::key_lt(
                        #[trigger] pv[n].0,
                        #[trigger] pv[q].0,
                    ) by {
                        assert(pv[n].0 == prevr[n].0);
                        assert(pv[q].0 == prevr[q].0);
                        assert(crate::ordmap::key_lt(prevr[n].0, prevr[q].0));
                    }
                }
                push_onto_accumulator(&mut result, day, c);
                proof {
                    let ghost nowr = result.entries@;
                    let ghost nv = crate::ordmap::acc_view(result);
                    assert(forall|n: int|
                        0 <= n < nowr.len() ==> #[trigger] nv[n] == (nowr[n].0, nowr[n].1@));
                    assert(nv == crate::ordmap::spec_push_onto(pv, day, c));
                    // the pushed pair (game, window) is fresh: processed games
                    // are strictly earlier keys, and earlier windows of this
                    // game end before this one starts
                    assert forall|n: int, m: int|
                        0 <= n < pv.len() && 0 <= m < pv[n].1.len() implies !((
                    #[trigger] pv[n].1[m]).game_id == c.game_id && pv[n].1[m].during
                        == c.during) by {
                        assert(pv[n].1[m] == prevr[n].1@[m]);
                        let e = prevr[n].1@[m];
                        if e.game_id == game && e.during == w {
                            if game_index_lt(pres, e.game_id, k as int) {
                                let gi = choose|gi: int|
                                    0 <= gi < k && (#[trigger] pres[gi]).0 == e.game_id;
                                assert(crate::ordmap::key_lt(pres[gi].0, pres[k as int].0));
                                assert(false);
                            } else {
                                let j = choose|j: int| 0 <= j < wi && wseq[j] == e.during;
                                assert(wseq[j].end < wseq[wi as int].start);
                                assert(false);
                            }
                        }
                    }
                    assert(convs_distinct_v(pv)) by {
                        assert forall|n: int, m: int, n2: int, m2: int|
                            0 <= n < pv.len() && 0 <= m < pv[n].1.len() && 0 <= n2 < pv.len() && 0
                                <= m2 < pv[n2].1.len() && !(n == n2 && m == m2) implies !((
                        #[trigger] pv[n].1[m]).game_id == (#[trigger] pv[n2].1[m2]).game_id
                            && pv[n].1[m].during == pv[n2].1[m2].during) by {
                            assert(pv[n].1[m] == prevr[n].1@[m]);
                            assert(pv[n2].1[m2] == prevr[n2].1@[m2]);
                        }
                    }
                    assert(crate::ordmap::sorted_keys(pv));
                    lemma_push_conv_distinct(pv, day, c);
                    assert(convs_distinct(nowr)) by {
                        assert forall|n: int, m: int, n2: int, m2: int|
                            0 <= n < nowr.len() && 0 <= m < nowr[n].1@.len() && 0 <= n2
                                < nowr.len() && 0 <= m2 < nowr[n2].1@.len() && !(n == n2 && m
                                == m2) implies !((#[trigger] nowr[n].1@[m]).game_id == (
                        #[trigger] nowr[n2].1@[m2]).game_id && nowr[n].1@[m].during
                            == nowr[n2].1@[m2].during) by {
                            assert(nv[n].1[m] == nowr[n].1@[m]);
                            assert(nv[n2].1[m2] == nowr[n2].1@[m2]);
                        }
                    }
                    crate::ordmap::lemma_push_onto_members(pv, day, c);
                    assert forall|n: int, m: int|
                        0 <= n < nowr.len() && 0 <= m < nowr[n].1@.len() implies game_index_lt(
                        pres,
                        (#[trigger] nowr[n].1@[m]).game_id,
                        k as int,
                    ) || (nowr[n].1@[m].game_id == game && exists|j: int|
                        0 <= j < wi + 1 && wseq[j] == nowr[n].1@[m].during) by {
                        assert(nv[n].1[m] == nowr[n].1@[m]);
                        if nv[n].1[m] == c {
                            assert(wseq[wi as int] == c.during);
                        } else {
                            let (n2, m2) = choose|n2: int, m2: int|
                                0 <= n2 < pv.len() && 0 <= m2 < pv[n2].1.len() && (
                                #[trigger] pv[n2].1[m2]) == nv[n].1[m];
                            assert(pv[n2].1[m2] == prevr[n2].1@[m2]);
                        }
                    }
                    assert(conv_sound(c, pres, act, *config)) by {
                        assert(wseq.contains(w)) by {
                            assert(wseq[wi as int] == w);
                        }
                        assert(bucket_or_empty(pres, game) == ps);
                    }
                    // every old convocation is kept, the new one is present
                    crate::ordmap::lemma_push_onto_members_keyed(pv, day, c);
                    assert forall|n: int, m: int|
                        0 <= n < nowr.len() && 0 <= m < nowr[n].1@.len() implies conv_sound(
                        #[trigger] nowr[n].1@[m],
                        pres,
                        act,
                        *config,
                    ) && nowr[n].0 == day_number(nowr[n].1@[m].during.start as int) by {
                        assert(nv[n].1[m] == nowr[n].1@[m]);
                        if nv[n].1[m] == c && nv[n].0 == day {
                        } else {
                            let (n2, m2) = choose|n2: int, m2: int|
                                0 <= n2 < pv.len() && 0 <= m2 < pv[n2].1.len() && (
                                #[trigger] pv[n2].1[m2]) == nv[n].1[m] && pv[n2].0 == nv[n].0;
                            assert(prevr[n2].1@[m2] == nowr[n].1@[m]);
                            assert(prevr[n2].0 == nowr[n].0);
                        }
                    }
                    assert(conv_in(nowr, day as int, c)) by {
                        crate::ordmap::lemma_push_onto_value_present(pv, day, c);
                        let (n2, m2) = choose|n2: int, m2: int|
                            0 <= n2 < nv.len() && (#[trigger] nv[n2]).0 == day && 0 <= m2
                                < nv[n2].1.len() && (#[trigger] nv[n2].1[m2]) == c;
                        assert(nowr[n2].1@[m2] == c);
                        assert(nowr[n2].0 == day);
                    }
                    assert forall|g: GameId, wj: int|
                        (#[trigger] conv_expected(pres, act, *config, g, wj)) && (game_index_lt(
                            pres,
                            g,
                            k as int,
                        ) || (g == game && wj < wi + 1)) implies exists|cx: Convocation|
                        cx.game_id == g && cx.during == windows_spec(
                            bucket_or_empty(pres, g),
                            map_get(act, g),
                            *config,
                        )[wj] && conv_in(nowr, day_number(cx.during.start as int), cx) by {
                        if g == game && wj == wi {
                            assert(bucket_or_empty(pres, game) == ps);
                            assert(c.game_id == g && c.during == windows_spec(
                                bucket_or_empty(pres, g),
                                map_get(act, g),
                                *config,
                            )[wj]);
                        } else {
                            let cx = choose|cx: Convocation|
                                cx.game_id == g && cx.during == windows_spec(
                                    bucket_or_empty(pres, g),
                                    map_get(act, g),
                                    *config,
                                )[wj] && conv_in(prevr, day_number(cx.during.start as int), cx);
                            let d2 = day_number(cx.during.start as int);
                            let (n3, m3) = choose|n3: int, m3: int|
                                0 <= n3 < prevr.len() && 0 <= m3 < prevr[n3].1@.len() && (
                                #[trigger] prevr[n3].1@[m3]) == cx && prevr[n3].0 == d2;
                            assert(pv[n3].1[m3] == cx);
                            assert(pv[n3].0 == d2);
                            crate::ordmap::lemma_push_onto_member_kept(pv, day, c, n3, m3);
                            let n4 = choose|n4: int|
                                0 <= n4 < nv.len() && (#[trigger] nv[n4]).0 == pv[n3].0 && m3
                                    < nv[n4].1.len() && nv[n4].1[m3] == pv[n3].1[m3];
                            assert(nowr[n4].1@[m3] == cx);
                            assert(nowr[n4].0 == d2);
                            assert(conv_in(nowr, d2, cx));
                        }
                    }
                }
            } else {
                proof {
                    assert forall|g: GameId, wj: int|
                        (#[trigger] conv_expected(pres, act, *config, g, wj)) && (game_index_lt(
                            pres,
                            g,
                            k as int,
                        ) || (g == game && wj < wi + 1)) implies exists|cx: Convocation|
                        cx.game_id == g && cx.during == windows_spec(
                            bucket_or_empty(pres, g),
                            map_get(act, g),
                            *config,
                        )[wj] && conv_in(result.entries@, day_number(cx.during.start as int), cx) by {
                        if g == game && wj == wi {
                            // no admin was present, so this window is not
                            // expected
                            assert(bucket_or_empty(pres, game) == ps);
                            let u = choose|u: UserId| admin_in(ps, wseq[wi as int], u);
                            assert(admins@.contains(u));
                            assert(admins@.len() > 0);
                            assert(false);
                        }
                    }
                }
            }
            wi = wi + 1;
        }
        proof {
            assert forall|n: int, m: int|
                0 <= n < result.entries@.len() && 0 <= m < result.entries@[n].1@.len()
                    implies game_index_lt(
                pres,
                (#[trigger] result.entries@[n].1@[m]).game_id,
                k + 1,
            ) by {
                let e = result.entries@[n].1@[m];
                if game_index_lt(pres, e.game_id, k as int) {
                    let gi = choose|gi: int| 0 <= gi < k && (#[trigger] pres[gi]).0 == e.game_id;
                    assert(0 <= gi < k + 1 && pres[gi].0 == e.game_id);
                } else {
                    assert(e.game_id == game);
                    assert(pres[k as int].0 == e.game_id);
                }
            }
            assert forall|g: GameId, wj: int|
                (#[trigger] conv_expected(pres, act, *config, g, wj)) && game_index_lt(
                pres,
                g,
                k + 1,
            ) implies exists|c: Convocation|
                c.game_id == g && c.during == windows_spec(
                    bucket_or_empty(pres, g),
                    map_get(act, g),
                    *config,
                )[wj] && conv_in(result.entries@, day_number(c.during.start as int), c) by {
                if !game_index_lt(pres, g, k as int) {
                    // g is the game at index k
                    let gi = choose|gi: int| 0 <= gi < k + 1 && (#[trigger] pres[gi]).0 == g;
                    assert(gi == k);
                    assert(g == game);
                    assert(bucket_or_empty(pres, g) == ps) by {
                        assert(map_get(pres, g) == Some(pres[k as int].1));
                    }
                }
            }
        }
        k = k + 1;
    }
    proof {
        assert forall|g: GameId, wi: int|
            (#[trigger] conv_expected(pres, act, *config, g, wi)) implies exists|c: Convocation|
            c.game_id == g && c.during == windows_spec(
                bucket_or_empty(pres, g),
                map_get(act, g),
                *config,
            )[wi] && conv_in(result.entries@, day_number(c.during.start as int), c) by {
            assert(game_index_lt(pres, g, k as int));
        }
    }
    result
}

/// Reading a result bucket element (helper for triggers).
pub open spec fn acc_view_at(entries: Seq<(i64, Vec<Convocation>)>, n: int, m: int) -> Convocation {
    entries[n].1@[m]
}

/// A game's presences, or none at all when the game has no presence.
pub open spec fn bucket_or_empty(pres: Seq<(GameId, Vec<Presence>)>, g: GameId) -> Seq<Presence> {
    match map_get(pres, g) {
        Some(ps) => ps@,
        None => Seq::empty(),
    }
}

/// Whether window `wi` of game `g` is expected in the output: the game has
/// presences, the window index is in range, and some admin attends it.
pub open spec fn conv_expected(
    pres: Seq<(GameId, Vec<Presence>)>,
    act: Seq<(GameId, SpanSet)>,
    cfg: ConvokerConfig,
    g: GameId,
    wi: int,
) -> bool {
    &&& seq_has_key(pres, g)
    &&& 0 <= wi < windows_spec(bucket_or_empty(pres, g), map_get(act, g), cfg).len()
    &&& exists|u: UserId|
        admin_in(
            bucket_or_empty(pres, g),
            windows_spec(bucket_or_empty(pres, g), map_get(act, g), cfg)[wi],
            u,
        )
}

/// Whether `g` appears among the first `k` games.
pub open spec fn game_index_lt(pres: Seq<(GameId, Vec<Presence>)>, g: GameId, k: int) -> bool {
    exists|gi: int| 0 <= gi < k && (#[trigger] pres[gi]).0 == g
}

/// The calendar day (UTC) of an instant, as days since the epoch; negative
/// instants round toward earlier days.
pub fn day_of(ts: i64) -> (r: i64)
    requires
        -crate::spanset::MAX_INSTANT <= ts <= crate::spanset::MAX_INSTANT,
    ensures
        r == day_number(ts as int),
{
    if ts >= 0 {
        ts / 86400
    } else {
        let pos = -ts;
        let q = pos / 86400;
        let rem = pos % 86400;
        if rem == 0 {
            -q
        } else {
            -q - 1
        }
    }
}


/// No two positions of the day-grouped result hold the same game and window.
pub open spec fn convs_distinct(entries: Seq<(i64, Vec<Convocation>)>) -> bool {
    forall|n: int, m: int, n2: int, m2: int|
        0 <= n < entries.len() && 0 <= m < entries[n].1@.len() && 0 <= n2 < entries.len() && 0 <= m2
            < entries[n2].1@.len() && !(n == n2 && m == m2) ==> !((#[trigger] entries[n].1@[m]).game_id
            == (#[trigger] entries[n2].1@[m2]).game_id && entries[n].1@[m].during
            == entries[n2].1@[m2].during)
}

/// View-level distinctness (entries with bucket sequences).
pub open spec fn convs_distinct_v(entries: Seq<(i64, Seq<Convocation>)>) -> bool {
    forall|n: int, m: int, n2: int, m2: int|
        0 <= n < entries.len() && 0 <= m < entries[n].1.len() && 0 <= n2 < entries.len() && 0 <= m2
            < entries[n2].1.len() && !(n == n2 && m == m2) ==> !((#[trigger] entries[n].1[m]).game_id
            == (#[trigger] entries[n2].1[m2]).game_id && entries[n].1[m].during
            == entries[n2].1[m2].during)
}

/// Pushing a convocation whose game and window pair is fresh keeps all the
/// pairs distinct.
proof fn lemma_push_conv_distinct(pv: Seq<(i64, Seq<Convocation>)>, day: i64, c: Convocation)
    requires
        crate::ordmap::sorted_keys(pv),
        convs_distinct_v(pv),
        forall|n: int, m: int|
            0 <= n < pv.len() && 0 <= m < pv[n].1.len() ==> !((#[trigger] pv[n].1[m]).game_id
                == c.game_id && pv[n].1[m].during == c.during),
    ensures
        convs_distinct_v(crate::ordmap::spec_push_onto(pv, day, c)),
{
    let nv = crate::ordmap::spec_push_onto(pv, day, c);
    crate::ordmap::lemma_push_onto_sorted(pv, day, c);
    crate::ordmap::lemma_push_onto_buckets(pv, day, c, day);
    crate::ordmap::lemma_push_onto_keys(pv, day, c, day);
    // each position of the new map is the pushed value at the end of the
    // day's bucket, or an old position under its old key
    assert forall|n: int, m: int|
        0 <= n < nv.len() && 0 <= m < nv[n].1.len() implies ((#[trigger] nv[n].1[m]) == c && nv[n].0
        == day && m == crate::ordmap::bucket_of(pv, day).len()) || (exists|n2: int|
        0 <= n2 < pv.len() && (#[trigger] pv[n2]).0 == nv[n].0 && m < pv[n2].1.len()
            && pv[n2].1[m] == nv[n].1[m]) by {
        crate::ordmap::lemma_bucket_index(nv, n);
        assert(nv[n].1 == crate::ordmap::bucket_of(nv, nv[n].0));
        crate::ordmap::lemma_push_onto_buckets(pv, day, c, nv[n].0);
        crate::ordmap::lemma_push_onto_keys(pv, day, c, nv[n].0);
        assert(seq_has_key(nv, nv[n].0));
        if nv[n].0 == day {
            assert(nv[n].1 == crate::ordmap::bucket_of(pv, day).push(c));
            if m < crate::ordmap::bucket_of(pv, day).len() {
                // an old element of the day bucket
                if seq_has_key(pv, day) {
                    let n2 = choose|n2: int| 0 <= n2 < pv.len() && (#[trigger] pv[n2]).0 == day;
                    crate::ordmap::lemma_bucket_index(pv, n2);
                    assert(pv[n2].1 == crate::ordmap::bucket_of(pv, day));
                    assert(pv[n2].1[m] == nv[n].1[m]);
                } else {
                    assert forall|w: int| 0 <= w < pv.len() implies (#[trigger] pv[w]).0 != day by {
                        if pv[w].0 == day {
                            assert(seq_has_key(pv, day));
                        }
                    }
                    crate::ordmap::lemma_bucket_absent(pv, day);
                    assert(false);
                }
            } else {
                assert(nv[n].1[m] == c);
            }
        } else {
            assert(seq_has_key(pv, nv[n].0));
            let n2 = choose|n2: int| 0 <= n2 < pv.len() && (#[trigger] pv[n2]).0 == nv[n].0;
            crate::ordmap::lemma_bucket_index(pv, n2);
            assert(pv[n2].1 == crate::ordmap::bucket_of(pv, nv[n].0));
            assert(nv[n].1 == pv[n2].1);
        }
    }
    assert forall|n: int, m: int, n2: int, m2: int|
        0 <= n < nv.len() && 0 <= m < nv[n].1.len() && 0 <= n2 < nv.len() && 0 <= m2
            < nv[n2].1.len() && !(n == n2 && m == m2) implies !((#[trigger] nv[n].1[m]).game_id
        == (#[trigger] nv[n2].1[m2]).game_id && nv[n].1[m].during == nv[n2].1[m2].during) by {
        let is_c_1 = nv[n].1[m] == c && nv[n].0 == day && m == crate::ordmap::bucket_of(
            pv,
            day,
        ).len();
        let is_c_2 = nv[n2].1[m2] == c && nv[n2].0 == day && m2 == crate::ordmap::bucket_of(
            pv,
            day,
        ).len();
        if is_c_1 && is_c_2 {
            // a single position holds the pushed value: same key means the
            // same entry in a strictly sorted map
            if n != n2 {
                if n < n2 {
                    assert(crate::ordmap::key_lt(nv[n].0, nv[n2].0));
                } else {
                    assert(crate::ordmap::key_lt(nv[n2].0, nv[n].0));
                }
                assert(false);
            }
            assert(false);
        } else if is_c_1 {
            // the other position maps to an old element, whose pair is not c's
            let o2 = choose|o2: int|
                0 <= o2 < pv.len() && (#[trigger] pv[o2]).0 == nv[n2].0 && m2 < pv[o2].1.len()
                    && pv[o2].1[m2] == nv[n2].1[m2];
        } else if is_c_2 {
            let o1 = choose|o1: int|
                0 <= o1 < pv.len() && (#[trigger] pv[o1]).0 == nv[n].0 && m < pv[o1].1.len()
                    && pv[o1].1[m] == nv[n].1[m];
        } else {
            let o1 = choose|o1: int|
                0 <= o1 < pv.len() && (#[trigger] pv[o1]).0 == nv[n].0 && m < pv[o1].1.len()
                    && pv[o1].1[m] == nv[n].1[m];
            let o2 = choose|o2: int|
                0 <= o2 < pv.len() && (#[trigger] pv[o2]).0 == nv[n2].0 && m2 < pv[o2].1.len()
                    && pv[o2].1[m2] == nv[n2].1[m2];
            // distinct new positions map to distinct old positions: distinct
            // entries carry distinct keys
            if n == n2 {
                assert(o1 == o2) by {
                    if o1 != o2 {
                        if o1 < o2 {
                            assert(crate::ordmap::key_lt(pv[o1].0, pv[o2].0));
                        } else {
                            assert(crate::ordmap::key_lt(pv[o2].0, pv[o1].0));
                        }
                    }
                }
                assert(m != m2);
            } else {
                assert(nv[n].0 != nv[n2].0) by {
                    if n < n2 {
                        assert(crate::ordmap::key_lt(nv[n].0, nv[n2].0));
                    } else {
                        assert(crate::ordmap::key_lt(nv[n2].0, nv[n].0));
                    }
                }
                assert(o1 != o2);
            }
        }
    }
}

} // verus!
