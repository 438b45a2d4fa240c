//! The presence builder: groups finalized requests by (game, user, role) and
//! merges each group's timespans into one canonical interval set.

use vstd::prelude::*;

use crate::order::{le_of, lemma_filter_multiset, lemma_map_multiset, sort_vec};
use crate::ordmap::{
    acc_view, deep_map, lemma_map_get_mapped, lemma_map_get_vs_bucket, lemma_push_onto_keys,
    lemma_push_onto_mapped, lemma_push_onto_members, lemma_push_onto_sorted,
    lemma_sorted_assoc_unique, map_get, push_onto_accumulator, seq_has_key, sorted_keys,
    spec_push_onto, OrdMap,
};
use crate::parse::MAX_TIMESTAMP;
use crate::request::{GameId, Request, UserId};
use crate::spanset::{merged, SpanSet, TimeSpan};

verus! {

/// The grouping key of a presence: one user holding one role in one game.
pub type PresenceKey = (GameId, (UserId, bool));

pub open spec fn key_of(r: Request) -> PresenceKey {
    (r.game_id, (r.user_id, r.is_admin))
}

pub open spec fn span_of(r: Request) -> TimeSpan {
    TimeSpan { start: r.start, end: r.end }
}

/// A request contributes a span only when it is oriented forward in time; a
/// record whose end precedes its start denotes no instants and is dropped
/// (deliberately: such a record can only come from a malformed log).
pub open spec fn span_ok(r: Request) -> bool {
    r.start <= r.end
}

/// Every request's instants stay within chrono's timestamp range.
pub open spec fn requests_bounded(rs: Seq<Request>) -> bool {
    forall|i: int|
        0 <= i < rs.len() ==> -MAX_TIMESTAMP <= (#[trigger] rs[i]).start <= MAX_TIMESTAMP
            && -MAX_TIMESTAMP <= rs[i].end <= MAX_TIMESTAMP
}

/// The key-sorted grouping of the requests' spans, buckets in arrival order.
pub open spec fn groups_of(rs: Seq<Request>) -> Seq<(PresenceKey, Seq<TimeSpan>)>
    decreases rs.len(),
{
    if rs.len() == 0 {
        Seq::empty()
    } else {
        let prev = groups_of(rs.drop_last());
        if span_ok(rs.last()) {
            spec_push_onto(prev, key_of(rs.last()), span_of(rs.last()))
        } else {
            prev
        }
    }
}

/// The grouping with each bucket sorted: a canonical value that depends only
/// on which requests were fed, not on their order.
pub open spec fn canonical_groups(rs: Seq<Request>) -> Seq<(PresenceKey, Seq<TimeSpan>)> {
    groups_of(rs).map_values(
        |e: (PresenceKey, Seq<TimeSpan>)| (e.0, e.1.sort_by(le_of::<TimeSpan>())),
    )
}

/// One user's merged time-in-role for one game.
pub struct Presence {
    pub spans: SpanSet,
    pub game_id: GameId,
    pub user_id: UserId,
    pub is_admin: bool,
}

/// A presence, read as a plain value.
pub open spec fn pres_view(p: Presence) -> (GameId, UserId, bool, Seq<TimeSpan>) {
    (p.game_id, p.user_id, p.is_admin, p.spans.spans@)
}

/// The presences the canonical groups denote, grouped by game: each group
/// becomes one presence whose interval set is the merge of its sorted spans.
pub open spec fn presences_built(cgs: Seq<(PresenceKey, Seq<TimeSpan>)>) -> Seq<
    (GameId, Seq<(GameId, UserId, bool, Seq<TimeSpan>)>),
>
    decreases cgs.len(),
{
    if cgs.len() == 0 {
        Seq::empty()
    } else {
        let e = cgs.last();
        spec_push_onto(
            presences_built(cgs.drop_last()),
            e.0.0,
            (e.0.0, e.0.1.0, e.0.1.1, merged(e.1)),
        )
    }
}

/// The result of `collect_presences`, read as plain values.
pub open spec fn presences_view(r: OrdMap<GameId, Vec<Presence>>) -> Seq<
    (GameId, Seq<(GameId, UserId, bool, Seq<TimeSpan>)>),
> {
    deep_map(acc_view(r), |p: Presence| pres_view(p))
}

/// Groups the requests by (game id, user id, admin flag); within each group
/// the request timespans, sorted and merged, become one `Presence`. The
/// presences are grouped by game id, everything ordered by key.
pub fn collect_presences(requests: Vec<Request>) -> (r: OrdMap<GameId, Vec<Presence>>)
    requires
        requests_bounded(requests@),
    ensures
        r.wf(),
        presences_view(r) == presences_built(canonical_groups(requests@)),
        forall|n: int, m: int|
            0 <= n < r.entries@.len() && 0 <= m < r.entries@[n].1@.len() ==> (
            #[trigger] r.entries@[n].1@[m]).spans.wf(),
{
    let ghost rs = requests@;
    let mut groups: OrdMap<PresenceKey, Vec<TimeSpan>> = OrdMap::new();
    let mut i: usize = 0;
    proof {
        assert(rs.take(0) =~= Seq::<Request>::empty());
    }
    while i < requests.len()
        invariant
            0 <= i <= rs.len(),
            rs == requests@,
            requests_bounded(rs),
            groups.wf(),
            acc_view(groups) == groups_of(rs.take(i as int)),
            forall|n: int, m: int|
                0 <= n < acc_view(groups).len() && 0 <= m < acc_view(groups)[n].1.len() ==> (
                #[trigger] acc_view(groups)[n].1[m]).wf(),
        decreases rs.len() - i,
    {
        let req = requests[i];
        let ghost prev = acc_view(groups);
        proof {
            let t1 = rs.take(i + 1);
            assert(t1.drop_last() =~= rs.take(i as int));
            assert(t1.last() == rs[i as int]);
        }
        if req.start <= req.end {
            push_onto_accumulator(
                &mut groups,
                (req.game_id, (req.user_id, req.is_admin)),
                TimeSpan { start: req.start, end: req.end },
            );
            proof {
                lemma_push_onto_members(prev, key_of(rs[i as int]), span_of(rs[i as int]));
                assert forall|n: int, m: int|
                    0 <= n < acc_view(groups).len() && 0 <= m < acc_view(groups)[n].1.len() implies (
                #[trigger] acc_view(groups)[n].1[m]).wf() by {
                    if acc_view(groups)[n].1[m] == span_of(rs[i as int]) {
                    } else {
                        let (n2, m2) = choose|n2: int, m2: int|
                            0 <= n2 < prev.len() && 0 <= m2 < prev[n2].1.len() && (
                            #[trigger] prev[n2].1[m2]) == acc_view(groups)[n].1[m];
                        assert(prev[n2].1[m2].wf());
                    }
                }
            }
        }
        i = i + 1;
    }
    proof {
        assert(rs.take(rs.len() as int) =~= rs);
    }
    // each group, spans sorted and merged, becomes one presence
    let ghost cg = canonical_groups(rs);
    let ghost grouped = acc_view(groups);
    let mut result: OrdMap<GameId, Vec<Presence>> = OrdMap::new();
    let mut k: usize = 0;
    proof {
        assert(cg.len() == grouped.len());
        assert(cg.take(0) =~= Seq::<(PresenceKey, Seq<TimeSpan>)>::empty());
        assert(presences_view(result) =~= Seq::<
            (GameId, Seq<(GameId, UserId, bool, Seq<TimeSpan>)>),
        >::empty());
    }
    while k < groups.entries.len()
        invariant
            0 <= k <= groups.entries@.len(),
            grouped == acc_view(groups),
            cg == canonical_groups(rs),
            cg.len() == grouped.len(),
            cg == grouped.map_values(
                |e: (PresenceKey, Seq<TimeSpan>)| (e.0, e.1.sort_by(le_of::<TimeSpan>())),
            ),
            groups.wf(),
            forall|n: int, m: int|
                0 <= n < grouped.len() && 0 <= m < grouped[n].1.len() ==> (
                #[trigger] grouped[n].1[m]).wf(),
            result.wf(),
            presences_view(result) == presences_built(cg.take(k as int)),
            forall|n: int, m: int|
                0 <= n < result.entries@.len() && 0 <= m < result.entries@[n].1@.len() ==> (
                #[trigger] result.entries@[n].1@[m]).spans.wf(),
        decreases groups.entries@.len() - k,
    {
        let entry = &groups.entries[k];
        let key = entry.0;
        let mut spans: Vec<TimeSpan> = Vec::new();
        let mut j: usize = 0;
        proof {
            assert(grouped[k as int] == (entry.0, entry.1@));
        }
        while j < entry.1.len()
            invariant
                0 <= j <= entry.1@.len(),
                entry == &groups.entries@[k as int],
                0 <= k < groups.entries@.len(),
                spans@ =~= entry.1@.take(j as int),
            decreases entry.1@.len() - j,
        {
            spans.push(entry.1[j]);
            proof {
                assert(spans@ =~= entry.1@.take(j + 1));
            }
            j = j + 1;
        }
        proof {
            assert(spans@ =~= entry.1@);
            assert forall|n: int| 0 <= n < spans@.len() implies (#[trigger] spans@[n]).wf() by {
                assert(grouped[k as int].1[n] == spans@[n]);
            }
        }
        sort_vec(&mut spans);
        proof {
            assert(cg[k as int] == (key, grouped[k as int].1.sort_by(le_of::<TimeSpan>())));
            assert(spans@ == cg[k as int].1);
            assert forall|n: int| 0 <= n < spans@.len() implies (#[trigger] spans@[n]).wf() by {
                spans@.to_multiset_ensures();
                grouped[k as int].1.to_multiset_ensures();
                assert(spans@.to_multiset().count(spans@[n]) > 0);
                assert(grouped[k as int].1.contains(spans@[n]));
                let w = choose|w: int|
                    0 <= w < grouped[k as int].1.len() && grouped[k as int].1[w] == spans@[n];
                assert(grouped[k as int].1[w].wf());
            }
            crate::spanset::lemma_le_sorted_starts(spans@);
        }
        let spet = SpanSet::from_sorted(spans);
        let p = Presence { spans: spet, game_id: key.0, user_id: key.1.0, is_admin: key.1.1 };
        let ghost prev_view = acc_view(result);
        let ghost prev_entries = result.entries@;
        push_onto_accumulator(&mut result, key.0, p);
        proof {
            lemma_push_onto_mapped(prev_view, key.0, p, |q: Presence| pres_view(q));
            let t1 = cg.take(k + 1);
            assert(t1.drop_last() =~= cg.take(k as int));
            assert(t1.last() == cg[k as int]);
            assert(presences_view(result) == presences_built(cg.take(k + 1)));
            lemma_push_onto_members(prev_view, key.0, p);
            assert forall|n: int, m: int|
                0 <= n < result.entries@.len() && 0 <= m < result.entries@[n].1@.len() implies (
            #[trigger] result.entries@[n].1@[m]).spans.wf() by {
                assert(acc_view(result)[n].1[m] == result.entries@[n].1@[m]);
                if acc_view(result)[n].1[m] == p {
                } else {
                    let (n2, m2) = choose|n2: int, m2: int|
                        0 <= n2 < prev_view.len() && 0 <= m2 < prev_view[n2].1.len() && (
                        #[trigger] prev_view[n2].1[m2]) == acc_view(result)[n].1[m];
                    assert(prev_entries[n2].1@[m2].spans.wf());
                }
            }
        }
        k = k + 1;
    }
    proof {
        assert(cg.take(cg.len() as int) =~= cg);
    }
    result
}

/// The spans a key's bucket collects: exactly the spans of the well-oriented
/// requests with that key, in arrival order.
pub proof fn lemma_groups_content(rs: Seq<Request>, k: PresenceKey)
    ensures
        sorted_keys(groups_of(rs)),
        ({
            let flt = rs.filter(|r: Request| key_of(r) == k && span_ok(r)).map_values(
                |r: Request| span_of(r),
            );
            match map_get(groups_of(rs), k) {
                Some(b) => b == flt && b.len() > 0 && seq_has_key(groups_of(rs), k),
                None => flt.len() == 0 && !seq_has_key(groups_of(rs), k),
            }
        }),
    decreases rs.len(),
{
    reveal(Seq::filter);
    let pred = |r: Request| key_of(r) == k && span_ok(r);
    let flt = rs.filter(pred).map_values(|r: Request| span_of(r));
    if rs.len() == 0 {
        if seq_has_key(groups_of(rs), k) {
            let i = choose|i: int|
                0 <= i < groups_of(rs).len() && (#[trigger] groups_of(rs)[i]).0 == k;
        }
        assert(rs.filter(pred) =~= Seq::<Request>::empty());
    } else {
        let prev = groups_of(rs.drop_last());
        let x = rs.last();
        lemma_groups_content(rs.drop_last(), k);
        let fprev = rs.drop_last().filter(pred).map_values(|r: Request| span_of(r));
        if span_ok(x) {
            lemma_push_onto_sorted(prev, key_of(x), span_of(x));
            crate::ordmap::lemma_push_onto_buckets(prev, key_of(x), span_of(x), k);
            lemma_push_onto_keys(prev, key_of(x), span_of(x), k);
            lemma_map_get_vs_bucket(prev, k);
            lemma_map_get_vs_bucket(groups_of(rs), k);
            if key_of(x) == k {
                assert(rs.filter(pred) =~= rs.drop_last().filter(pred).push(x));
                assert(flt =~= fprev.push(span_of(x)));
                assert(seq_has_key(groups_of(rs), k)) by {
                    lemma_push_onto_keys(prev, key_of(x), span_of(x), k);
                }
                assert(bucket_is(groups_of(rs), k, flt)) by {
                    match map_get(prev, k) {
                        Some(b) => {
                            assert(crate::ordmap::bucket_of(prev, k) == fprev);
                        },
                        None => {
                            assert(crate::ordmap::bucket_of(prev, k) =~= Seq::<TimeSpan>::empty());
                            assert(fprev =~= Seq::<TimeSpan>::empty());
                        },
                    }
                    assert(crate::ordmap::bucket_of(groups_of(rs), k) == fprev.push(span_of(x)));
                }
            } else {
                assert(rs.filter(pred) =~= rs.drop_last().filter(pred));
                assert(flt == fprev);
                assert(crate::ordmap::bucket_of(groups_of(rs), k) == crate::ordmap::bucket_of(
                    prev,
                    k,
                ));
            }
            // relate bucket back to map_get on the pushed groups
            match map_get(groups_of(rs), k) {
                Some(b) => {
                    assert(b == crate::ordmap::bucket_of(groups_of(rs), k));
                    assert(seq_has_key(groups_of(rs), k)) by {
                        crate::ordmap::lemma_map_get_index(groups_of(rs), k);
                        let i = choose|i: int|
                            0 <= i < groups_of(rs).len() && #[trigger] groups_of(rs)[i] == (k, b);
                        assert(groups_of(rs)[i].0 == k);
                    }
                    if key_of(x) == k {
                    } else {
                        match map_get(prev, k) {
                            Some(bp) => {},
                            None => {
                                // the key was absent before and was not
                                // pushed, yet the lookup succeeds: impossible
                                assert(false);
                            },
                        }
                    }
                },
                None => {
                    assert(!seq_has_key(groups_of(rs), k)) by {
                        crate::ordmap::lemma_map_get_index(groups_of(rs), k);
                        if seq_has_key(groups_of(rs), k) {
                            let i = choose|i: int|
                                0 <= i < groups_of(rs).len() && (#[trigger] groups_of(rs)[i]).0
                                    == k;
                        }
                    }
                    assert(k != key_of(x));
                    assert(!seq_has_key(prev, k));
                },
            }
        } else {
            assert(rs.filter(pred) =~= rs.drop_last().filter(pred));
            assert(groups_of(rs) == prev);
        }
    }
}

/// Helper: the bucket a sorted grouping reads for `k` is exactly `b`.
spec fn bucket_is(s: Seq<(PresenceKey, Seq<TimeSpan>)>, k: PresenceKey, b: Seq<TimeSpan>) -> bool {
    crate::ordmap::bucket_of(s, k) == b
}

/// Presence construction is blind to the order the requests arrive in:
/// feeding the same collection of requests in any order yields the same
/// presences with the same interval sets.
pub proof fn lemma_presences_reorder(rs1: Seq<Request>, rs2: Seq<Request>)
    requires
        rs1.to_multiset() == rs2.to_multiset(),
    ensures
        presences_built(canonical_groups(rs1)) == presences_built(canonical_groups(rs2)),
{
    lemma_canonical_groups_permutation(rs1, rs2);
}

/// The canonical grouping depends only on which requests were fed.
pub proof fn lemma_canonical_groups_permutation(rs1: Seq<Request>, rs2: Seq<Request>)
    requires
        rs1.to_multiset() == rs2.to_multiset(),
    ensures
        canonical_groups(rs1) == canonical_groups(rs2),
{
    let sortf = |e: (PresenceKey, Seq<TimeSpan>)| (e.0, e.1.sort_by(le_of::<TimeSpan>()));
    let cg1 = canonical_groups(rs1);
    let cg2 = canonical_groups(rs2);
    let g1 = groups_of(rs1);
    let g2 = groups_of(rs2);
    assert forall|p: int, q: int|
        0 <= p < q < cg1.len() implies crate::ordmap::key_lt(
        #[trigger] cg1[p].0,
        #[trigger] cg1[q].0,
    ) by {
        lemma_groups_content(rs1, g1[p].0);
        assert(cg1[p].0 == g1[p].0);
        assert(cg1[q].0 == g1[q].0);
        assert(crate::ordmap::key_lt(g1[p].0, g1[q].0));
    }
    assert forall|p: int, q: int|
        0 <= p < q < cg2.len() implies crate::ordmap::key_lt(
        #[trigger] cg2[p].0,
        #[trigger] cg2[q].0,
    ) by {
        lemma_groups_content(rs2, g2[p].0);
        assert(cg2[p].0 == g2[p].0);
        assert(cg2[q].0 == g2[q].0);
        assert(crate::ordmap::key_lt(g2[p].0, g2[q].0));
    }
    assert forall|k: PresenceKey| #[trigger] seq_has_key(cg1, k) <==> seq_has_key(cg2, k) by {
        lemma_groups_content(rs1, k);
        lemma_groups_content(rs2, k);
        lemma_has_key_mapped(g1, k);
        lemma_has_key_mapped(g2, k);
        let pred = |r: Request| key_of(r) == k && span_ok(r);
        lemma_filter_multiset(rs1, rs2, pred);
        rs1.filter(pred).to_multiset_ensures();
        rs2.filter(pred).to_multiset_ensures();
        assert(rs1.filter(pred).len() == rs2.filter(pred).len());
        let flt1 = rs1.filter(pred).map_values(|r: Request| span_of(r));
        let flt2 = rs2.filter(pred).map_values(|r: Request| span_of(r));
        assert(flt1.len() == rs1.filter(pred).len());
        assert(flt2.len() == rs2.filter(pred).len());
        assert(seq_has_key(g1, k) <==> flt1.len() > 0) by {
            match map_get(g1, k) {
                Some(b) => {},
                None => {},
            }
        }
        assert(seq_has_key(g2, k) <==> flt2.len() > 0) by {
            match map_get(g2, k) {
                Some(b) => {},
                None => {},
            }
        }
    }
    assert forall|k: PresenceKey| #[trigger] map_get(cg1, k) == map_get(cg2, k) by {
        lemma_groups_content(rs1, k);
        lemma_groups_content(rs2, k);
        lemma_map_get_mapped(g1, |b: Seq<TimeSpan>| b.sort_by(le_of::<TimeSpan>()), k);
        lemma_map_get_mapped(g2, |b: Seq<TimeSpan>| b.sort_by(le_of::<TimeSpan>()), k);
        assert(cg1 =~= g1.map_values(
            |e: (PresenceKey, Seq<TimeSpan>)| (
                e.0,
                (|b: Seq<TimeSpan>| b.sort_by(le_of::<TimeSpan>()))(e.1),
            ),
        ));
        assert(cg2 =~= g2.map_values(
            |e: (PresenceKey, Seq<TimeSpan>)| (
                e.0,
                (|b: Seq<TimeSpan>| b.sort_by(le_of::<TimeSpan>()))(e.1),
            ),
        ));
        let pred = |r: Request| key_of(r) == k && span_ok(r);
        let spanf = |r: Request| span_of(r);
        lemma_filter_multiset(rs1, rs2, pred);
        lemma_map_multiset(rs1.filter(pred), rs2.filter(pred), spanf);
        let b1 = rs1.filter(pred).map_values(spanf);
        let b2 = rs2.filter(pred).map_values(spanf);
        crate::order::lemma_le_of_total_ordering::<TimeSpan>();
        b1.lemma_sort_by_ensures(le_of::<TimeSpan>());
        b2.lemma_sort_by_ensures(le_of::<TimeSpan>());
        vstd::seq_lib::lemma_sorted_unique(
            b1.sort_by(le_of::<TimeSpan>()),
            b2.sort_by(le_of::<TimeSpan>()),
            le_of::<TimeSpan>(),
        );
        assert(b1.sort_by(le_of::<TimeSpan>()) =~= b2.sort_by(le_of::<TimeSpan>()));
        match map_get(g1, k) {
            Some(v1) => {
                assert(v1 == b1);
                match map_get(g2, k) {
                    Some(v2) => {
                        assert(v2 == b2);
                    },
                    None => {
                        assert(b2.len() == 0);
                        b1.to_multiset_ensures();
                        b2.to_multiset_ensures();
                        assert(b1.len() == 0);
                        assert(v1.len() == 0);
                        // both lookups exist only when the filter is nonempty;
                        // here g1 has the key with an empty bucket, which the
                        // construction never produces -- but an empty bucket
                        // still sorts to the empty bucket, so the mapped
                        // lookups differ; rule it out through has_key
                        assert(seq_has_key(g1, k));
                        assert(seq_has_key(cg1, k)) by {
                            lemma_has_key_mapped(g1, k);
                        }
                        assert(seq_has_key(cg2, k));
                        lemma_has_key_mapped(g2, k);
                        assert(seq_has_key(g2, k));
                        assert(false);
                    },
                }
            },
            None => {
                match map_get(g2, k) {
                    Some(v2) => {
                        assert(v2 == b2);
                        assert(b1.len() == 0);
                        b1.to_multiset_ensures();
                        b2.to_multiset_ensures();
                        assert(b2.len() == 0);
                        assert(seq_has_key(g2, k));
                        lemma_has_key_mapped(g2, k);
                        lemma_has_key_mapped(g1, k);
                        assert(seq_has_key(cg1, k));
                        assert(seq_has_key(g1, k));
                        assert(false);
                    },
                    None => {},
                }
            },
        }
    }
    lemma_sorted_assoc_unique(cg1, cg2);
}

/// Mapping values keeps the key set.
proof fn lemma_has_key_mapped(s: Seq<(PresenceKey, Seq<TimeSpan>)>, k: PresenceKey)
    ensures
        seq_has_key(
            s.map_values(
                |e: (PresenceKey, Seq<TimeSpan>)| (e.0, e.1.sort_by(le_of::<TimeSpan>())),
            ),
            k,
        ) <==> seq_has_key(s, k),
{
    let m = s.map_values(
        |e: (PresenceKey, Seq<TimeSpan>)| (e.0, e.1.sort_by(le_of::<TimeSpan>())),
    );
    if seq_has_key(m, k) {
        let i = choose|i: int| 0 <= i < m.len() && (#[trigger] m[i]).0 == k;
        assert(s[i].0 == k);
        assert(seq_has_key(s, k));
    }
    if seq_has_key(s, k) {
        let i = choose|i: int| 0 <= i < s.len() && (#[trigger] s[i]).0 == k;
        assert(m[i].0 == k);
        assert(seq_has_key(m, k));
    }
}

} // verus!
