//! The global presence builder: one user's activity-confirmed presence,
//! merged across every game, for active-user aggregation.

use vstd::prelude::*;

use crate::order::sort_vec;
use crate::ordmap::{
    acc_view, lemma_push_onto_members, map_get, push_onto_accumulator, spec_push_onto, OrdMap,
};
use crate::parse::MAX_TIMESTAMP;
use crate::presence::{requests_bounded, span_of};
use crate::request::{GameId, Request, UserId};
use crate::spanset::{
    lemma_covers_concat, lemma_covers_multiset, seq_covers, span_covers, SpanSet, TimeSpan,
};

verus! {

/// One user's activity-confirmed interval set, merged across all games.
pub struct GlobalPresence {
    pub spans: SpanSet,
    pub user_id: UserId,
}

/// The requests grouped by user, in arrival order within each bucket.
pub open spec fn user_groups_of(rs: Seq<Request>) -> Seq<(UserId, Seq<Request>)>
    decreases rs.len(),
{
    if rs.len() == 0 {
        Seq::empty()
    } else {
        spec_push_onto(user_groups_of(rs.drop_last()), rs.last().user_id, rs.last())
    }
}

/// Whether sample point `p` is in the user's verified active time: inside
/// some request's own span and inside that request's game's activity set.
pub open spec fn gp_covers(bucket: Seq<Request>, activity: Seq<(GameId, SpanSet)>, p: int) -> bool {
    exists|i: int|
        0 <= i < bucket.len() && match map_get(activity, (#[trigger] bucket[i]).game_id) {
            Some(a) => a.covers(p) && span_covers(span_of(bucket[i]), p),
            None => false,
        }
}

/// Groups the requests by user; each request's timespan, cut down to its
/// game's activity set, contributes to that user's one global presence. The
/// result is ordered by user id.
pub fn collect_global_presences(requests: Vec<Request>, activity: &OrdMap<GameId, SpanSet>) -> (r:
    Vec<GlobalPresence>)
    requires
        requests_bounded(requests@),
        activity.wf(),
        forall|i: int|
            0 <= i < activity.entries@.len() ==> (#[trigger] activity.entries@[i]).1.wf(),
    ensures
        r@.len() == user_groups_of(requests@).len(),
        forall|n: int|
            0 <= n < r@.len() ==> (#[trigger] r@[n]).user_id == user_groups_of(requests@)[n].0,
        forall|n: int| 0 <= n < r@.len() ==> (#[trigger] r@[n]).spans.wf(),
        forall|n: int, p: int|
            0 <= n < r@.len() ==> ((#[trigger] r@[n].spans.covers(p)) <==> gp_covers(
                user_groups_of(requests@)[n].1,
                activity.entries@,
                p,
            )),
{
    let ghost rs = requests@;
    let ghost act = activity.entries@;
    let mut groups: OrdMap<UserId, Vec<Request>> = OrdMap::new();
    let mut i: usize = 0;
    proof {
        assert(rs.take(0) =~= Seq::<Request>::empty());
    }
    while i < requests.len()
        invariant
            0 <= i <= rs.len(),
            rs == requests@,
            requests_bounded(rs),
            groups.wf(),
            acc_view(groups) == user_groups_of(rs.take(i as int)),
            forall|n: int, m: int|
                0 <= n < acc_view(groups).len() && 0 <= m < acc_view(groups)[n].1.len()
                    ==> -MAX_TIMESTAMP <= (#[trigger] acc_view(groups)[n].1[m]).start
                    <= MAX_TIMESTAMP && -MAX_TIMESTAMP <= acc_view(groups)[n].1[m].end
                    <= MAX_TIMESTAMP,
        decreases rs.len() - i,
    {
        let req = requests[i];
        let ghost prev = acc_view(groups);
        proof {
            let t1 = rs.take(i + 1);
            assert(t1.drop_last() =~= rs.take(i as int));
            assert(t1.last() == rs[i as int]);
        }
        push_onto_accumulator(&mut groups, req.user_id, req);
        proof {
            lemma_push_onto_members(prev, rs[i as int].user_id, rs[i as int]);
            assert forall|n: int, m: int|
                0 <= n < acc_view(groups).len() && 0 <= m < acc_view(groups)[n].1.len()
                    implies -MAX_TIMESTAMP <= (#[trigger] acc_view(groups)[n].1[m]).start
                <= MAX_TIMESTAMP && -MAX_TIMESTAMP <= acc_view(groups)[n].1[m].end
                <= MAX_TIMESTAMP by {
                if acc_view(groups)[n].1[m] == rs[i as int] {
                } else {
                    let (n2, m2) = choose|n2: int, m2: int|
                        0 <= n2 < prev.len() && 0 <= m2 < prev[n2].1.len() && (
                        #[trigger] prev[n2].1[m2]) == acc_view(groups)[n].1[m];
                }
            }
        }
        i = i + 1;
    }
    proof {
        assert(rs.take(rs.len() as int) =~= rs);
    }
    let ghost grouped = acc_view(groups);
    let mut out: Vec<GlobalPresence> = Vec::new();
    let mut k: usize = 0;
    while k < groups.entries.len()
        invariant
            0 <= k <= groups.entries@.len(),
            grouped == acc_view(groups),
            grouped == user_groups_of(rs),
            groups.wf(),
            act == activity.entries@,
            activity.wf(),
            forall|n: int| 0 <= n < act.len() ==> (#[trigger] act[n]).1.wf(),
            forall|n: int, m: int|
                0 <= n < grouped.len() && 0 <= m < grouped[n].1.len() ==> -MAX_TIMESTAMP <= (
                #[trigger] grouped[n].1[m]).start <= MAX_TIMESTAMP && -MAX_TIMESTAMP
                    <= grouped[n].1[m].end <= MAX_TIMESTAMP,
            out@.len() == k,
            forall|n: int| 0 <= n < k ==> (#[trigger] out@[n]).user_id == grouped[n].0,
            forall|n: int| 0 <= n < k ==> (#[trigger] out@[n]).spans.wf(),
            forall|n: int, p: int|
                0 <= n < k ==> ((#[trigger] out@[n].spans.covers(p)) <==> gp_covers(
                    grouped[n].1,
                    act,
                    p,
                )),
        decreases groups.entries@.len() - k,
    {
        let entry = &groups.entries[k];
        let ghost bucket = grouped[k as int].1;
        proof {
            assert(grouped[k as int] == (entry.0, entry.1@));
        }
        let mut collected: Vec<TimeSpan> = Vec::new();
        let mut j: usize = 0;
        proof {
            assert(bucket.take(0) =~= Seq::<Request>::empty());
            assert forall|p: int| !(#[trigger] seq_covers(collected@, p)) by {
                if seq_covers(collected@, p) {
                    let w = choose|w: int|
                        0 <= w < collected@.len() && span_covers(#[trigger] collected@[w], p);
                }
            }
            assert forall|p: int| !(#[trigger] gp_covers(bucket.take(0), act, p)) by {
                if gp_covers(bucket.take(0), act, p) {
                    let w = choose|w: int|
                        0 <= w < bucket.take(0).len() && match map_get(
                            act,
                            (#[trigger] bucket.take(0)[w]).game_id,
                        ) {
                            Some(a) => a.covers(p) && span_covers(span_of(bucket.take(0)[w]), p),
                            None => false,
                        };
                }
            }
        }
        while j < entry.1.len()
            invariant
                0 <= j <= entry.1@.len(),
                entry == &groups.entries@[k as int],
                0 <= k < groups.entries@.len(),
                grouped == acc_view(groups),
                bucket == entry.1@,
                grouped[k as int] == (entry.0, entry.1@),
                act == activity.entries@,
                activity.wf(),
                forall|n: int| 0 <= n < act.len() ==> (#[trigger] act[n]).1.wf(),
                forall|m: int|
                    0 <= m < bucket.len() ==> -MAX_TIMESTAMP <= (#[trigger] bucket[m]).start
                        <= MAX_TIMESTAMP && -MAX_TIMESTAMP <= bucket[m].end <= MAX_TIMESTAMP,
                forall|m: int| 0 <= m < collected@.len() ==> (#[trigger] collected@[m]).wf(),
                forall|p: int|
                    #[trigger] seq_covers(collected@, p) <==> gp_covers(
                        bucket.take(j as int),
                        act,
                        p,
                    ),
            decreases entry.1@.len() - j,
        {
            let req = entry.1[j];
            let ghost prevc = collected@;
            proof {
                assert(bucket[j as int] == req);
                assert(-MAX_TIMESTAMP <= req.start <= MAX_TIMESTAMP);
                assert(bucket.take(j + 1).drop_last() =~= bucket.take(j as int));
                assert(bucket.take(j + 1).last() == req);
            }
            let maybe_act = activity.get(&req.game_id);
            let mut added = false;
            let ghost mut interseq: Seq<TimeSpan> = Seq::empty();
            match maybe_act {
                Some(a) => {
                    if req.start <= req.end {
                        let mut single: Vec<TimeSpan> = Vec::new();
                        single.push(TimeSpan { start: req.start, end: req.end });
                        proof {
                            assert(single@ =~= seq![TimeSpan { start: req.start, end: req.end }]);
                        }
                        let single_set = SpanSet::from_sorted(single);
                        proof {
                            // the activity value read back is one of the map's
                            // entries, hence well-formed
                            crate::ordmap::lemma_map_get_index(act, req.game_id);
                            let w = choose|w: int|
                                0 <= w < act.len() && #[trigger] act[w] == (req.game_id, *a);
                            assert(act[w].1.wf());
                        }
                        let mut inter = a.intersection(&single_set);
                        proof {
                            interseq = inter.spans@;
                            assert forall|p: int|
                                #[trigger] seq_covers(interseq, p) <==> (a.covers(p)
                                    && span_covers(span_of(req), p)) by {
                                assert(inter.covers(p) == seq_covers(interseq, p));
                                let sgl = seq![TimeSpan { start: req.start, end: req.end }];
                                assert(single_set.covers(p) <==> seq_covers(sgl, p));
                                if seq_covers(sgl, p) {
                                    let w = choose|w: int|
                                        0 <= w < sgl.len() && span_covers(#[trigger] sgl[w], p);
                                    assert(sgl[w] == span_of(req));
                                }
                                if span_covers(span_of(req), p) {
                                    assert(sgl[0] == span_of(req));
                                    assert(seq_covers(sgl, p));
                                }
                            }
                        }
                        collected.append(&mut inter.spans);
                        added = true;
                        proof {
                            assert(collected@ =~= prevc + interseq);
                        }
                    }
                },
                None => {},
            }
            proof {
                if !added {
                    assert(collected@ =~= prevc + interseq);
                    assert forall|p: int| !(#[trigger] seq_covers(interseq, p)) by {
                        if seq_covers(interseq, p) {
                            let w = choose|w: int|
                                0 <= w < interseq.len() && span_covers(#[trigger] interseq[w], p);
                        }
                    }
                }
                assert forall|p: int|
                    #[trigger] seq_covers(collected@, p) <==> gp_covers(
                    bucket.take(j + 1),
                    act,
                    p,
                ) by {
                    lemma_covers_concat(prevc, interseq, p);
                    let t1 = bucket.take(j + 1);
                    if seq_covers(collected@, p) {
                        if seq_covers(prevc, p) {
                            let w = choose|w: int|
                                0 <= w < bucket.take(j as int).len() && match map_get(
                                    act,
                                    (#[trigger] bucket.take(j as int)[w]).game_id,
                                ) {
                                    Some(a) => a.covers(p) && span_covers(
                                        span_of(bucket.take(j as int)[w]),
                                        p,
                                    ),
                                    None => false,
                                };
                            assert(t1[w] == bucket.take(j as int)[w]);
                            assert(gp_covers(t1, act, p));
                        } else {
                            assert(t1[j as int] == req);
                            assert(gp_covers(t1, act, p));
                        }
                    }
                    if gp_covers(t1, act, p) {
                        let w = choose|w: int|
                            0 <= w < t1.len() && match map_get(
                                act,
                                (#[trigger] t1[w]).game_id,
                            ) {
                                Some(a) => a.covers(p) && span_covers(span_of(t1[w]), p),
                                None => false,
                            };
                        if w < j {
                            assert(bucket.take(j as int)[w] == t1[w]);
                            assert(gp_covers(bucket.take(j as int), act, p));
                        } else {
                            assert(t1[w] == req);
                            if !added {
                                // either the game has no activity set, or the
                                // request is inverted and covers nothing
                                assert(false);
                            }
                        }
                    }
                }
            }
            j = j + 1;
        }
        proof {
            assert(bucket.take(bucket.len() as int) =~= bucket);
        }
        let ghost unsorted = collected@;
        sort_vec(&mut collected);
        proof {
            assert forall|m: int|
                0 <= m < collected@.len() implies (#[trigger] collected@[m]).wf() by {
                collected@.to_multiset_ensures();
                unsorted.to_multiset_ensures();
                assert(collected@.to_multiset().count(collected@[m]) > 0);
                assert(unsorted.contains(collected@[m]));
                let w = choose|w: int| 0 <= w < unsorted.len() && unsorted[w] == collected@[m];
                assert(unsorted[w].wf());
            }
            crate::spanset::lemma_le_sorted_starts(collected@);
            assert forall|p: int|
                #[trigger] seq_covers(collected@, p) == seq_covers(unsorted, p) by {
                lemma_covers_multiset(collected@, unsorted, p);
            }
        }
        let spet = SpanSet::from_sorted(collected);
        out.push(GlobalPresence { spans: spet, user_id: entry.0 });
        k = k + 1;
    }
    out
}

} // verus!
