//! The active-user aggregator: per calendar day, each user's verified active
//! seconds, from the global presences.

use vstd::prelude::*;

use crate::globalpresence::GlobalPresence;
use crate::ordmap::OrdMap;
use crate::request::UserId;
use crate::spanset::{canonical_spans, dur_sum, seq_covers, span_covers, SpanSet, TimeSpan};

verus! {

/// Largest day number the aggregator accepts (plenty beyond any log).
pub const MAX_DAY: i64 = 100_000_000;

/// Whether sample point `p` lies in calendar day `d` (days since the epoch).
pub open spec fn day_cov(d: int, p: int) -> bool {
    2 * (d * 86400) <= p && p <= 2 * (d * 86400 + 86399)
}

/// The seconds of day `d` during which the interval set is active: the
/// summed durations of the set cut down to the day.
pub open spec fn day_secs(spansq: Seq<TimeSpan>, d: int) -> int {
    dur_sum(canonical_spans(|p: int| seq_covers(spansq, p) && day_cov(d, p)))
}

/// The rows of one day's table: each presence with a positive second count,
/// in presence order.
pub open spec fn day_rows(gps: Seq<GlobalPresence>, d: int) -> Seq<(UserId, i64)>
    decreases gps.len(),
{
    if gps.len() == 0 {
        Seq::empty()
    } else {
        day_rows(gps.drop_last(), d) + if day_secs(gps.last().spans.spans@, d) > 0 {
            seq![(gps.last().user_id, day_secs(gps.last().spans.spans@, d) as i64)]
        } else {
            Seq::empty()
        }
    }
}

/// For every day from `first_day` to `last_day` (days since the epoch,
/// inclusive), the seconds each user was verifiably active that day; users
/// with no active seconds are left out of the day's table.
pub fn active_user_seconds(
    global_presences: &Vec<GlobalPresence>,
    first_day: i64,
    last_day: i64,
) -> (r: OrdMap<i64, Vec<(UserId, i64)>>)
    requires
        -MAX_DAY <= first_day <= last_day <= MAX_DAY,
        forall|n: int|
            0 <= n < global_presences@.len() ==> (#[trigger] global_presences@[n]).spans.wf(),
    ensures
        r.wf(),
        r.entries@.len() == last_day - first_day + 1,
        forall|n: int| 0 <= n < r.entries@.len() ==> (#[trigger] r.entries@[n]).0 == first_day + n,
        forall|n: int|
            0 <= n < r.entries@.len() ==> (#[trigger] r.entries@[n]).1@ == day_rows(
                global_presences@,
                first_day + n,
            ),
{
    let ghost gps = global_presences@;
    let mut result: OrdMap<i64, Vec<(UserId, i64)>> = OrdMap { entries: Vec::new() };
    let mut day = first_day;
    while day <= last_day
        invariant
            first_day <= day <= last_day + 1,
            -MAX_DAY <= first_day <= last_day <= MAX_DAY,
            gps == global_presences@,
            forall|n: int| 0 <= n < gps.len() ==> (#[trigger] gps[n]).spans.wf(),
            result.entries@.len() == day - first_day,
            forall|n: int|
                0 <= n < result.entries@.len() ==> (#[trigger] result.entries@[n]).0 == first_day
                    + n,
            forall|n: int|
                0 <= n < result.entries@.len() ==> (#[trigger] result.entries@[n]).1@ == day_rows(
                    gps,
                    first_day + n,
                ),
        decreases last_day - day + 1,
    {
        let mut day_vec: Vec<TimeSpan> = Vec::new();
        let day_span = TimeSpan { start: day * 86400, end: day * 86400 + 86399 };
        day_vec.push(day_span);
        proof {
            assert(day_vec@ =~= seq![day_span]);
        }
        let day_set = SpanSet::from_sorted(day_vec);
        proof {
            assert forall|p: int| #[trigger] day_set.covers(p) == day_cov(day as int, p) by {
                if seq_covers(seq![day_span], p) {
                    let w = choose|w: int|
                        0 <= w < 1 && span_covers(#[trigger] seq![day_span][w], p);
                    assert(seq![day_span][w] == day_span);
                }
                if day_cov(day as int, p) {
                    assert(span_covers(day_span, p));
                    assert(seq![day_span][0] == day_span);
                    assert(seq_covers(seq![day_span], p));
                }
            }
        }
        let mut rows: Vec<(UserId, i64)> = Vec::new();
        let mut j: usize = 0;
        proof {
            assert(gps.take(0) =~= Seq::<GlobalPresence>::empty());
            assert(rows@ =~= day_rows(gps.take(0), day as int));
        }
        while j < global_presences.len()
            invariant
                0 <= j <= gps.len(),
                gps == global_presences@,
                forall|n: int| 0 <= n < gps.len() ==> (#[trigger] gps[n]).spans.wf(),
                day_set.wf(),
                forall|p: int| #[trigger] day_set.covers(p) == day_cov(day as int, p),
                rows@ == day_rows(gps.take(j as int), day as int),
            decreases gps.len() - j,
        {
            let gp = &global_presences[j];
            let inter = gp.spans.intersection(&day_set);
            let secs = inter.total_seconds();
            proof {
                assert forall|p: int|
                    #[trigger] seq_covers(inter.spans@, p) == (seq_covers(gp.spans.spans@, p)
                        && day_cov(day as int, p)) by {
                    assert(inter.covers(p) == seq_covers(inter.spans@, p));
                }
                crate::spanset::lemma_canonical(
                    inter.spans@,
                    |p: int| seq_covers(gps[j as int].spans.spans@, p) && day_cov(day as int, p),
                );
                assert(secs == day_secs(gps[j as int].spans.spans@, day as int));
                let t1 = gps.take(j + 1);
                assert(t1.drop_last() =~= gps.take(j as int));
                assert(t1.last() == gps[j as int]);
            }
            if secs > 0 {
                let ghost prev = rows@;
                rows.push((gp.user_id, secs));
                proof {
                    assert(rows@ =~= prev + seq![(gps[j as int].user_id, secs)]);
                }
            } else {
                proof {
                    assert(rows@ + Seq::<(UserId, i64)>::empty() =~= rows@);
                }
            }
            j = j + 1;
        }
        proof {
            assert(gps.take(gps.len() as int) =~= gps);
        }
        let ghost prev_entries = result.entries@;
        result.entries.push((day, rows));
        day = day + 1;
    }
    proof {
        assert forall|p: int, q: int|
            0 <= p < q < result.entries@.len() implies crate::ordmap::key_lt(
            #[trigger] result.entries@[p].0,
            #[trigger] result.entries@[q].0,
        ) by {
            assert(result.entries@[p].0 == first_day + p);
            assert(result.entries@[q].0 == first_day + q);
        }
    }
    result
}

} // verus!
