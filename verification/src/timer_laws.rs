//! Laws of the election timers: spread, they keep candidates apart; aligned,
//! they make candidates collide.

use crate::actions::{earlier, lemma_timers};
use crate::protocol::{running_timers, ModelView, ServerView};
use crate::raft::MAX_RPC_LATENCY;
use crate::tick::lemma_filtered;
use crate::util::INF;
use vstd::prelude::*;
use vstd::relations::total_ordering;

verus! {

/// The timer of server `i` is running, and none runs out before it.
pub open spec fn rings_first(m: ModelView, i: int) -> bool {
    &&& 0 <= i < m.servers.len()
    &&& m.servers[i].timer_runs(m.time)
    &&& forall|j: int|
        0 <= j < m.servers.len() && (#[trigger] m.servers[j]).timer_runs(m.time)
            ==> m.servers[i].election_alarm <= m.servers[j].election_alarm
}

/// What a filter lets through is in its result.
pub proof fn lemma_passes_filter<A>(s: Seq<A>, pred: spec_fn(A) -> bool, i: int)
    requires
        0 <= i < s.len(),
        pred(s[i]),
    ensures
        s.filter(pred).contains(s[i]),
    decreases s.len(),
{
    reveal(Seq::filter);
    let t = s.drop_last();
    if i < t.len() {
        assert(t[i] == s[i]);
        lemma_passes_filter(t, pred, i);
        let j = choose|j: int| 0 <= j < t.filter(pred).len() && t.filter(pred)[j] == s[i];
        assert(s.filter(pred)[j] == s[i]);
    } else {
        assert(s.filter(pred).last() == s[i]);
    }
}

/// Of a list with two items that a filter lets through, two are left.
proof fn lemma_two_pass<A>(s: Seq<A>, pred: spec_fn(A) -> bool, i: int, j: int)
    requires
        0 <= i < s.len(),
        0 <= j < s.len(),
        i != j,
        pred(s[i]),
        pred(s[j]),
    ensures
        s.filter(pred).len() > 1,
    decreases s.len(),
{
    reveal(Seq::filter);
    let t = s.drop_last();
    if i < t.len() && j < t.len() {
        assert(t[i] == s[i] && t[j] == s[j]);
        lemma_two_pass(t, pred, i, j);
    } else {
        let k = if i < t.len() {
            i
        } else {
            j
        };
        assert(t[k] == s[k]);
        lemma_passes_filter(t, pred, k);
    }
}

/// Two places in the result of a filter come from two places before it.
proof fn lemma_filter_apart<A>(s: Seq<A>, pred: spec_fn(A) -> bool, i: int, j: int)
    requires
        0 <= i < j < s.filter(pred).len(),
    ensures
        exists|a: int, b: int|
            0 <= a < b < s.len() && #[trigger] s[a] == s.filter(pred)[i] && #[trigger] s[b]
                == s.filter(pred)[j],
    decreases s.len(),
{
    reveal(Seq::filter);
    if s.len() > 0 {
        let t = s.drop_last();
        if j < t.filter(pred).len() {
            lemma_filter_apart(t, pred, i, j);
            let (a, b) = choose|a: int, b: int|
                0 <= a < b < t.len() && #[trigger] t[a] == t.filter(pred)[i] && #[trigger] t[b]
                    == t.filter(pred)[j];
            assert(s[a] == t[a] && s[b] == t[b]);
        } else {
            lemma_filtered(t, pred, i);
            let a = choose|a: int| 0 <= a < t.len() && t[a] == t.filter(pred)[i];
            assert(s[a] == t[a]);
            assert(s[s.len() - 1] == s.filter(pred)[j]);
        }
    }
}

/// Every running timer is listed.
proof fn lemma_timer_listed(m: ModelView, i: int)
    requires
        0 <= i < m.servers.len(),
        m.servers[i].timer_runs(m.time),
    ensures
        m.timers().len() > 0,
        m.timers()[0] <= m.servers[i].election_alarm,
        m.timers().contains(m.servers[i].election_alarm),
{
    let runs = |s: ServerView| s.timer_runs(m.time);
    let all = running_timers(m.servers, m.time);
    assert(earlier() =~= |a: u64, b: u64| a <= b);
    assert(total_ordering(earlier()));
    all.lemma_sort_by_ensures(earlier());
    lemma_passes_filter(m.servers, runs, i);
    let k = choose|k: int|
        0 <= k < m.servers.filter(runs).len() && m.servers.filter(runs)[k] == m.servers[i];
    assert(all[k] == m.servers[i].election_alarm);
    vstd::seq_lib::to_multiset_contains(all, all[k]);
    vstd::seq_lib::to_multiset_contains(m.timers(), all[k]);
    lemma_timers(m);
}

/// With two timers running, two are listed.
proof fn lemma_two_listed(m: ModelView, i: int, j: int)
    requires
        0 <= i < m.servers.len(),
        0 <= j < m.servers.len(),
        i != j,
        m.servers[i].timer_runs(m.time),
        m.servers[j].timer_runs(m.time),
    ensures
        m.timers().len() > 1,
{
    broadcast use vstd::seq_lib::group_to_multiset_ensures;

    let runs = |s: ServerView| s.timer_runs(m.time);
    let all = running_timers(m.servers, m.time);
    assert(earlier() =~= |a: u64, b: u64| a <= b);
    assert(total_ordering(earlier()));
    all.lemma_sort_by_ensures(earlier());
    lemma_two_pass(m.servers, runs, i, j);
    assert(all.len() > 1);
    assert(m.timers().to_multiset() == all.to_multiset());
    assert(m.timers().to_multiset().len() == m.timers().len());
    assert(all.to_multiset().len() == all.len());
}

/// Two listed timers belong to two servers.
proof fn lemma_timers_owned(m: ModelView, x: u64, y: u64)
    requires
        m.timers().len() > 1,
        x == m.timers()[0],
        y == m.timers()[1],
    ensures
        exists|a: int, b: int|
            #![trigger m.servers[a], m.servers[b]]
            0 <= a < m.servers.len() && 0 <= b < m.servers.len() && a != b
                && m.servers[a].timer_runs(m.time) && m.servers[b].timer_runs(m.time)
                && m.servers[a].election_alarm == x && m.servers[b].election_alarm == y,
{
    broadcast use vstd::seq_lib::group_to_multiset_ensures;

    let runs = |s: ServerView| s.timer_runs(m.time);
    let t = m.timers();
    let all = running_timers(m.servers, m.time);
    assert(earlier() =~= |a: u64, b: u64| a <= b);
    assert(total_ordering(earlier()));
    all.lemma_sort_by_ensures(earlier());
    assert(t.contains(t[0]));
    assert(all.contains(x));
    let i = choose|i: int| 0 <= i < all.len() && all[i] == x;
    let rest = all.remove(i);
    assert(t.remove(0).to_multiset() =~= rest.to_multiset());
    assert(t.remove(0)[0] == y);
    assert(t.remove(0).contains(y));
    assert(t.remove(0).to_multiset().count(y) > 0);
    assert(rest.to_multiset().count(y) > 0);
    assert(rest.contains(y));
    let k = choose|k: int| 0 <= k < rest.len() && rest[k] == y;
    let j = if k < i {
        k
    } else {
        k + 1
    };
    assert(all[j] == y);
    lemma_filtered(m.servers, runs, i);
    lemma_filtered(m.servers, runs, j);
    if i < j {
        lemma_filter_apart(m.servers, runs, i, j);
        let (a, b) = choose|a: int, b: int|
            0 <= a < b < m.servers.len() && #[trigger] m.servers[a] == m.servers.filter(runs)[i]
                && #[trigger] m.servers[b] == m.servers.filter(runs)[j];
        assert(runs(m.servers[a]) && runs(m.servers[b]));
    } else {
        lemma_filter_apart(m.servers, runs, j, i);
        let (b, a) = choose|b: int, a: int|
            0 <= b < a < m.servers.len() && #[trigger] m.servers[b] == m.servers.filter(runs)[j]
                && #[trigger] m.servers[a] == m.servers.filter(runs)[i];
        assert(runs(m.servers[a]) && runs(m.servers[b]));
    }
}

/// After the timers have been spread, a timer that rings first has a head
/// start: every other one either rings together with it or only after its
/// requests for votes have arrived.
pub proof fn law_spread_gives_a_head_start(m: ModelView, i: int, j: int)
    requires
        rings_first(m.timers_spread(), i),
        0 <= j < m.servers.len(),
        m.timers_spread().servers[j].timer_runs(m.time),
    ensures
        ({
            let first = m.timers_spread().servers[i].election_alarm;
            let other = m.timers_spread().servers[j].election_alarm;
            other == first || other >= first + MAX_RPC_LATENCY
        }),
{
    let t = m.timers();
    let n = m.timers_spread();
    lemma_timers(m);
    assert(n.servers[j].timer_runs(n.time));
    if m.servers[i].timer_runs(m.time) {
        lemma_timer_listed(m, i);
    }
    if m.servers[j].timer_runs(m.time) {
        lemma_timer_listed(m, j);
    }
    if t.len() > 1 {
        lemma_timers_owned(m, t[0], t[1]);
        let (a, b) = choose|a: int, b: int|
            #![trigger m.servers[a], m.servers[b]]
            0 <= a < m.servers.len() && 0 <= b < m.servers.len() && a != b
                && m.servers[a].timer_runs(m.time) && m.servers[b].timer_runs(m.time)
                && m.servers[a].election_alarm == t[0] && m.servers[b].election_alarm == t[1];
        assert(n.servers[a].timer_runs(n.time));
        assert(n.servers[i].election_alarm <= n.servers[a].election_alarm);
    }
}

/// The timer of server `i` is running, and all others run out after it.
pub open spec fn rings_alone(m: ModelView, i: int) -> bool {
    &&& 0 <= i < m.servers.len()
    &&& m.servers[i].timer_runs(m.time)
    &&& forall|j: int|
        0 <= j < m.servers.len() && j != i && (#[trigger] m.servers[j]).timer_runs(m.time)
            ==> m.servers[i].election_alarm < m.servers[j].election_alarm
}

/// Spreading the timers avoids a split vote: a server that alone has the
/// earliest timer still has it alone, and every other one rings only after its
/// requests for votes have arrived.
pub proof fn law_spread_avoids_a_split_vote(m: ModelView, i: int)
    requires
        rings_alone(m, i),
    ensures
        rings_alone(m.timers_spread(), i),
        forall|j: int|
            0 <= j < m.servers.len() && j != i && (
            #[trigger] m.timers_spread().servers[j]).timer_runs(m.time)
                ==> m.timers_spread().servers[j].election_alarm
                >= m.timers_spread().servers[i].election_alarm + MAX_RPC_LATENCY,
{
    let t = m.timers();
    let n = m.timers_spread();
    lemma_timers(m);
    lemma_timer_listed(m, i);
    if t.len() > 1 {
        lemma_timers_owned(m, t[0], t[1]);
        let (a, b) = choose|a: int, b: int|
            #![trigger m.servers[a], m.servers[b]]
            0 <= a < m.servers.len() && 0 <= b < m.servers.len() && a != b
                && m.servers[a].timer_runs(m.time) && m.servers[b].timer_runs(m.time)
                && m.servers[a].election_alarm == t[0] && m.servers[b].election_alarm == t[1];
        assert(a == i);
    }
    assert forall|k: int| 0 <= k < m.servers.len() && (#[trigger] n.servers[k]).timer_runs(
        m.time,
    ) && n.servers[k].election_alarm <= n.servers[i].election_alarm implies k == i by {
        if m.servers[k].timer_runs(m.time) {
            lemma_timer_listed(m, k);
        }
    }
    assert(rings_first(n, i));
    assert forall|j: int| 0 <= j < m.servers.len() && j != i && (
    #[trigger] n.servers[j]).timer_runs(m.time) implies n.servers[j].election_alarm
        >= n.servers[i].election_alarm + MAX_RPC_LATENCY by {
        law_spread_gives_a_head_start(m, i, j);
    }
}

/// Spreading the timers twice does no more than spreading them once, unless
/// several servers share the earliest timer and it is so far off that they are
/// moved ahead together once more.
pub proof fn law_spread_is_idempotent(m: ModelView)
    requires
        forall|i: int, j: int| #[trigger]
            rings_first(m, i) && #[trigger] rings_first(m, j) && i != j
                ==> m.servers[i].election_alarm <= m.time + 2 * MAX_RPC_LATENCY,
    ensures
        m.timers_spread().timers_spread() == m.timers_spread(),
{
    let n = m.timers_spread();
    let t = m.timers();
    let tn = n.timers();
    lemma_timers(m);
    lemma_timers(n);
    if tn.len() > 1 && tn[1] - tn[0] < MAX_RPC_LATENCY {
        lemma_timers_owned(n, tn[0], tn[1]);
        let (a, b) = choose|a: int, b: int|
            #![trigger n.servers[a], n.servers[b]]
            0 <= a < n.servers.len() && 0 <= b < n.servers.len() && a != b
                && n.servers[a].timer_runs(n.time) && n.servers[b].timer_runs(n.time)
                && n.servers[a].election_alarm == tn[0] && n.servers[b].election_alarm == tn[1];
        assert forall|k: int| 0 <= k < n.servers.len() && (#[trigger] n.servers[k]).timer_runs(
            n.time,
        ) implies tn[0] <= n.servers[k].election_alarm by {
            lemma_timer_listed(n, k);
        }
        assert(rings_first(n, a));
        law_spread_gives_a_head_start(m, a, b);
        assert forall|k: int| 0 <= k < m.servers.len() && (#[trigger] m.servers[k]).timer_runs(
            m.time,
        ) implies t.len() > 0 && t[0] <= m.servers[k].election_alarm by {
            lemma_timer_listed(m, k);
        }
        if t.len() > 1 && t[1] - t[0] < MAX_RPC_LATENCY {
            lemma_timers_owned(m, t[0], t[1]);
            let (c, d) = choose|c: int, d: int|
                #![trigger m.servers[c], m.servers[d]]
                0 <= c < m.servers.len() && 0 <= d < m.servers.len() && c != d
                    && m.servers[c].timer_runs(m.time) && m.servers[d].timer_runs(m.time)
                    && m.servers[c].election_alarm == t[0] && m.servers[d].election_alarm == t[1];
            assert(n.servers[c].timer_runs(n.time));
            if t[0] > m.time + MAX_RPC_LATENCY {
                assert(tn[0] == t[0] - MAX_RPC_LATENCY);
                assert(m.servers[a].election_alarm == t[0]);
                assert(m.servers[b].election_alarm == t[0]);
                assert(rings_first(m, a) && rings_first(m, b));
            } else {
                assert(tn[0] == t[0]);
            }
            assert forall|k: int| 0 <= k < n.servers.len() implies !(tn[0] < (
            #[trigger] n.servers[k]).election_alarm < tn[0] + MAX_RPC_LATENCY) by {
                if tn[0] < n.servers[k].election_alarm < tn[0] + MAX_RPC_LATENCY {
                    assert(m.servers[k].timer_runs(m.time) || t[0] <= m.time + MAX_RPC_LATENCY);
                }
            }
            assert(n.timers_spread().servers =~= n.servers);
        } else {
            assert(n == m);
        }
    }
}

/// Spreading the timers stops none of them, as long as `INF` is not near.
pub proof fn law_spread_stops_no_timer(m: ModelView, i: int)
    requires
        0 <= i < m.servers.len(),
        m.servers[i].timer_runs(m.time),
        m.servers[i].election_alarm + MAX_RPC_LATENCY < INF,
    ensures
        m.timers_spread().servers[i].timer_runs(m.time),
{
    lemma_timers(m);
}

/// After the timers have been aligned, the first to ring do not ring alone: if
/// two timers were running, two servers stand for election at the same moment.
pub proof fn law_aligned_timers_collide(m: ModelView, i: int, j: int) -> (c: (int, int))
    requires
        0 <= i < m.servers.len(),
        0 <= j < m.servers.len(),
        i != j,
        m.servers[i].timer_runs(m.time),
        m.servers[j].timer_runs(m.time),
        m.servers[i].election_alarm + MAX_RPC_LATENCY < INF,
        m.servers[j].election_alarm + MAX_RPC_LATENCY < INF,
    ensures
        c.0 != c.1,
        rings_first(m.timers_aligned(), c.0),
        rings_first(m.timers_aligned(), c.1),
{
    let n = m.timers_spread();
    let t = n.timers();
    law_spread_stops_no_timer(m, i);
    law_spread_stops_no_timer(m, j);
    lemma_two_listed(n, i, j);
    lemma_timers(n);
    lemma_timers_owned(n, t[0], t[1]);
    let (a, b) = choose|a: int, b: int|
        #![trigger n.servers[a], n.servers[b]]
        0 <= a < n.servers.len() && 0 <= b < n.servers.len() && a != b
            && n.servers[a].timer_runs(n.time) && n.servers[b].timer_runs(n.time)
            && n.servers[a].election_alarm == t[0] && n.servers[b].election_alarm == t[1];
    let r = m.timers_aligned();
    assert forall|k: int| 0 <= k < r.servers.len() && (#[trigger] r.servers[k]).timer_runs(
        r.time,
    ) implies t[0] <= r.servers[k].election_alarm by {
        if n.servers[k].timer_runs(n.time) {
            lemma_timer_listed(n, k);
        }
    }
    (a, b)
}

// ----- exactly which timers move -----

/// Servers `a` and `b` have the two earliest of the timers that are running,
/// `a` the first.
pub open spec fn earliest_two(m: ModelView, a: int, b: int) -> bool {
    &&& 0 <= a < m.servers.len() && 0 <= b < m.servers.len() && a != b
    &&& m.time < m.servers[a].election_alarm <= m.servers[b].election_alarm < INF
    &&& forall|k: int|
        0 <= k < m.servers.len() && k != a && m.time < (#[trigger] m.servers[k]).election_alarm
            < INF ==> m.servers[b].election_alarm <= m.servers[k].election_alarm
}

/// `n` is `m` but for the election timers.
pub open spec fn only_timers_differ(m: ModelView, n: ModelView) -> bool {
    &&& n.time == m.time
    &&& n.messages == m.messages
    &&& n.servers.len() == m.servers.len()
    &&& forall|k: int|
        #![trigger n.servers[k]]
        0 <= k < m.servers.len() ==> n.servers[k] == (ServerView {
            election_alarm: n.servers[k].election_alarm,
            ..m.servers[k]
        })
}

/// A later place in the result of a filter holds what a second item became.
proof fn lemma_two_pass_apart<A>(s: Seq<A>, pred: spec_fn(A) -> bool, i: int, j: int)
    requires
        0 <= i < s.len(),
        0 <= j < s.len(),
        i != j,
        pred(s[i]),
        pred(s[j]),
    ensures
        exists|a: int, b: int|
            #![trigger s.filter(pred)[a], s.filter(pred)[b]]
            0 <= a < s.filter(pred).len() && 0 <= b < s.filter(pred).len() && a != b
                && s.filter(pred)[a] == s[i] && s.filter(pred)[b] == s[j],
    decreases s.len(),
{
    reveal(Seq::filter);
    let t = s.drop_last();
    let f = s.filter(pred);
    if i < t.len() && j < t.len() {
        assert(t[i] == s[i] && t[j] == s[j]);
        lemma_two_pass_apart(t, pred, i, j);
        let (a, b) = choose|a: int, b: int|
            #![trigger t.filter(pred)[a], t.filter(pred)[b]]
            0 <= a < t.filter(pred).len() && 0 <= b < t.filter(pred).len() && a != b
                && t.filter(pred)[a] == s[i] && t.filter(pred)[b] == s[j];
        assert(f[a] == s[i] && f[b] == s[j]);
    } else {
        let k = if i < t.len() {
            i
        } else {
            j
        };
        assert(t[k] == s[k]);
        lemma_passes_filter(t, pred, k);
        let c = choose|c: int| 0 <= c < t.filter(pred).len() && t.filter(pred)[c] == s[k];
        let last = f.len() - 1;
        assert(f[c] == s[k]);
        if i < t.len() {
            assert(f[c] == s[i] && f[last] == s[j]);
        } else {
            assert(f[last] == s[i] && f[c] == s[j]);
        }
    }
}

/// The two earliest timers head the list of timers.
proof fn lemma_earliest_two_listed(m: ModelView, a: int, b: int)
    requires
        earliest_two(m, a, b),
    ensures
        m.timers().len() > 1,
        m.timers()[0] == m.servers[a].election_alarm,
        m.timers()[1] == m.servers[b].election_alarm,
{
    broadcast use vstd::seq_lib::group_to_multiset_ensures;

    let runs = |s: ServerView| s.timer_runs(m.time);
    let t = m.timers();
    let all = running_timers(m.servers, m.time);
    let (x, y) = (m.servers[a].election_alarm, m.servers[b].election_alarm);
    lemma_timers(m);
    lemma_two_listed(m, a, b);
    lemma_timer_listed(m, a);
    lemma_timers_owned(m, t[0], t[1]);
    let (c, d) = choose|c: int, d: int|
        #![trigger m.servers[c], m.servers[d]]
        0 <= c < m.servers.len() && 0 <= d < m.servers.len() && c != d
            && m.servers[c].timer_runs(m.time) && m.servers[d].timer_runs(m.time)
            && m.servers[c].election_alarm == t[0] && m.servers[d].election_alarm == t[1];
    assert(t[0] == x);
    assert(t[0] <= t[1]);
    assert(t[1] >= y);
    lemma_two_pass_apart(m.servers, runs, a, b);
    let (i, j) = choose|i: int, j: int|
        #![trigger m.servers.filter(runs)[i], m.servers.filter(runs)[j]]
        0 <= i < m.servers.filter(runs).len() && 0 <= j < m.servers.filter(runs).len() && i != j
            && m.servers.filter(runs)[i] == m.servers[a] && m.servers.filter(runs)[j]
            == m.servers[b];
    assert(all[i] == x && all[j] == y);
    assert(earlier() =~= |a: u64, b: u64| a <= b);
    assert(total_ordering(earlier()));
    all.lemma_sort_by_ensures(earlier());
    let rest = all.remove(i);
    assert(rest[if j < i { j } else { j - 1 }] == y);
    assert(rest.contains(y));
    assert(t.remove(0).to_multiset() =~= rest.to_multiset());
    assert(rest.to_multiset().count(y) > 0);
    assert(t.remove(0).contains(y));
    let k = choose|k: int| 0 <= k < t.remove(0).len() && t.remove(0)[k] == y;
    assert(t[k + 1] == y);
    assert(t[1] <= t[k + 1]);
}

/// Wherever two timers are running there are two earliest.
pub proof fn law_some_timers_are_earliest(m: ModelView, i: int, j: int) -> (r: (int, int))
    requires
        0 <= i < m.servers.len(),
        0 <= j < m.servers.len(),
        i != j,
        m.time < m.servers[i].election_alarm < INF,
        m.time < m.servers[j].election_alarm < INF,
    ensures
        earliest_two(m, r.0, r.1),
{
    let first = lemma_earliest(m, -1, i);
    let second = lemma_earliest(m, first, if i == first { j } else { i });
    (first, second)
}

/// Of the timers that are running there is an earliest, even without that of
/// server `but`.
proof fn lemma_earliest(m: ModelView, but: int, i: int) -> (r: int)
    requires
        0 <= i < m.servers.len(),
        i != but,
        m.time < m.servers[i].election_alarm < INF,
    ensures
        0 <= r < m.servers.len(),
        r != but,
        m.time < m.servers[r].election_alarm < INF,
        forall|k: int|
            0 <= k < m.servers.len() && k != but && m.time < (#[trigger] m.servers[k]).election_alarm
                < INF ==> m.servers[r].election_alarm <= m.servers[k].election_alarm,
    decreases m.servers[i].election_alarm,
{
    if exists|k: int|
        0 <= k < m.servers.len() && k != but && m.time < (#[trigger] m.servers[k]).election_alarm
            < m.servers[i].election_alarm {
        let k = choose|k: int|
            0 <= k < m.servers.len() && k != but && m.time < (
            #[trigger] m.servers[k]).election_alarm < m.servers[i].election_alarm;
        lemma_earliest(m, but, k)
    } else {
        i
    }
}

/// Spreading moves exactly these timers, and nothing else: if the two earliest
/// are closer than a message may take, the first is moved ahead by that much
/// where there is time for it; else all that would ring too soon after the first
/// are put off by that much.
pub proof fn law_spreading(m: ModelView, a: int, b: int)
    requires
        earliest_two(m, a, b),
    ensures
        ({
            let n = m.timers_spread();
            let (x, y) = (m.servers[a].election_alarm, m.servers[b].election_alarm);
            &&& only_timers_differ(m, n)
            &&& forall|k: int|
                #![trigger n.servers[k]]
                0 <= k < m.servers.len() ==> {
                    let z = m.servers[k].election_alarm;
                    n.servers[k].election_alarm == if y >= x + MAX_RPC_LATENCY {
                        z as int
                    } else if x > m.time + MAX_RPC_LATENCY {
                        if z == x {
                            x - MAX_RPC_LATENCY
                        } else {
                            z as int
                        }
                    } else if x < z < x + MAX_RPC_LATENCY {
                        z + MAX_RPC_LATENCY
                    } else {
                        z as int
                    }
                }
        }),
{
    lemma_earliest_two_listed(m, a, b);
}

/// Aligning spreads the timers and then lets all that ring second ring with the
/// first; nothing else happens.
pub proof fn law_aligning(m: ModelView, a: int, b: int)
    requires
        earliest_two(m.timers_spread(), a, b),
    ensures
        ({
            let s = m.timers_spread();
            let n = m.timers_aligned();
            &&& only_timers_differ(m, n)
            &&& forall|k: int|
                #![trigger n.servers[k]]
                0 <= k < m.servers.len() ==> n.servers[k].election_alarm
                    == if s.servers[k].election_alarm == s.servers[b].election_alarm {
                    s.servers[a].election_alarm
                } else {
                    s.servers[k].election_alarm
                }
        }),
{
    lemma_earliest_two_listed(m.timers_spread(), a, b);
}

/// A timer that runs alone is left alone, and so is a cluster without any.
pub proof fn law_lone_timers_stay(m: ModelView)
    requires
        forall|i: int, j: int|
            #![trigger m.servers[i], m.servers[j]]
            0 <= i < m.servers.len() && 0 <= j < m.servers.len() && m.time
                < m.servers[i].election_alarm < INF && m.time < m.servers[j].election_alarm < INF
                ==> i == j,
    ensures
        m.timers_spread() == m,
        m.timers_aligned() == m,
{
    let t = m.timers();
    if t.len() > 1 {
        lemma_timers_owned(m, t[0], t[1]);
    }
}

} // verus!
