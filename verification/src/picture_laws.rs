//! Laws of what is shown: colors, votes, progress, and numbers and times as
//! text.

use crate::details::{name_text, terms_text};
use crate::figures::{color_of, LogRow, VoteMark};
use crate::protocol::{BodyView, EntryView, MessageView, ModelView, ServerView};
use crate::raft::{ServerState, ELECTION_TIMEOUT};
use crate::text::{bool_text, decimal_text, digit_text, millis_text, rel_time_text};
use crate::util::INF;
use vstd::prelude::*;

verus! {

// ----- servers -----

/// Two terms have the same color exactly when they are a multiple of six apart,
/// so that neighbours never do.
pub proof fn law_colors_tell_terms_apart(a: u64, b: u64)
    ensures
        color_of(a) == color_of(b) <==> a % 6 == b % 6,
{
    reveal_strlit("#66c2a5");
    reveal_strlit("#fc8d62");
    reveal_strlit("#8da0cb");
    reveal_strlit("#e78ac3");
    reveal_strlit("#a6d854");
    reveal_strlit("#ffd92f");
    let (x, y) = (color_of(a), color_of(b));
    assert(a % 6 != b % 6 ==> x[1] != y[1] || x[2] != y[2] || x[3] != y[3]);
}

/// A server that is down is gray; any other has the color of its term, whatever
/// it does.
pub proof fn law_fill(s: ServerView)
    ensures
        s.state == ServerState::Stopped ==> s.fill() == "gray"@,
        s.state != ServerState::Stopped ==> s.fill() == color_of(s.term),
{
}

/// Of an election timer is shown what is left of it, nothing once it has run
/// out, and two election timeouts at most.
pub proof fn law_timer_left(s: ServerView, now: u64)
    ensures
        0 <= s.timer_left(now) <= 2 * ELECTION_TIMEOUT,
        s.election_alarm <= now ==> s.timer_left(now) == 0,
        now <= s.election_alarm <= now + 2 * ELECTION_TIMEOUT ==> now + s.timer_left(now)
            == s.election_alarm,
        s.election_alarm >= now + 2 * ELECTION_TIMEOUT ==> s.timer_left(now) == 2
            * ELECTION_TIMEOUT,
{
}

/// A candidate shows one vote for every server of the cluster, in the order of
/// the list: its own and those that it was granted as had; those that were given
/// to it in its term but have not reached it as coming; and no other. Nobody
/// else shows votes.
pub proof fn law_votes_shown(m: ModelView, i: int)
    requires
        0 <= i < m.servers.len(),
    ensures
        ({
            let s = m.servers[i];
            let votes = m.votes_in(i);
            &&& s.state != ServerState::Candidate ==> votes.len() == 0
            &&& s.state == ServerState::Candidate ==> {
                &&& votes.len() == m.servers.len()
                &&& forall|j: int|
                    #![trigger votes[j]]
                    0 <= j < votes.len() ==> {
                        let p = m.servers[j];
                        let has = p.id == s.id || (s.vote_granted.contains_key(p.id)
                            && s.vote_granted[p.id]);
                        let given = p.voted_for == Some(s.id) && p.term == s.term;
                        &&& votes[j].peer == p.id
                        &&& votes[j].mark == VoteMark::Have <==> has
                        &&& votes[j].mark == VoteMark::Coming <==> given && !has
                    }
            }
        }),
{
}

// ----- messages -----

/// What the kinds of messages are called, which of them are answers, and which
/// bring good news.
pub proof fn law_kinds_of_messages(m: MessageView)
    ensures
        m.replies() <==> m.body is RequestVoteRep || m.body is AppendEntriesRep,
        m.body is RequestVoteReq || m.body is RequestVoteRep ==> m.call_name() == "RequestVote"@,
        m.body is AppendEntriesReq || m.body is AppendEntriesRep ==> m.call_name()
            == "AppendEntries"@,
        m.body is RequestVoteReq || m.body is AppendEntriesReq ==> m.direction_name()
            == "request"@,
        m.body is RequestVoteRep || m.body is AppendEntriesRep ==> m.direction_name()
            == "reply"@,
        m.good_news() <==> m.body == (BodyView::RequestVoteRep { granted: true }) || (
        m.body is AppendEntriesRep && m.body->success),
{
}

// ----- logs -----

/// The row of a server shows its log entry by entry, and of each whether it is
/// committed. Of everybody but the leader it also shows how far the leader is
/// with them.
pub proof fn law_rows_of_logs(row: LogRow, m: ModelView, i: int)
    requires
        row.shows(m, i),
    ensures
        ({
            let s = m.servers[i];
            &&& row.id == s.id
            &&& row.state == s.state
            &&& row.entries@.len() == s.log.len()
            &&& forall|k: int|
                #![trigger row.entries@[k]]
                0 <= k < s.log.len() ==> {
                    let e = row.entries@[k];
                    &&& e.index == k + 1
                    &&& e.term == s.log[k].term
                    &&& e.committed <==> k < s.commit_index
                    &&& e.fill@ == color_of(s.log[k].term)
                }
            &&& row.progress is Some <==> m.leader() is Some && m.servers[m.leader()->0].id
                != s.id
            &&& row.progress is Some ==> {
                let l = m.servers[m.leader()->0];
                let p = row.progress->0;
                &&& l.match_index.contains_key(s.id) ==> p.match_index == l.match_index[s.id]
                &&& !l.match_index.contains_key(s.id) ==> p.match_index == 0
                &&& l.next_index.contains_key(s.id) ==> p.next_index == l.next_index[s.id]
                &&& !l.next_index.contains_key(s.id) ==> p.next_index == 1
            }
        }),
{
    let s = m.servers[i];
    assert forall|k: int| #![trigger row.entries@[k]] 0 <= k < s.log.len() implies {
        let e = row.entries@[k];
        &&& e.index == k + 1
        &&& e.term == s.log[k].term
        &&& e.committed <==> k < s.commit_index
        &&& e.fill@ == color_of(s.log[k].term)
    } by {
        assert(row.entries@[k].shows(s, k));
    }
}

// ----- numbers -----

/// The number that decimal digits stand for.
pub open spec fn reads(digits: Seq<char>) -> int
    decreases digits.len(),
{
    if digits.len() == 0 {
        0
    } else {
        10 * reads(digits.drop_last()) + (digits.last() as u32 - '0' as u32)
    }
}

/// All of them are decimal digits.
pub open spec fn all_digits(text: Seq<char>) -> bool {
    forall|k: int| 0 <= k < text.len() ==> '0' <= #[trigger] text[k] && text[k] <= '9'
}

proof fn lemma_digit(d: int)
    requires
        0 <= d < 10,
    ensures
        digit_text(d).len() == 1,
        all_digits(digit_text(d)),
        digit_text(d)[0] as u32 - '0' as u32 == d,
{
    reveal_strlit("0");
    reveal_strlit("1");
    reveal_strlit("2");
    reveal_strlit("3");
    reveal_strlit("4");
    reveal_strlit("5");
    reveal_strlit("6");
    reveal_strlit("7");
    reveal_strlit("8");
    reveal_strlit("9");
}

/// Reading on by one digit.
proof fn lemma_reads_on(text: Seq<char>, d: int)
    requires
        0 <= d < 10,
        all_digits(text),
    ensures
        reads(text + digit_text(d)) == 10 * reads(text) + d,
        all_digits(text + digit_text(d)),
{
    lemma_digit(d);
    let t = text + digit_text(d);
    assert(t.drop_last() =~= text);
    assert(t.last() == digit_text(d)[0]);
}

/// A number in decimal is made of digits, reads as the number, and has no
/// leading zeros.
pub proof fn law_numbers_can_be_read(n: nat)
    ensures
        all_digits(decimal_text(n)),
        reads(decimal_text(n)) == n,
        decimal_text(n).len() > 0,
        n > 0 ==> decimal_text(n)[0] != '0',
        n == 0 ==> decimal_text(n) == seq!['0'],
    decreases n,
{
    if n < 10 {
        lemma_digit(n as int);
        lemma_reads_on(Seq::empty(), n as int);
        assert(Seq::<char>::empty() + digit_text(n as int) =~= digit_text(n as int));
        assert(n == 0 ==> decimal_text(n)[0] as u32 == '0' as u32);
        reveal_strlit("0");
        assert(n == 0 ==> decimal_text(n) =~= seq!['0']);
    } else {
        law_numbers_can_be_read(n / 10);
        lemma_reads_on(decimal_text(n / 10), (n % 10) as int);
    }
}

/// A truth value is written out.
pub proof fn law_truth_in_words(b: bool)
    ensures
        b ==> bool_text(b) == "true"@,
        !b ==> bool_text(b) == "false"@,
{
}

// ----- times -----

/// A span reads as its microseconds, with a point before the last three digits
/// and the unit behind them.
pub proof fn law_spans_can_be_read(span: nat)
    ensures
        ({
            let t = millis_text(span);
            let n = t.len();
            &&& n >= 7
            &&& t[n - 6] == '.'
            &&& t[n - 2] == 'm' && t[n - 1] == 's'
            &&& all_digits(t.take(n - 6) + t.subrange(n - 5, n - 2))
            &&& reads(t.take(n - 6) + t.subrange(n - 5, n - 2)) == span
            &&& t.take(n - 6) == decimal_text(span / 1000)
        }),
{
    reveal_strlit(".");
    reveal_strlit("ms");
    let (a, b, c) = ((span / 100 % 10) as int, (span / 10 % 10) as int, (span % 10) as int);
    let whole = decimal_text(span / 1000);
    law_numbers_can_be_read(span / 1000);
    lemma_digit(a);
    lemma_digit(b);
    lemma_digit(c);
    let t = millis_text(span);
    let n = t.len();
    lemma_reads_on(whole, a);
    lemma_reads_on(whole + digit_text(a), b);
    lemma_reads_on(whole + digit_text(a) + digit_text(b), c);
    assert(t.take(n - 6) =~= whole);
    assert(t.subrange(n - 5, n - 2) =~= digit_text(a) + digit_text(b) + digit_text(c));
    assert(whole + (digit_text(a) + digit_text(b) + digit_text(c)) =~= whole + digit_text(a)
        + digit_text(b) + digit_text(c));
    assert(span == 1000 * (span / 1000) + 100 * a + 10 * b + c);
}

/// A time is shown as its distance from now: with a plus if it is to come, with
/// a minus if it has passed, without a sign if it is now. What never comes is
/// shown as such.
pub proof fn law_times_from_now(time: u64, now: u64)
    ensures
        time == INF ==> rel_time_text(time, now) == "infinity"@,
        time != INF && time > now ==> rel_time_text(time, now) == seq!['+'] + millis_text(
            (time - now) as nat,
        ),
        time != INF && time < now ==> rel_time_text(time, now) == seq!['-'] + millis_text(
            (now - time) as nat,
        ),
        time != INF && time == now ==> rel_time_text(time, now) == millis_text(0),
{
    reveal_strlit("+");
    reveal_strlit("-");
    assert("+"@ =~= seq!['+']);
    assert("-"@ =~= seq!['-']);
}

// ----- dialogs -----

/// `value` under `name` in a list of definitions.
pub open spec fn defined(name: Seq<char>, value: Seq<char>) -> Seq<char> {
    "<dt>"@ + name + "</dt><dd>"@ + value + "</dd>"@
}

/// Servers are named by an S and their number.
pub proof fn law_names(id: u32)
    ensures
        name_text(id) == seq!['S'] + decimal_text(id as nat),
{
    reveal_strlit("S");
    assert("S"@ =~= seq!['S']);
}

/// The terms of entries are listed in their order, with a blank in between.
pub proof fn law_lists_of_terms(entries: Seq<EntryView>, e: EntryView)
    ensures
        terms_text(Seq::empty()) == ""@,
        terms_text(entries.push(e)) == if entries.len() == 0 {
            decimal_text(e.term as nat)
        } else {
            terms_text(entries) + " "@ + decimal_text(e.term as nat)
        },
{
    assert(entries.push(e).drop_last() =~= entries);
}

/// What the dialog of a message says.
pub proof fn law_dialog_of_a_message(m: MessageView, now: u64)
    ensures
        m.details(now) == "<dl class=\"dl-horizontal\">"@ + defined("from"@, name_text(m.from))
            + defined("to"@, name_text(m.to)) + defined("sent"@, rel_time_text(m.send_time, now))
            + defined("deliver"@, rel_time_text(m.recv_time, now)) + defined(
            "term"@,
            decimal_text(m.term as nat),
        ) + m.body.details() + "</dl>"@,
        match m.body {
            BodyView::RequestVoteReq { last_log_term, last_log_index } => m.body.details()
                == defined("lastLogIndex"@, decimal_text(last_log_index as nat)) + defined(
                "lastLogTerm"@,
                decimal_text(last_log_term as nat),
            ),
            BodyView::RequestVoteRep { granted } => m.body.details() == defined(
                "granted"@,
                bool_text(granted),
            ),
            BodyView::AppendEntriesReq { prev_index, prev_term, entries, commit_index } => {
                m.body.details() == defined("prevIndex"@, decimal_text(prev_index as nat))
                    + defined("prevTerm"@, decimal_text(prev_term as nat)) + defined(
                    "entries"@,
                    "["@ + terms_text(entries) + "]"@,
                ) + defined("commitIndex"@, decimal_text(commit_index as nat))
            },
            BodyView::AppendEntriesRep { success, match_index } => m.body.details() == defined(
                "success"@,
                bool_text(success),
            ) + defined("matchIndex"@, decimal_text(match_index as nat)),
        },
{
}

/// `value` in a table.
pub open spec fn celled(value: Seq<char>) -> Seq<char> {
    "<td>"@ + value + "</td>"@
}

/// What the dialog of a server says: its own fields, and a row for each peer, in
/// the order of its list, with what it keeps of that peer.
pub proof fn law_dialog_of_a_server(s: ServerView, now: u64, n: nat)
    ensures
        s.details(now) == "<dl class=\"dl-horizontal\">"@ + defined("state"@, s.state.name())
            + defined("currentTerm"@, decimal_text(s.term as nat)) + defined(
            "votedFor"@,
            match s.voted_for {
                Some(id) => decimal_text(id as nat),
                None => "null"@,
            },
        ) + defined("commitIndex"@, decimal_text(s.commit_index as nat)) + defined(
            "electionAlarm"@,
            rel_time_text(s.election_alarm, now),
        ) + defined(
            "peers"@,
            "<table class=\"table table-condensed\">"@ + s.peer_rows(s.peers.len(), now)
                + "</table>"@,
        ) + "</dl>"@,
        s.peer_rows(n + 1, now) == s.peer_rows(n, now) + s.peer_row(s.peers[n as int], now),
        forall|p: u32| #[trigger]
            s.peer_row(p, now) == "<tr>"@ + celled(name_text(p)) + celled(
                decimal_text(s.next_index[p] as nat),
            ) + celled(decimal_text(s.match_index[p] as nat)) + celled(
                bool_text(s.vote_granted[p]),
            ) + celled(rel_time_text(s.rpc_due[p], now)) + celled(
                rel_time_text(s.heartbeat_due[p], now),
            ) + "</tr>"@,
        s.state.name() == match s.state {
            ServerState::Stopped => "stopped"@,
            ServerState::Follower => "follower"@,
            ServerState::Candidate => "candidate"@,
            ServerState::Leader => "leader"@,
        },
{
}

} // verus!
