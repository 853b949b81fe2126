//! Majorities: counting votes, and finding what most replicas hold.

use crate::peer_map::{entry_of, keys_of};
use crate::protocol::ServerView;
use crate::raft::{Server, NUM_SERVERS};
use vstd::prelude::*;

verus! {

/// Counting a list without repetitions one further counts its set one further.
proof fn lemma_count_step(keys: Seq<u32>, i: int, pred: spec_fn(u32) -> bool)
    requires
        keys.no_duplicates(),
        0 <= i < keys.len(),
    ensures
        keys.take(i + 1).to_set().filter(pred).len() == keys.take(i).to_set().filter(pred).len()
            + if pred(keys[i]) {
            1nat
        } else {
            0nat
        },
{
    let before = keys.take(i).to_set().filter(pred);
    let after = keys.take(i + 1).to_set().filter(pred);
    vstd::seq_lib::seq_to_set_is_finite(keys.take(i));
    assert(keys.take(i + 1) =~= keys.take(i).push(keys[i]));
    assert(!keys.take(i).contains(keys[i]));
    assert forall|p: u32| #[trigger]
        keys.take(i + 1).to_set().contains(p) == (keys.take(i).to_set().contains(p) || p
            == keys[i]) by {
        if keys.take(i).contains(p) {
            let j = choose|j: int| 0 <= j < i && keys.take(i)[j] == p;
            assert(keys.take(i + 1)[j] == p);
        }
        assert(keys.take(i + 1)[i] == keys[i]);
    }
    if pred(keys[i]) {
        assert(after =~= before.insert(keys[i]));
    } else {
        assert(after =~= before);
    }
}

proof fn lemma_count_end(keys: Seq<u32>, pred: spec_fn(u32) -> bool)
    ensures
        keys.take(0).to_set().filter(pred).len() == 0,
        keys.take(keys.len() as int).to_set().filter(pred) == keys.to_set().filter(pred),
{
    assert(keys.take(0).to_set().filter(pred) =~= Set::empty());
    assert(keys.take(keys.len() as int) =~= keys);
}

/// More replicas trail behind a greater index.
pub proof fn lemma_trailing_monotonic(s: ServerView, i: int, j: int)
    requires
        s.match_index.dom().finite(),
        i <= j,
    ensures
        s.trailing(i) <= s.trailing(j),
{
    vstd::set_lib::lemma_len_subset(
        s.match_index.dom().filter(|p: u32| s.match_index[p] < i),
        s.match_index.dom().filter(|p: u32| s.match_index[p] < j),
    );
}

/// Only one index is agreed upon.
pub proof fn lemma_agreed_is(s: ServerView, index: int)
    requires
        s.match_index.dom().finite(),
        index >= 0,
        s.agreed_upto(index),
    ensures
        s.agreed() == index,
{
    let other = s.agreed();
    assert(other >= 0 && s.agreed_upto(other));
    if other < index {
        lemma_trailing_monotonic(s, other + 1, index);
    } else if index < other {
        lemma_trailing_monotonic(s, index + 1, other);
    }
}

/// Below an index that a majority trails there is one that is agreed upon.
proof fn lemma_agreed_below(s: ServerView, index: int)
    requires
        index >= 0,
        s.trailing(index + 1) > NUM_SERVERS / 2,
    ensures
        exists|n: int| 0 <= n <= index && s.agreed_upto(n),
    decreases index,
{
    if s.trailing(index) <= NUM_SERVERS / 2 {
        assert(s.agreed_upto(index));
    } else if index > 0 {
        lemma_agreed_below(s, index - 1);
    } else {
        assert(s.match_index.dom().filter(|p: u32| s.match_index[p] < 0) =~= Set::empty());
    }
}

/// With a replica for each of enough peers, some index is agreed upon, and it
/// is one that some replica ends at.
pub proof fn lemma_agreed(s: ServerView)
    requires
        s.match_index.dom().finite(),
        s.match_index.dom().len() >= NUM_SERVERS / 2,
        s.log.len() <= usize::MAX,
    ensures
        s.agreed() >= 0,
        s.agreed_upto(s.agreed()),
        s.agreed() == s.log.len() || exists|p: u32| #[trigger]
            s.match_index.contains_key(p) && s.match_index[p] == s.agreed(),
{
    let top = usize::MAX as int;
    assert(s.match_index.dom().filter(|p: u32| s.match_index[p] < top + 1) =~= s.match_index.dom());
    lemma_agreed_below(s, top);
    let n = s.agreed();
    let below = s.match_index.dom().filter(|p: u32| s.match_index[p] < n);
    let upto = s.match_index.dom().filter(|p: u32| s.match_index[p] < n + 1);
    if s.log.len() != n && forall|p: u32| #[trigger]
        s.match_index.contains_key(p) ==> s.match_index[p] != n {
        assert(below =~= upto);
    }
}

impl Server {
    /// How many peers have granted their vote.
    pub fn votes(&self) -> (n: usize)
        ensures
            n == self@.granters().len(),
    {
        let keys = keys_of(&self.vote_granted);
        let ghost pred = |p: u32| self@.vote_granted[p];
        let mut n: usize = 0;
        let mut i: usize = 0;
        proof {
            lemma_count_end(keys@, pred);
        }
        while i < keys.len()
            invariant
                keys@.no_duplicates(),
                keys@.to_set() == self.vote_granted@.dom(),
                pred == (|p: u32| self@.vote_granted[p]),
                n <= i <= keys@.len(),
                n == keys@.take(i as int).to_set().filter(pred).len(),
            decreases keys.len() - i,
        {
            proof {
                lemma_count_step(keys@, i as int, pred);
                assert(keys@.to_set().contains(keys@[i as int]));
            }
            if entry_of(&self.vote_granted, keys[i]) {
                n += 1;
            }
            i += 1;
        }
        n
    }

    /// How many replicas, the server itself counted, are not known to hold its
    /// log up to `index` or, if `beyond` is set, up to the index after that.
    fn trailing(&self, keys: &Vec<u32>, index: usize, beyond: bool) -> (n: u128)
        requires
            keys@.no_duplicates(),
            keys@.to_set() == self.match_index@.dom(),
        ensures
            n == self@.trailing(index + if beyond {
                1int
            } else {
                0int
            }),
    {
        let ghost bound: int = index + if beyond {
            1int
        } else {
            0int
        };
        let ghost pred = |p: u32| self@.match_index[p] < bound;
        let mut n: u128 = 0;
        let mut i: usize = 0;
        proof {
            lemma_count_end(keys@, pred);
        }
        while i < keys.len()
            invariant
                keys@.no_duplicates(),
                keys@.to_set() == self.match_index@.dom(),
                bound == index + if beyond {
                    1int
                } else {
                    0int
                },
                pred == (|p: u32| self@.match_index[p] < bound),
                n <= i <= keys@.len(),
                n == keys@.take(i as int).to_set().filter(pred).len(),
            decreases keys.len() - i,
        {
            proof {
                lemma_count_step(keys@, i as int, pred);
                assert(keys@.to_set().contains(keys@[i as int]));
            }
            let held: usize = entry_of(&self.match_index, keys[i]);
            if held < index || (beyond && held == index) {
                n += 1;
            }
            i += 1;
        }
        if self.log.len() < index || (beyond && self.log.len() == index) {
            n += 1;
        }
        n
    }

    /// The greatest index that all replicas but a minority are known to hold.
    pub fn agreed(&self) -> (index: usize)
        requires
            self@.match_index.dom().len() >= NUM_SERVERS / 2,
        ensures
            index == self@.agreed(),
    {
        let keys = keys_of(&self.match_index);
        let own: usize = self.log.len();
        proof {
            assert(self@.log.len() == own);
            lemma_agreed(self@);
        }
        let half: u128 = (NUM_SERVERS / 2) as u128;
        let mut i: usize = 0;
        while i < keys.len()
            invariant
                half == NUM_SERVERS / 2,
                keys@.no_duplicates(),
                keys@.to_set() == self.match_index@.dom(),
                self@.agreed_upto(self@.agreed()),
                i <= keys@.len(),
                forall|j: int| #![trigger keys@[j]]
                    0 <= j < i ==> self@.match_index[keys@[j]] != self@.agreed(),
            decreases keys.len() - i,
        {
            assert(keys@.to_set().contains(keys@[i as int]));
            let index: usize = entry_of(&self.match_index, keys[i]);
            if self.trailing(&keys, index, false) <= half && self.trailing(&keys, index, true)
                > half {
                proof {
                    lemma_agreed_is(self@, index as int);
                }
                return index;
            }
            i += 1;
        }
        proof {
            if exists|p: u32| #[trigger]
                self@.match_index.contains_key(p) && self@.match_index[p] == self@.agreed() {
                let p = choose|p: u32| #[trigger]
                    self@.match_index.contains_key(p) && self@.match_index[p] == self@.agreed();
                assert(keys@.to_set().contains(p));
                let j = choose|j: int| 0 <= j < keys@.len() && keys@[j] == p;
                assert(keys@[j] == p);
            }
        }
        own
    }
}

} // verus!
