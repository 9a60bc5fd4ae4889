//! Load-aware bully election. Each replica broadcasts its recent CPU load
//! and its process id; whoever holds the minimal `(load, id)` pair under
//! the lexicographic order wins, smaller id breaking ties. A replica that
//! hears no peer at all declares itself leader. A replica that took a
//! `FAIL` hit ignores elections for thirty seconds.

use vstd::prelude::*;

verus! {

/// One election ballot. The load is an integer measure of recent CPU use
/// (thousandths of a percent), so ballots order exactly; the id is the
/// replica's process id.
#[derive(Clone, Copy, Debug, PartialEq, Eq, Structural)]
pub struct Ballot {
    pub load: u32,
    pub id: u32,
}

/// `a` is at least as strong a candidate as `b`: lower load, or the same
/// load and an id no larger.
pub open spec fn ballot_wins(a: Ballot, b: Ballot) -> bool {
    a.load < b.load || (a.load == b.load && a.id <= b.id)
}

/// The winning ballot among the replica's own and all collected responses:
/// minimal under `(load, id)`, earlier ballots kept on exact ties.
pub open spec fn elected(own: Ballot, responses: Seq<Ballot>) -> Ballot
    decreases responses.len(),
{
    if responses.len() == 0 {
        own
    } else {
        let rest = elected(own, responses.drop_last());
        if ballot_wins(rest, responses.last()) {
            rest
        } else {
            responses.last()
        }
    }
}

/// The winner is one of the candidates and beats every candidate.
pub proof fn lemma_elected_minimal(own: Ballot, responses: Seq<Ballot>)
    ensures
        elected(own, responses) == own || responses.contains(elected(own, responses)),
        ballot_wins(elected(own, responses), own),
        forall|k: int|
            0 <= k < responses.len() ==> ballot_wins(elected(own, responses), #[trigger] responses[k]),
    decreases responses.len(),
{
    if responses.len() > 0 {
        lemma_elected_minimal(own, responses.drop_last());
        let rest = elected(own, responses.drop_last());
        if responses.drop_last().contains(rest) {
            let j = choose|j: int|
                0 <= j < responses.drop_last().len() && responses.drop_last()[j] == rest;
            assert(responses[j] == rest);
        }
        assert forall|k: int| 0 <= k < responses.len() implies ballot_wins(
            elected(own, responses),
            #[trigger] responses[k],
        ) by {
            if k < responses.len() - 1 {
                assert(responses.drop_last()[k] == responses[k]);
            }
        }
    }
}

/// Exactly one winner: among candidates with pairwise distinct ids, every
/// candidate other than the winner is strictly weaker.
pub proof fn lemma_elected_unique(own: Ballot, responses: Seq<Ballot>)
    requires
        forall|j: int, k: int|
            0 <= j < k < responses.len() ==> (#[trigger] responses[j]).id != (
            #[trigger] responses[k]).id,
        forall|k: int| 0 <= k < responses.len() ==> (#[trigger] responses[k]).id != own.id,
    ensures
        forall|k: int|
            0 <= k < responses.len() && responses[k] != elected(own, responses)
                ==> !ballot_wins(#[trigger] responses[k], elected(own, responses)),
        own != elected(own, responses) ==> !ballot_wins(own, elected(own, responses)),
{
    lemma_elected_minimal(own, responses);
    let w = elected(own, responses);
    assert forall|k: int|
        0 <= k < responses.len() && responses[k] != w implies !ballot_wins(
        #[trigger] responses[k],
        w,
    ) by {
        if ballot_wins(responses[k], w) {
            assert(responses[k].load == w.load && responses[k].id == w.id);
            if w == own {
            } else {
                let j = choose|j: int| 0 <= j < responses.len() && responses[j] == w;
                assert(responses[j].id == responses[k].id);
            }
        }
    }
    if own != w && ballot_wins(own, w) {
        assert(own.load == w.load && own.id == w.id);
        let j = choose|j: int| 0 <= j < responses.len() && responses[j] == w;
        assert(responses[j].id == own.id);
    }
}

/// The decision a replica reaches after collecting ballots.
#[derive(Clone, Copy, Debug, PartialEq, Eq, Structural)]
pub struct ElectionOutcome {
    /// This replica won: either by minimal `(load, id)`, or because no
    /// peer responded at all.
    pub is_leader: bool,
    /// The winning ballot.
    pub winner: Ballot,
}

/// Decide an election from the replica's own ballot and the responses that
/// arrived within the collection window. With no responses at all the
/// replica declares itself leader unconditionally.
pub fn decide_election(own: Ballot, responses: &Vec<Ballot>) -> (r: ElectionOutcome)
    ensures
        r.winner == elected(own, responses@),
        r.is_leader == (responses@.len() == 0 || elected(own, responses@).id == own.id),
{
    let mut winner = own;
    let mut k: usize = 0;
    while k < responses.len()
        invariant
            k <= responses@.len(),
            winner == elected(own, responses@.take(k as int)),
        decreases responses@.len() - k,
    {
        let b = responses[k];
        proof {
            assert(responses@.take(k as int + 1).drop_last() =~= responses@.take(k as int));
            assert(responses@.take(k as int + 1).last() == responses@[k as int]);
        }
        if b.load < winner.load || (b.load == winner.load && b.id < winner.id) {
            winner = b;
        }
        k = k + 1;
    }
    proof {
        assert(responses@.take(responses@.len() as int) =~= responses@);
    }
    let is_leader = responses.len() == 0 || winner.id == own.id;
    ElectionOutcome { is_leader, winner }
}

/// An election with zero reachable peers makes the initiator the leader.
pub proof fn lemma_no_responders_self_win(own: Ballot)
    ensures
        elected(own, Seq::empty()) == own,
{
}

/// The thirty-second window during which a replica that received `FAIL`
/// ignores election requests.
pub struct FailWindow {
    pub down_until: u64,
}

impl FailWindow {
    /// A replica that never failed.
    pub fn new() -> (r: FailWindow)
        ensures
            r.down_until == 0,
    {
        FailWindow { down_until: 0 }
    }

    /// Take a `FAIL` hit at `now` (seconds): the replica stays down for
    /// thirty seconds.
    pub fn fail(&mut self, now: u64)
        requires
            now + 30 <= u64::MAX,
        ensures
            final(self).down_until == now + 30,
    {
        self.down_until = now + 30;
    }

    /// Whether the replica still ignores elections at `now`.
    pub fn is_down(&self, now: u64) -> (r: bool)
        ensures
            r == (now < self.down_until),
    {
        now < self.down_until
    }
}

} // verus!
