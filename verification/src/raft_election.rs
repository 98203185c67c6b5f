//! Raft leader election: the state machine of one node, driven by vote
//! requests and vote responses.
use vstd::prelude::*;

verus! {

/// The role of a Raft node.
#[derive(Debug, Clone, Copy, PartialEq, Eq, Structural)]
pub enum NodeState {
    Follower,
    Candidate,
    Leader,
}

/// One node's election state.
pub struct RaftNode {
    pub id: u64,
    pub state: NodeState,
    pub current_term: u64,
    pub voted_for: Option<u64>,
    pub votes_received: usize,
    pub peer_count: usize,
}

/// A candidate's request for a vote.
#[derive(Debug)]
pub struct RequestVote {
    pub term: u64,
    pub candidate_id: u64,
}

/// The answer to a `RequestVote`.
#[derive(Debug)]
pub struct VoteResponse {
    pub term: u64,
    pub granted: bool,
}

/// The number of votes that wins an election in a cluster of
/// `peer_count + 1` nodes.
pub open spec fn majority_of(peer_count: nat) -> nat {
    (peer_count + 1) / 2 + 1
}

/// The node's term after seeing `term`: the larger of the two.
pub open spec fn term_after(current: u64, term: u64) -> u64 {
    if term > current {
        term
    } else {
        current
    }
}

/// The vote held after seeing a message of `term`: a higher term clears it.
pub open spec fn vote_after(current: u64, voted_for: Option<u64>, term: u64) -> Option<u64> {
    if term > current {
        None
    } else {
        voted_for
    }
}

/// Whether a vote request is granted: its term is current and the node has
/// not voted for anyone else in that term.
pub open spec fn grants(current: u64, voted_for: Option<u64>, req_term: u64, candidate: u64) -> bool {
    let v = vote_after(current, voted_for, req_term);
    req_term >= term_after(current, req_term) && (v is None || v == Some(candidate))
}

/// A call on a node: `start_election`, `handle_vote_request` with a
/// request's term and candidate, or `handle_vote_response` with a
/// response's term.
pub enum Call {
    StartElection,
    VoteRequest(u64, u64),
    VoteResponse(u64),
}

/// What a call does to a node's identity, term and vote, as the three
/// methods' contracts state it.
pub open spec fn follows(before: RaftNode, call: Call, after: RaftNode) -> bool {
    &&& after.id == before.id
    &&& match call {
        Call::StartElection => {
            &&& after.current_term == before.current_term + 1
            &&& after.voted_for == Some(before.id)
        },
        Call::VoteRequest(term, candidate) => {
            &&& after.current_term == term_after(before.current_term, term)
            &&& after.voted_for == if grants(before.current_term, before.voted_for, term, candidate) {
                Some(candidate)
            } else {
                vote_after(before.current_term, before.voted_for, term)
            }
        },
        Call::VoteResponse(term) => {
            &&& after.current_term == term_after(before.current_term, term)
            &&& after.voted_for == vote_after(before.current_term, before.voted_for, term)
        },
    }
}

/// The call is a vote request that the node grants.
pub open spec fn granted_by(before: RaftNode, call: Call) -> bool {
    call matches Call::VoteRequest(term, candidate) && grants(
        before.current_term,
        before.voted_for,
        term,
        candidate,
    )
}

/// The candidate of a vote request.
pub open spec fn candidate_of(call: Call) -> u64 {
    match call {
        Call::VoteRequest(_, candidate) => candidate,
        _ => 0,
    }
}

/// The term of a vote request.
pub open spec fn request_term(call: Call) -> u64 {
    match call {
        Call::VoteRequest(term, _) => term,
        _ => 0,
    }
}

/// A run of calls: `nodes[i + 1]` is the node after `calls[i]` on `nodes[i]`.
pub open spec fn is_run(nodes: Seq<RaftNode>, calls: Seq<Call>) -> bool {
    &&& nodes.len() == calls.len() + 1
    &&& forall|i: int| 0 <= i < calls.len() ==> follows(#[trigger] nodes[i], calls[i], nodes[i + 1])
}

impl RaftNode {
    /// A node that leads only while it holds a majority of the votes.
    pub open spec fn leader_has_majority(&self) -> bool {
        self.state == NodeState::Leader ==> self.votes_received >= majority_of(
            self.peer_count as nat,
        )
    }

    /// A follower in term 0 that has not voted.
    pub fn new(id: u64, peer_count: usize) -> (n: RaftNode)
        ensures
            n.id == id,
            n.peer_count == peer_count,
            n.state == NodeState::Follower,
            n.current_term == 0,
            n.voted_for is None,
            n.votes_received == 0,
            n.leader_has_majority(),
    {
        RaftNode {
            id,
            state: NodeState::Follower,
            current_term: 0,
            voted_for: None,
            votes_received: 0,
            peer_count,
        }
    }

    /// Starts an election: moves to the next term as a candidate that votes
    /// for itself.
    pub fn start_election(&mut self)
        requires
            old(self).current_term < u64::MAX,
        ensures
            final(self).current_term == old(self).current_term + 1,
            final(self).state == NodeState::Candidate,
            final(self).voted_for == Some(old(self).id),
            final(self).votes_received == 1,
            final(self).id == old(self).id,
            final(self).peer_count == old(self).peer_count,
            final(self).leader_has_majority(),
            follows(*old(self), Call::StartElection, *final(self)),
    {
        self.current_term = self.current_term + 1;
        self.state = NodeState::Candidate;
        self.voted_for = Some(self.id);
        self.votes_received = 1;
    }

    /// Answers a vote request. A request from a higher term makes the node
    /// a follower of that term first; the vote is granted when the request's
    /// term is current and the node has not voted for another candidate.
    pub fn handle_vote_request(&mut self, req: &RequestVote) -> (resp: VoteResponse)
        ensures
            final(self).current_term == term_after(old(self).current_term, req.term),
            final(self).state == (if req.term > old(self).current_term {
                NodeState::Follower
            } else {
                old(self).state
            }),
            resp.granted == grants(
                old(self).current_term,
                old(self).voted_for,
                req.term,
                req.candidate_id,
            ),
            final(self).voted_for == (if resp.granted {
                Some(req.candidate_id)
            } else {
                vote_after(old(self).current_term, old(self).voted_for, req.term)
            }),
            resp.term == final(self).current_term,
            final(self).id == old(self).id,
            final(self).votes_received == old(self).votes_received,
            final(self).peer_count == old(self).peer_count,
            old(self).leader_has_majority() ==> final(self).leader_has_majority(),
            follows(*old(self), Call::VoteRequest(req.term, req.candidate_id), *final(self)),
            resp.granted == granted_by(*old(self), Call::VoteRequest(req.term, req.candidate_id)),
    {
        if req.term > self.current_term {
            self.current_term = req.term;
            self.state = NodeState::Follower;
            self.voted_for = None;
        }
        let granted = req.term >= self.current_term && (self.voted_for.is_none()
            || self.voted_for == Some(req.candidate_id));
        if granted {
            self.voted_for = Some(req.candidate_id);
        }
        VoteResponse { term: self.current_term, granted }
    }

    /// Counts a vote response. A response from a higher term makes the node
    /// a follower of that term; a granted vote counts only for a candidate,
    /// which becomes leader once it holds a majority.
    pub fn handle_vote_response(&mut self, resp: &VoteResponse)
        requires
            old(self).peer_count < usize::MAX,
            old(self).votes_received < usize::MAX,
        ensures
            final(self).id == old(self).id,
            final(self).peer_count == old(self).peer_count,
            final(self).current_term == term_after(old(self).current_term, resp.term),
            resp.term > old(self).current_term ==> {
                &&& final(self).state == NodeState::Follower
                &&& final(self).voted_for is None
                &&& final(self).votes_received == old(self).votes_received
            },
            resp.term <= old(self).current_term ==> {
                &&& final(self).voted_for == old(self).voted_for
                &&& if resp.granted && old(self).state == NodeState::Candidate {
                    &&& final(self).votes_received == old(self).votes_received + 1
                    &&& final(self).state == (if final(self).votes_received >= majority_of(
                        old(self).peer_count as nat,
                    ) {
                        NodeState::Leader
                    } else {
                        NodeState::Candidate
                    })
                } else {
                    &&& final(self).votes_received == old(self).votes_received
                    &&& final(self).state == old(self).state
                }
            },
            old(self).leader_has_majority() ==> final(self).leader_has_majority(),
            follows(*old(self), Call::VoteResponse(resp.term), *final(self)),
    {
        if resp.term > self.current_term {
            self.current_term = resp.term;
            self.state = NodeState::Follower;
            self.voted_for = None;
            return ;
        }
        if resp.granted && self.state == NodeState::Candidate {
            self.votes_received = self.votes_received + 1;
            if self.votes_received >= self.majority() {
                self.state = NodeState::Leader;
            }
        }
    }

    fn majority(&self) -> (m: usize)
        requires
            self.peer_count < usize::MAX,
        ensures
            m == majority_of(self.peer_count as nat),
    {
        (self.peer_count + 1) / 2 + 1
    }
}

/// A node never moves to an earlier term, whatever it hears.
pub proof fn lemma_terms_never_decrease(current: u64, term: u64)
    ensures
        term_after(current, term) >= current,
        term_after(current, term) >= term,
{
}

/// Within one term a node votes for at most one candidate: once it holds a
/// vote, a request of the same term for another candidate is refused and
/// the vote stays.
pub proof fn lemma_one_vote_per_term(current: u64, voted: u64, candidate: u64)
    requires
        candidate != voted,
    ensures
        !grants(current, Some(voted), current, candidate),
        vote_after(current, Some(voted), current) == Some(voted),
{
}

/// A granted vote is always for a request of the node's own (possibly just
/// adopted) term.
pub proof fn lemma_granted_in_current_term(
    current: u64,
    voted_for: Option<u64>,
    req_term: u64,
    candidate: u64,
)
    requires
        grants(current, voted_for, req_term, candidate),
    ensures
        req_term == term_after(current, req_term),
{
}

/// The votes that win an election are a strict majority of the whole
/// cluster of `peer_count + 1` nodes, and the fewest that are: one vote
/// fewer is at most half of the cluster.
pub proof fn lemma_majority_is_strict(peer_count: nat)
    ensures
        majority_of(peer_count) * 2 > peer_count + 1,
        (majority_of(peer_count) - 1) * 2 <= peer_count + 1,
{
}

/// Two groups of voters that each hold a winning number of votes in the
/// same cluster together hold more votes than the cluster has nodes, so
/// they share a voter.
pub proof fn lemma_majorities_overlap(peer_count: nat, a: nat, b: nat)
    requires
        a >= majority_of(peer_count),
        b >= majority_of(peer_count),
    ensures
        a + b > peer_count + 1,
{
}

/// A leader holds the votes of a strict majority of the cluster.
pub proof fn lemma_leader_holds_strict_majority(n: RaftNode)
    requires
        n.leader_has_majority(),
        n.state == NodeState::Leader,
    ensures
        n.votes_received * 2 > n.peer_count + 1,
{
    lemma_majority_is_strict(n.peer_count as nat);
}

/// A candidate that counts a granted vote of its own term becomes leader
/// exactly when its votes are then a strict majority of the cluster.
pub proof fn lemma_candidate_wins_on_strict_majority(before: RaftNode, after: RaftNode)
    requires
        before.state == NodeState::Candidate,
        after.votes_received == before.votes_received + 1,
        after.peer_count == before.peer_count,
        after.state == (if after.votes_received >= majority_of(before.peer_count as nat) {
            NodeState::Leader
        } else {
            NodeState::Candidate
        }),
    ensures
        after.state == NodeState::Leader <==> after.votes_received * 2 > after.peer_count + 1,
{
    lemma_majority_is_strict(before.peer_count as nat);
}

/// Over any run of calls, a node's term never decreases.
pub proof fn lemma_run_terms_never_decrease(nodes: Seq<RaftNode>, calls: Seq<Call>)
    requires
        is_run(nodes, calls),
    ensures
        forall|i: int, j: int|
            0 <= i <= j < nodes.len() ==> #[trigger] nodes[i].current_term <= #[trigger] nodes[j].current_term,
    decreases calls.len(),
{
    if calls.len() > 0 {
        let n = calls.len() - 1;
        let l = nodes.drop_last();
        let c = calls.drop_last();
        assert forall|i: int| 0 <= i < c.len() implies follows(#[trigger] l[i], c[i], l[i + 1]) by {
            assert(follows(nodes[i], calls[i], nodes[i + 1]));
        }
        lemma_run_terms_never_decrease(l, c);
        assert(follows(nodes[n], calls[n], nodes[n + 1]));
        assert forall|i: int, j: int| 0 <= i <= j < nodes.len() implies #[trigger] nodes[i].current_term
            <= #[trigger] nodes[j].current_term by {
            if j <= n {
                assert(l[i] == nodes[i] && l[j] == nodes[j]);
            } else if i < j {
                assert(l[i] == nodes[i] && l[n] == nodes[n]);
            }
        }
    }
}

/// Within one term a vote, once cast, stays: a node that holds a vote for
/// `c` holds it at every later point of the run in the same term.
proof fn lemma_run_vote_kept(nodes: Seq<RaftNode>, calls: Seq<Call>, i: int, j: int, c: u64)
    requires
        is_run(nodes, calls),
        0 <= i <= j < nodes.len(),
        nodes[i].current_term == nodes[j].current_term,
        nodes[i].voted_for == Some(c),
    ensures
        nodes[j].voted_for == Some(c),
    decreases j - i,
{
    if j > i {
        lemma_run_terms_never_decrease(nodes, calls);
        assert(nodes[i].current_term <= nodes[j - 1].current_term);
        assert(nodes[j - 1].current_term <= nodes[j].current_term);
        lemma_run_vote_kept(nodes, calls, i, j - 1, c);
        assert(follows(nodes[j - 1], calls[j - 1], nodes[j]));
    }
}

/// Over any run of calls, every granted vote request is of the term the
/// node is in after the call, and within one term the node grants its vote
/// to at most one candidate.
pub proof fn lemma_run_one_candidate_per_term(nodes: Seq<RaftNode>, calls: Seq<Call>)
    requires
        is_run(nodes, calls),
    ensures
        forall|i: int|
            0 <= i < calls.len() && #[trigger] granted_by(nodes[i], calls[i]) ==> request_term(calls[i]) == nodes[i + 1].current_term,
        forall|i: int, j: int|
            0 <= i < calls.len() && 0 <= j < calls.len() && #[trigger] granted_by(nodes[i], calls[i])
                && #[trigger] granted_by(nodes[j], calls[j]) && nodes[i + 1].current_term == nodes[j
                + 1].current_term ==> candidate_of(calls[i]) == candidate_of(calls[j]),
{
    assert forall|i: int|
        0 <= i < calls.len() && #[trigger] granted_by(nodes[i], calls[i]) implies request_term(calls[i]) == nodes[i + 1].current_term by {
        assert(follows(nodes[i], calls[i], nodes[i + 1]));
    }
    assert forall|i: int, j: int|
        0 <= i < calls.len() && 0 <= j < calls.len() && #[trigger] granted_by(nodes[i], calls[i])
            && #[trigger] granted_by(nodes[j], calls[j]) && nodes[i + 1].current_term == nodes[j
            + 1].current_term implies candidate_of(calls[i]) == candidate_of(calls[j]) by {
        lemma_run_terms_never_decrease(nodes, calls);
        assert(follows(nodes[i], calls[i], nodes[i + 1]));
        assert(follows(nodes[j], calls[j], nodes[j + 1]));
        if i < j {
            assert(nodes[i + 1].current_term <= nodes[j].current_term);
            lemma_run_vote_kept(nodes, calls, i + 1, j, candidate_of(calls[i]));
        } else if j < i {
            assert(nodes[j + 1].current_term <= nodes[i].current_term);
            lemma_run_vote_kept(nodes, calls, j + 1, i, candidate_of(calls[j]));
        }
    }
}

} // verus!
