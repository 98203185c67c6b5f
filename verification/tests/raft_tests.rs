use toydb::raft_election::{NodeState, RaftNode, RequestVote, VoteResponse};
use toydb::raft_log::{LogEntry, RaftLog};

#[test]
fn test_initial() {
    let n = RaftNode::new(1, 4);
    assert_eq!(n.state, NodeState::Follower);
}

#[test]
fn test_election() {
    let mut n = RaftNode::new(1, 4);
    n.start_election();
    assert_eq!(n.state, NodeState::Candidate);
    assert_eq!(n.current_term, 1);
}

#[test]
fn test_win() {
    let mut n = RaftNode::new(1, 4);
    n.start_election();
    n.handle_vote_response(&VoteResponse { term: 1, granted: true });
    assert_eq!(n.state, NodeState::Candidate);
    n.handle_vote_response(&VoteResponse { term: 1, granted: true });
    assert_eq!(n.state, NodeState::Leader);
}

#[test]
fn test_step_down() {
    let mut n = RaftNode::new(1, 4);
    n.start_election();
    n.handle_vote_response(&VoteResponse { term: 5, granted: false });
    assert_eq!(n.state, NodeState::Follower);
    assert_eq!(n.current_term, 5);
}

#[test]
fn test_vote_grant() {
    let mut n = RaftNode::new(2, 4);
    assert!(n.handle_vote_request(&RequestVote { term: 1, candidate_id: 1 }).granted);
    assert!(!n.handle_vote_request(&RequestVote { term: 1, candidate_id: 3 }).granted);
}

#[test]
fn test_initial_state() {
    let node = RaftNode::new(1, 4);
    assert_eq!(node.state, NodeState::Follower);
    assert_eq!(node.current_term, 0);
}

#[test]
fn test_start_election() {
    let mut node = RaftNode::new(1, 4);
    node.start_election();
    assert_eq!(node.state, NodeState::Candidate);
    assert_eq!(node.current_term, 1);
    assert_eq!(node.voted_for, Some(1));
    assert_eq!(node.votes_received, 1);
}

#[test]
fn test_win_election() {
    let mut node = RaftNode::new(1, 4);
    node.start_election();
    node.handle_vote_response(&VoteResponse { term: 1, granted: true });
    assert_eq!(node.state, NodeState::Candidate);
    node.handle_vote_response(&VoteResponse { term: 1, granted: true });
    assert_eq!(node.state, NodeState::Leader);
}

#[test]
fn test_higher_term_steps_down() {
    let mut node = RaftNode::new(1, 4);
    node.start_election();
    node.handle_vote_response(&VoteResponse { term: 5, granted: false });
    assert_eq!(node.state, NodeState::Follower);
    assert_eq!(node.current_term, 5);
}

#[test]
fn test_vote_granting() {
    let mut node = RaftNode::new(2, 4);
    let resp = node.handle_vote_request(&RequestVote { term: 1, candidate_id: 1 });
    assert!(resp.granted);
    assert_eq!(node.voted_for, Some(1));
    let resp2 = node.handle_vote_request(&RequestVote { term: 1, candidate_id: 3 });
    assert!(!resp2.granted);
}

#[test]
fn stale_vote_request_is_refused_with_current_term() {
    let mut node = RaftNode::new(2, 2);
    node.handle_vote_request(&RequestVote { term: 3, candidate_id: 1 });
    let resp = node.handle_vote_request(&RequestVote { term: 2, candidate_id: 5 });
    assert!(!resp.granted);
    assert_eq!(resp.term, 3);
    assert_eq!(node.voted_for, Some(1));
}

#[test]
fn higher_term_request_resets_vote() {
    let mut node = RaftNode::new(2, 2);
    node.handle_vote_request(&RequestVote { term: 1, candidate_id: 1 });
    let resp = node.handle_vote_request(&RequestVote { term: 2, candidate_id: 3 });
    assert!(resp.granted);
    assert_eq!(node.current_term, 2);
    assert_eq!(node.voted_for, Some(3));
}

#[test]
fn votes_do_not_count_for_a_follower() {
    let mut node = RaftNode::new(1, 0);
    node.handle_vote_response(&VoteResponse { term: 0, granted: true });
    assert_eq!(node.state, NodeState::Follower);
    assert_eq!(node.votes_received, 0);
}

#[test]
fn test_append() {
    let mut l = RaftLog::new();
    assert_eq!(l.append(1, "c".into()), 1);
    assert_eq!(l.get(1).unwrap().command, "c");
}

#[test]
fn test_ae_ok() {
    let mut l = RaftLog::new();
    l.append(1, "c1".into());
    assert!(l.append_entries(1, 1, vec![LogEntry { term: 1, index: 2, command: "c2".into() }]));
    assert_eq!(l.last_index(), 2);
}

#[test]
fn test_ae_fail() {
    let mut l = RaftLog::new();
    l.append(1, "c".into());
    assert!(!l.append_entries(1, 99, vec![]));
}

#[test]
fn test_append_and_get() {
    let mut log = RaftLog::new();
    let idx = log.append(1, "SET x 1".into());
    assert_eq!(idx, 1);
    assert_eq!(log.get(1).unwrap().command, "SET x 1");
}

#[test]
fn test_append_entries_success() {
    let mut log = RaftLog::new();
    log.append(1, "cmd1".into());
    let entries = vec![LogEntry { term: 1, index: 2, command: "cmd2".into() }];
    assert!(log.append_entries(1, 1, entries));
    assert_eq!(log.last_index(), 2);
}

#[test]
fn test_append_entries_consistency_fail() {
    let mut log = RaftLog::new();
    log.append(1, "cmd1".into());
    let entries = vec![LogEntry { term: 2, index: 2, command: "cmd2".into() }];
    assert!(!log.append_entries(1, 99, entries));
}

#[test]
fn append_entries_replaces_a_conflicting_suffix() {
    let mut log = RaftLog::new();
    log.append(1, "a".into());
    log.append(1, "b".into());
    log.append(1, "c".into());
    let entries = vec![LogEntry { term: 2, index: 2, command: "x".into() }];
    assert!(log.append_entries(1, 1, entries));
    assert_eq!(log.last_index(), 2);
    assert_eq!(log.get(2).unwrap().command, "x");
    assert_eq!(log.term_at(2), 2);
    assert_eq!(log.term_at(3), 0);
    assert!(log.get(0).is_none());
}

#[test]
fn append_entries_at_zero_replaces_everything() {
    let mut log = RaftLog::new();
    log.append(1, "a".into());
    assert!(log.append_entries(0, 7, vec![]));
    assert_eq!(log.last_index(), 0);
}

#[test]
fn one_candidate_per_term_over_a_run_of_calls() {
    let mut n = RaftNode::new(1, 4);
    let mut last_term = n.current_term;
    let mut granted_in_term: Vec<(u64, u64)> = Vec::new();
    let requests = [(1, 2), (1, 3), (1, 2), (0, 4), (2, 4), (2, 3), (2, 4)];
    for (i, (term, candidate)) in requests.iter().enumerate() {
        if i == 3 {
            n.handle_vote_response(&VoteResponse { term: 1, granted: false });
        }
        let resp = n.handle_vote_request(&RequestVote { term: *term, candidate_id: *candidate });
        assert!(n.current_term >= last_term);
        last_term = n.current_term;
        assert_eq!(resp.term, n.current_term);
        if resp.granted {
            assert_eq!(*term, n.current_term);
            for (t, c) in &granted_in_term {
                if *t == *term {
                    assert_eq!(c, candidate);
                }
            }
            granted_in_term.push((*term, *candidate));
        }
    }
    assert_eq!(granted_in_term, vec![(1, 2), (1, 2), (2, 4), (2, 4)]);
    n.start_election();
    assert_eq!(n.current_term, 3);
    let resp = n.handle_vote_request(&RequestVote { term: 3, candidate_id: 2 });
    assert!(!resp.granted);
}
