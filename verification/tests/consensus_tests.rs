use blockdb::ClusterConfig;
use blockdb::NodeAddress;
use blockdb::NodeId;
use blockdb::Operation;
use blockdb::consensus::ConsensusEngine;
use blockdb::consensus::ConsensusMessage;
use blockdb::consensus::ConsensusState;
use blockdb::consensus::LogEntry;
use blockdb::consensus::LogOperation;
use blockdb::consensus::RaftNode;
use blockdb::consensus::RaftState;
use blockdb::consensus::ReplicatedLog;
use blockdb::consensus::Term;

fn node(name: &str) -> NodeId {
    NodeId::from_string(name.to_string())
}

fn addr(port: u16) -> NodeAddress {
    NodeAddress::new("localhost".to_string(), port)
}

fn three_node_config() -> ClusterConfig {
    let mut config = ClusterConfig::new(node("n1"), addr(7001));
    config.add_peer(node("n2"), addr(7002));
    config.add_peer(node("n3"), addr(7003));
    config
}

#[test]
fn test_term_arithmetic() {
    let mut term = Term::new();
    assert_eq!(term.0, 0);
    term.increment();
    assert_eq!(term.0, 1);
    assert!(term.update(&Term(5)));
    assert_eq!(term.0, 5);
    assert!(!term.update(&Term(3)));
    assert_eq!(term.0, 5);
}

#[test]
fn test_cluster_majority() {
    let config = three_node_config();
    assert_eq!(config.cluster_size(), 3);
    assert_eq!(config.majority(), 2);

    let single = ClusterConfig::new(node("solo"), addr(7000));
    assert_eq!(single.cluster_size(), 1);
    assert_eq!(single.majority(), 1);
}

#[test]
fn test_node_address_url() {
    let a = addr(8080);
    assert_eq!(a.to_url(), "http://localhost:8080");
}

#[test]
fn test_consensus_state_transitions() {
    let mut state = ConsensusState::new();
    assert!(matches!(state.state, RaftState::Follower));
    assert_eq!(state.current_term.0, 0);

    state.become_candidate(node("me"));
    assert!(matches!(state.state, RaftState::Candidate));
    assert_eq!(state.current_term.0, 1);
    assert_eq!(state.voted_for.as_ref().map(|n| n.0.clone()), Some("me".to_string()));

    state.become_leader(node("me"));
    assert!(matches!(state.state, RaftState::Leader));
    assert_eq!(state.current_term.0, 1);

    state.become_follower(Term(5), Some(node("other")));
    assert!(matches!(state.state, RaftState::Follower));
    assert_eq!(state.current_term.0, 5);
    assert!(state.voted_for.is_none());
}

#[test]
fn test_replicated_log_append_and_commit() {
    let mut log = ReplicatedLog::new();
    assert_eq!(log.last_log_index(), 0);
    assert_eq!(log.last_log_term().0, 0);

    log.append(LogEntry::new(1, Term(1), LogOperation::NoOp, 1));
    log.append(LogEntry::new(
        2,
        Term(1),
        LogOperation::Put {
            key: b"k".to_vec(),
            value: b"v".to_vec(),
        },
        2,
    ));

    assert_eq!(log.last_log_index(), 2);
    assert_eq!(log.get_entry(1).unwrap().index, 1);
    assert!(log.get_entry(0).is_none());
    assert!(log.get_entry(3).is_none());
    assert_eq!(log.get_term(2).unwrap().0, 1);

    log.update_commit_index(2);
    assert_eq!(log.get_commit_index(), 2);
    log.update_commit_index(1);
    assert_eq!(log.get_commit_index(), 2);
    log.update_commit_index(99);
    assert_eq!(log.get_commit_index(), 2);

    let applied = log.apply_up_to(2);
    assert_eq!(applied.len(), 2);
    assert_eq!(applied[0].index, 1);
    assert_eq!(applied[1].index, 2);
    assert_eq!(log.get_last_applied(), 2);
}

#[test]
fn test_replicated_log_follower_splice() {
    let mut log = ReplicatedLog::new();
    log.append(LogEntry::new(1, Term(1), LogOperation::NoOp, 1));
    log.append(LogEntry::new(2, Term(1), LogOperation::NoOp, 2));

    let replacement = vec![
        LogEntry::new(2, Term(2), LogOperation::NoOp, 3),
        LogEntry::new(3, Term(2), LogOperation::NoOp, 4),
    ];
    assert!(log.append_entries(1, replacement));
    assert_eq!(log.last_log_index(), 3);
    assert_eq!(log.get_term(2).unwrap().0, 2);

    let gap = vec![LogEntry::new(9, Term(2), LogOperation::NoOp, 5)];
    assert!(!log.append_entries(3, gap));

    assert!(!log.append_entries(99, Vec::new()));
}

#[test]
fn test_log_up_to_date_rule() {
    let mut log = ReplicatedLog::new();
    log.append(LogEntry::new(1, Term(2), LogOperation::NoOp, 1));

    assert!(log.is_up_to_date(5, &Term(3)));
    assert!(log.is_up_to_date(1, &Term(2)));
    assert!(log.is_up_to_date(2, &Term(2)));
    assert!(!log.is_up_to_date(0, &Term(2)));
    assert!(!log.is_up_to_date(9, &Term(1)));
}

#[test]
fn test_election_requires_majority_of_distinct_votes() {
    let mut config = ClusterConfig::new(node("n1"), addr(7001));
    config.add_peer(node("n2"), addr(7002));
    config.add_peer(node("n3"), addr(7003));
    config.add_peer(node("n4"), addr(7004));
    let mut raft = RaftNode::new(config);

    let msgs = raft.start_election();
    assert_eq!(msgs.len(), 3);
    assert!(matches!(raft.state.state, RaftState::Candidate));
    let term = raft.state.current_term;

    // One vote from n2 plus its own: still no majority of the four nodes.
    assert!(!raft.handle_vote_response(node("n2"), term, true));
    assert!(!matches!(raft.state.state, RaftState::Leader));

    // A repeated vote from the same node is not counted again.
    assert!(!raft.handle_vote_response(node("n2"), term, true));
    assert!(!matches!(raft.state.state, RaftState::Leader));

    // A refused vote is not counted.
    assert!(!raft.handle_vote_response(node("n3"), term, false));
    assert!(!matches!(raft.state.state, RaftState::Leader));

    // The third distinct granting node makes the majority of three.
    assert!(raft.handle_vote_response(node("n4"), term, true));
    assert!(matches!(raft.state.state, RaftState::Leader));
}

#[test]
fn test_vote_granted_once_per_term() {
    let mut raft = RaftNode::new(three_node_config());

    let resp = raft.handle_request_vote(Term(1), node("n2"), 0, Term(0));
    let granted1 = matches!(
        resp,
        ConsensusMessage::RequestVoteResponse { vote_granted: true, .. }
    );
    assert!(granted1);

    let resp = raft.handle_request_vote(Term(1), node("n3"), 0, Term(0));
    let granted2 = matches!(
        resp,
        ConsensusMessage::RequestVoteResponse { vote_granted: true, .. }
    );
    assert!(!granted2);
}

#[test]
fn test_stale_append_refused() {
    let mut raft = RaftNode::new(three_node_config());
    raft.state.current_term = Term(5);

    let resp = raft.handle_append_entries(Term(3), node("n2"), 0, Term(0), Vec::new(), 0);
    assert!(matches!(
        resp,
        ConsensusMessage::AppendEntriesResponse { success: false, .. }
    ));
}

#[test]
fn test_heartbeat_accepted_and_committed() {
    let mut raft = RaftNode::new(three_node_config());

    let entries = vec![LogEntry::new(1, Term(1), LogOperation::NoOp, 1)];
    let resp = raft.handle_append_entries(Term(1), node("n2"), 0, Term(0), entries, 1);
    assert!(matches!(
        resp,
        ConsensusMessage::AppendEntriesResponse { success: true, .. }
    ));
    assert!(matches!(raft.state.state, RaftState::Follower));
    assert_eq!(raft.log.get_commit_index(), 1);

    let committed = raft.take_committed();
    assert_eq!(committed.len(), 1);
    assert_eq!(committed[0].index, 1);
    let again = raft.take_committed();
    assert_eq!(again.len(), 0);
}

#[test]
fn test_only_leader_accepts_client_requests() {
    let mut raft = RaftNode::new(three_node_config());
    let put = Operation::Put {
        key: b"k".to_vec(),
        value: b"v".to_vec(),
    };
    assert!(raft.propose(put.clone()).is_err());

    let _ = raft.start_election();
    let term = raft.state.current_term;
    assert!(raft.handle_vote_response(node("n2"), term, true));
    assert!(raft.is_leader());
    assert!(raft.propose(put).is_ok());
    assert_eq!(raft.log.last_log_index(), 1);

    let msgs = raft.replicate_to_followers();
    assert_eq!(msgs.len(), 2);
}

#[test]
fn test_engine_membership() {
    let mut raft = RaftNode::new(three_node_config());
    assert_eq!(raft.config.peers.len(), 2);
    raft.add_node(node("n4"), addr(7004)).unwrap();
    assert_eq!(raft.config.peers.len(), 3);
    raft.remove_node(&node("n2")).unwrap();
    assert_eq!(raft.config.peers.len(), 2);
    assert!(raft.get_leader().is_none());
}

#[test]
fn test_log_operation_consensus_flags() {
    assert!(LogOperation::NoOp.is_read_only());
    assert!(!LogOperation::NoOp.requires_consensus());
    let put = LogOperation::Put {
        key: b"k".to_vec(),
        value: b"v".to_vec(),
    };
    assert!(!put.is_read_only());
    assert!(put.requires_consensus());
}
