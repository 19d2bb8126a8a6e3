use lodestone::discovery::ServiceRegistry;
use lodestone::log_store::RaftStorage;
use lodestone::raft::{Message, RaftNode, StateRole};
use lodestone::types::{Command, Error, LogEntry, Service};

fn record(id: &str) -> Service {
    Service {
        id: id.to_string(),
        name: "web".to_string(),
        address: "10.0.0.1".to_string(),
        port: 80,
        health_check_url: "http://10.0.0.1:80/health".to_string(),
        tags: vec![],
        metadata: vec![],
    }
}

fn node(id: u64, peers: Vec<u64>) -> RaftNode {
    RaftNode::new(id, peers, RaftStorage::new(), 10, 3).unwrap()
}

fn apply(node: &RaftNode, reg: &mut ServiceRegistry) {
    let batch = node.committed_entries(reg.last_applied()).unwrap();
    reg.apply_all(&batch);
}

fn to_of(m: &Message) -> u64 {
    match m {
        Message::RequestVote { to, .. } => *to,
        Message::RequestVoteResponse { to, .. } => *to,
        Message::AppendEntries { to, .. } => *to,
        Message::AppendEntriesResponse { to, .. } => *to,
        Message::InstallSnapshot { to, .. } => *to,
    }
}

fn from_of(m: &Message) -> u64 {
    match m {
        Message::RequestVote { from, .. } => *from,
        Message::RequestVoteResponse { from, .. } => *from,
        Message::AppendEntries { from, .. } => *from,
        Message::AppendEntriesResponse { from, .. } => *from,
        Message::InstallSnapshot { from, .. } => *from,
    }
}

/// Delivers messages between the nodes until none is left; messages to or
/// from a node in `cut` are dropped.
fn deliver(nodes: &mut Vec<RaftNode>, cut: &[u64]) {
    loop {
        let mut pending = Vec::new();
        for n in nodes.iter_mut() {
            pending.extend(n.advance());
        }
        if pending.is_empty() {
            return;
        }
        for m in pending {
            let (from, to) = (from_of(&m), to_of(&m));
            if cut.contains(&from) || cut.contains(&to) {
                continue;
            }
            let target = nodes.iter_mut().find(|n| n.id() == to).unwrap();
            target.step(m).unwrap();
        }
    }
}

#[test]
fn new_refuses_bad_settings() {
    assert!(matches!(RaftNode::new(1, vec![1, 2], RaftStorage::new(), 10, 3), Err(Error::InvalidConfig)));
    assert!(matches!(RaftNode::new(0, vec![], RaftStorage::new(), 10, 3), Err(Error::InvalidConfig)));
    assert!(matches!(RaftNode::new(1, vec![2, 2], RaftStorage::new(), 10, 3), Err(Error::InvalidConfig)));
    assert!(matches!(RaftNode::new(1, vec![2], RaftStorage::new(), 3, 3), Err(Error::InvalidConfig)));
    assert!(matches!(RaftNode::new(1, vec![2], RaftStorage::new(), 10, 0), Err(Error::InvalidConfig)));
    assert!(RaftNode::new(1, vec![2, 3], RaftStorage::new(), 10, 3).is_ok());
}

#[test]
fn single_node_campaign_propose_apply() {
    let mut n = node(1, vec![]);
    assert!(!n.is_leader());
    assert!(matches!(n.propose(Command::Register(record("a"))), Err(Error::NotLeader(None))));
    n.campaign().unwrap();
    assert!(n.is_leader());
    assert_eq!(n.hard_state().current_term, 1);
    assert_eq!(n.hard_state().voted_for, Some(1));
    assert_eq!(n.campaign(), Err(Error::AlreadyLeader));
    let idx = n.propose(Command::Register(record("a"))).unwrap();
    assert_eq!(idx, 2);
    assert_eq!(n.hard_state().commit_index, 2);
    assert!(n.advance().is_empty());
    let mut reg = ServiceRegistry::new();
    apply(&n, &mut reg);
    assert_eq!(reg.get_service("a").unwrap().id, "a");
    assert_eq!(reg.last_applied(), 2);
}

#[test]
fn two_proposals_keep_their_order() {
    let mut n = node(1, vec![]);
    n.campaign().unwrap();
    let i1 = n.propose(Command::Register(record("x"))).unwrap();
    let i2 = n.propose(Command::Register(record("y"))).unwrap();
    assert_eq!(i2, i1 + 1);
    let log = n.storage().all_entries();
    let ids: Vec<String> = log
        .iter()
        .filter_map(|e| match &e.command {
            Command::Register(s) => Some(s.id.clone()),
            _ => None,
        })
        .collect();
    assert_eq!(ids, vec!["x".to_string(), "y".to_string()]);
    let mut reg = ServiceRegistry::new();
    apply(&n, &mut reg);
    assert!(reg.get_service("x").is_some());
    assert!(reg.get_service("y").is_some());
}

#[test]
fn election_timeout_starts_campaign() {
    let mut n = node(1, vec![2, 3]);
    for _ in 0..19 {
        n.tick();
    }
    assert_eq!(n.role(), StateRole::Candidate);
    assert!(n.hard_state().current_term >= 1);
    let msgs = n.advance();
    assert!(msgs.iter().any(|m| matches!(m, Message::RequestVote { to: 2, .. })));
    assert!(msgs.iter().any(|m| matches!(m, Message::RequestVote { to: 3, .. })));
}

#[test]
fn vote_granted_once_per_term() {
    let mut n = node(1, vec![2, 3]);
    n.step(Message::RequestVote { from: 2, to: 1, term: 1, last_log_index: 0, last_log_term: 0 }).unwrap();
    n.step(Message::RequestVote { from: 3, to: 1, term: 1, last_log_index: 0, last_log_term: 0 }).unwrap();
    let msgs = n.advance();
    assert!(matches!(msgs[0], Message::RequestVoteResponse { to: 2, granted: true, term: 1, .. }));
    assert!(matches!(msgs[1], Message::RequestVoteResponse { to: 3, granted: false, term: 1, .. }));
    assert_eq!(n.hard_state().voted_for, Some(2));
}

#[test]
fn stale_and_misaddressed_messages() {
    let mut n = node(1, vec![2, 3]);
    n.step(Message::RequestVote { from: 2, to: 1, term: 5, last_log_index: 0, last_log_term: 0 }).unwrap();
    n.advance();
    n.step(Message::RequestVote { from: 3, to: 1, term: 4, last_log_index: 9, last_log_term: 9 }).unwrap();
    let msgs = n.advance();
    assert!(matches!(msgs[0], Message::RequestVoteResponse { granted: false, term: 5, .. }));
    assert_eq!(n.step(Message::RequestVote { from: 2, to: 9, term: 6, last_log_index: 0, last_log_term: 0 }), Err(Error::ProtocolViolation));
    assert_eq!(n.step(Message::RequestVote { from: 7, to: 1, term: 6, last_log_index: 0, last_log_term: 0 }), Err(Error::ProtocolViolation));
    assert_eq!(n.hard_state().current_term, 5);
}

#[test]
fn higher_term_turns_leader_into_follower() {
    let mut nodes = vec![node(1, vec![2, 3]), node(2, vec![1, 3]), node(3, vec![1, 2])];
    nodes[0].campaign().unwrap();
    deliver(&mut nodes, &[]);
    assert!(nodes[0].is_leader());
    nodes[0].step(Message::AppendEntriesResponse { from: 2, to: 1, term: 9, success: false, match_index: 0 }).unwrap();
    assert_eq!(nodes[0].role(), StateRole::Follower);
    assert_eq!(nodes[0].hard_state().current_term, 9);
}

#[test]
fn follower_rejects_mismatched_prev_entry() {
    let mut n = node(2, vec![1, 3]);
    n.step(Message::AppendEntries { from: 1, to: 2, term: 1, prev_log_index: 3, prev_log_term: 1, entries: vec![], leader_commit: 0 }).unwrap();
    let msgs = n.advance();
    assert!(matches!(msgs[0], Message::AppendEntriesResponse { success: false, match_index: 0, .. }));
    assert_eq!(n.leader(), Some(1));
}

#[test]
fn at_most_one_leader_per_term() {
    let mut nodes = vec![node(1, vec![2, 3]), node(2, vec![1, 3]), node(3, vec![1, 2])];
    nodes[0].campaign().unwrap();
    nodes[1].campaign().unwrap();
    deliver(&mut nodes, &[]);
    for t in 1..4 {
        let leaders = nodes.iter().filter(|n| n.is_leader() && n.hard_state().current_term == t).count();
        assert!(leaders <= 1);
    }
}

#[test]
fn partitioned_follower_catches_up() {
    let mut nodes = vec![node(1, vec![2, 3]), node(2, vec![1, 3]), node(3, vec![1, 2])];
    nodes[0].campaign().unwrap();
    deliver(&mut nodes, &[]);
    assert!(nodes[0].is_leader());
    for i in 0..5 {
        nodes[0].propose(Command::Register(record(&format!("s{}", i)))).unwrap();
        deliver(&mut nodes, &[3]);
    }
    assert_eq!(nodes[0].hard_state().commit_index, 6);
    assert_eq!(nodes[2].storage().last_index(), 1);
    for _ in 0..3 {
        nodes[0].tick();
    }
    deliver(&mut nodes, &[]);
    for _ in 0..3 {
        nodes[0].tick();
    }
    deliver(&mut nodes, &[]);
    let mut regs = vec![ServiceRegistry::new(), ServiceRegistry::new(), ServiceRegistry::new()];
    for (n, r) in nodes.iter().zip(regs.iter_mut()) {
        assert_eq!(n.hard_state().commit_index, 6);
        apply(n, r);
    }
    let views: Vec<Vec<String>> = regs.iter().map(|r| r.list_services().iter().map(|s| s.id.clone()).collect()).collect();
    assert_eq!(views[0].len(), 5);
    assert_eq!(views[0], views[1]);
    assert_eq!(views[0], views[2]);
}

#[test]
fn compacted_follower_gets_snapshot() {
    let mut nodes = vec![node(1, vec![2, 3]), node(2, vec![1, 3]), node(3, vec![1, 2])];
    nodes[0].campaign().unwrap();
    deliver(&mut nodes, &[]);
    for i in 0..3 {
        nodes[0].propose(Command::Register(record(&format!("s{}", i)))).unwrap();
        deliver(&mut nodes, &[3]);
    }
    let mut leader_reg = ServiceRegistry::new();
    apply(&nodes[0], &mut leader_reg);
    assert_eq!(nodes[0].compact(4, leader_reg.list_services()), Ok(()));
    assert_eq!(nodes[0].compact(9, vec![]), Err(Error::OutOfRange));
    for _ in 0..3 {
        nodes[0].tick();
    }
    deliver(&mut nodes, &[]);
    let snap = nodes[2].storage().snapshot();
    assert_eq!(snap.last_included_index, 4);
    let mut reg = ServiceRegistry::new();
    assert!(reg.install_snapshot(&snap));
    for _ in 0..3 {
        nodes[0].tick();
    }
    deliver(&mut nodes, &[]);
    apply(&nodes[2], &mut reg);
    let a: Vec<String> = leader_reg.list_services().iter().map(|s| s.id.clone()).collect();
    let b: Vec<String> = reg.list_services().iter().map(|s| s.id.clone()).collect();
    assert_eq!(a, b);
}

#[test]
fn follower_log_matches_leader_after_append() {
    let mut n = node(2, vec![1, 3]);
    let e = |index: u64, term: u64| LogEntry { index, term, command: Command::Noop };
    n.step(Message::AppendEntries { from: 1, to: 2, term: 1, prev_log_index: 0, prev_log_term: 0, entries: vec![e(1, 1), e(2, 1), e(3, 1)], leader_commit: 1 }).unwrap();
    n.step(Message::AppendEntries { from: 3, to: 2, term: 2, prev_log_index: 1, prev_log_term: 1, entries: vec![e(2, 2)], leader_commit: 1 }).unwrap();
    let log: Vec<(u64, u64)> = n.storage().all_entries().iter().map(|x| (x.index, x.term)).collect();
    assert_eq!(log, vec![(1, 1), (2, 2)]);
    n.step(Message::AppendEntries { from: 3, to: 2, term: 2, prev_log_index: 0, prev_log_term: 0, entries: vec![e(1, 1)], leader_commit: 1 }).unwrap();
    let again: Vec<(u64, u64)> = n.storage().all_entries().iter().map(|x| (x.index, x.term)).collect();
    assert_eq!(again, vec![(1, 1), (2, 2)]);
    let msgs = n.advance();
    assert!(matches!(msgs[2], Message::AppendEntriesResponse { success: true, match_index: 1, .. }));
    assert_eq!(n.hard_state().commit_index, 1);
}

#[test]
fn candidate_with_stale_log_is_denied() {
    let mut n = node(2, vec![1, 3]);
    let e = |index: u64, term: u64| LogEntry { index, term, command: Command::Noop };
    n.step(Message::AppendEntries { from: 1, to: 2, term: 2, prev_log_index: 0, prev_log_term: 0, entries: vec![e(1, 1), e(2, 2)], leader_commit: 2 }).unwrap();
    n.advance();
    n.step(Message::RequestVote { from: 3, to: 2, term: 3, last_log_index: 5, last_log_term: 1 }).unwrap();
    let msgs = n.advance();
    assert!(matches!(msgs[0], Message::RequestVoteResponse { granted: false, term: 3, .. }));
    n.step(Message::RequestVote { from: 1, to: 2, term: 3, last_log_index: 2, last_log_term: 2 }).unwrap();
    let msgs = n.advance();
    assert!(matches!(msgs[0], Message::RequestVoteResponse { granted: true, term: 3, .. }));
}

#[test]
fn restart_keeps_term_vote_and_log() {
    let mut n = node(1, vec![]);
    n.campaign().unwrap();
    n.propose(Command::Register(record("a"))).unwrap();
    let s = n.storage();
    let restored = RaftStorage::restore(s.initial_state(), s.snapshot(), s.all_entries()).unwrap();
    let mut again = RaftNode::new(1, vec![], restored, 10, 3).unwrap();
    assert_eq!(again.hard_state(), n.hard_state());
    assert_eq!(again.storage().last_index(), 2);
    assert!(!again.is_leader());
    let mut reg = ServiceRegistry::new();
    apply(&again, &mut reg);
    assert!(reg.get_service("a").is_some());
    again.campaign().unwrap();
    assert_eq!(again.hard_state().current_term, 2);
}

#[test]
fn stale_append_gets_one_refusal() {
    let mut n = node(1, vec![2, 3]);
    n.step(Message::RequestVote { from: 2, to: 1, term: 3, last_log_index: 0, last_log_term: 0 }).unwrap();
    n.advance();
    n.step(Message::AppendEntries { from: 3, to: 1, term: 2, prev_log_index: 0, prev_log_term: 0, entries: vec![], leader_commit: 0 }).unwrap();
    let msgs = n.advance();
    assert_eq!(msgs.len(), 1);
    assert!(matches!(msgs[0], Message::AppendEntriesResponse { success: false, term: 3, .. }));
    n.step(Message::RequestVoteResponse { from: 3, to: 1, term: 1, granted: true }).unwrap();
    assert!(n.advance().is_empty());
    assert_eq!(n.hard_state().voted_for, Some(2));
}

#[test]
fn newer_term_clears_vote() {
    let mut n = node(1, vec![2, 3]);
    n.campaign().unwrap();
    assert_eq!(n.hard_state().voted_for, Some(1));
    n.step(Message::AppendEntriesResponse { from: 2, to: 1, term: 4, success: false, match_index: 0 }).unwrap();
    assert_eq!(n.hard_state().voted_for, None);
    assert_eq!(n.hard_state().current_term, 4);
}

#[test]
fn follower_commit_follows_leader() {
    let mut n = node(2, vec![1, 3]);
    let e = |index: u64, term: u64| LogEntry { index, term, command: Command::Noop };
    n.step(Message::AppendEntries { from: 1, to: 2, term: 1, prev_log_index: 0, prev_log_term: 0, entries: vec![e(1, 1), e(2, 1)], leader_commit: 5 }).unwrap();
    assert_eq!(n.hard_state().commit_index, 2);
    n.step(Message::AppendEntries { from: 1, to: 2, term: 1, prev_log_index: 0, prev_log_term: 0, entries: vec![e(1, 1)], leader_commit: 1 }).unwrap();
    assert_eq!(n.hard_state().commit_index, 2);
    assert_eq!(n.storage().last_index(), 2);
}
