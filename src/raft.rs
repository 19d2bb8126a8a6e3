use vstd::prelude::*;
use crate::types::{Command, Error, HardState, LogEntry, LogEntryView, Service, entries_view};
use crate::store::services_view;
use crate::quorum::is_quorum;
use crate::log_store::{RaftStorage, Snapshot, SnapshotView, StorageView, contiguous_from};

verus! {

/// The role a node plays in its current term.
#[derive(Debug, Clone, Copy, PartialEq, Eq, Structural)]
pub enum StateRole {
    Follower,
    Candidate,
    Leader,
}

/// A message of the consensus protocol between two nodes.
#[derive(Debug)]
pub enum Message {
    RequestVote { from: u64, to: u64, term: u64, last_log_index: u64, last_log_term: u64 },
    RequestVoteResponse { from: u64, to: u64, term: u64, granted: bool },
    AppendEntries {
        from: u64,
        to: u64,
        term: u64,
        prev_log_index: u64,
        prev_log_term: u64,
        entries: Vec<LogEntry>,
        leader_commit: u64,
    },
    AppendEntriesResponse { from: u64, to: u64, term: u64, success: bool, match_index: u64 },
    InstallSnapshot { from: u64, to: u64, term: u64, snapshot: Snapshot },
}

pub enum MessageView {
    RequestVote { from: u64, to: u64, term: u64, last_log_index: u64, last_log_term: u64 },
    RequestVoteResponse { from: u64, to: u64, term: u64, granted: bool },
    AppendEntries {
        from: u64,
        to: u64,
        term: u64,
        prev_log_index: u64,
        prev_log_term: u64,
        entries: Seq<LogEntryView>,
        leader_commit: u64,
    },
    AppendEntriesResponse { from: u64, to: u64, term: u64, success: bool, match_index: u64 },
    InstallSnapshot { from: u64, to: u64, term: u64, snapshot: SnapshotView },
}

impl View for Message {
    type V = MessageView;

    open spec fn view(&self) -> MessageView {
        match self {
            Message::RequestVote { from, to, term, last_log_index, last_log_term } => {
                MessageView::RequestVote {
                    from: *from,
                    to: *to,
                    term: *term,
                    last_log_index: *last_log_index,
                    last_log_term: *last_log_term,
                }
            },
            Message::RequestVoteResponse { from, to, term, granted } => {
                MessageView::RequestVoteResponse { from: *from, to: *to, term: *term, granted: *granted }
            },
            Message::AppendEntries {
                from,
                to,
                term,
                prev_log_index,
                prev_log_term,
                entries,
                leader_commit,
            } => MessageView::AppendEntries {
                from: *from,
                to: *to,
                term: *term,
                prev_log_index: *prev_log_index,
                prev_log_term: *prev_log_term,
                entries: entries_view(entries@),
                leader_commit: *leader_commit,
            },
            Message::AppendEntriesResponse { from, to, term, success, match_index } => {
                MessageView::AppendEntriesResponse {
                    from: *from,
                    to: *to,
                    term: *term,
                    success: *success,
                    match_index: *match_index,
                }
            },
            Message::InstallSnapshot { from, to, term, snapshot } => MessageView::InstallSnapshot {
                from: *from,
                to: *to,
                term: *term,
                snapshot: snapshot@,
            },
        }
    }
}

impl MessageView {
    pub open spec fn term(self) -> u64 {
        match self {
            MessageView::RequestVote { term, .. } => term,
            MessageView::RequestVoteResponse { term, .. } => term,
            MessageView::AppendEntries { term, .. } => term,
            MessageView::AppendEntriesResponse { term, .. } => term,
            MessageView::InstallSnapshot { term, .. } => term,
        }
    }

    pub open spec fn from(self) -> u64 {
        match self {
            MessageView::RequestVote { from, .. } => from,
            MessageView::RequestVoteResponse { from, .. } => from,
            MessageView::AppendEntries { from, .. } => from,
            MessageView::AppendEntriesResponse { from, .. } => from,
            MessageView::InstallSnapshot { from, .. } => from,
        }
    }

    pub open spec fn to(self) -> u64 {
        match self {
            MessageView::RequestVote { to, .. } => to,
            MessageView::RequestVoteResponse { to, .. } => to,
            MessageView::AppendEntries { to, .. } => to,
            MessageView::AppendEntriesResponse { to, .. } => to,
            MessageView::InstallSnapshot { to, .. } => to,
        }
    }
}

pub open spec fn messages_view(v: Seq<Message>) -> Seq<MessageView> {
    v.map_values(|m: Message| m@)
}

/// Whether a log ending at `(index, term)` is at least as up to date as one
/// ending at `(my_index, my_term)`.
pub open spec fn log_up_to_date(term: u64, index: u64, my_term: u64, my_index: int) -> bool {
    term > my_term || (term == my_term && index >= my_index)
}

/// How many of `s` are at least `n`.
pub open spec fn count_at_least(s: Seq<u64>, n: int) -> nat
    decreases s.len(),
{
    if s.len() == 0 {
        0
    } else {
        count_at_least(s.drop_last(), n) + if s.last() >= n {
            1nat
        } else {
            0nat
        }
    }
}

/// How many of `s` are at least `n`, counted over its first `i` items.
proof fn lemma_count_step(s: Seq<u64>, n: int, i: int)
    requires
        0 <= i < s.len(),
    ensures
        count_at_least(s.subrange(0, i + 1), n) == count_at_least(s.subrange(0, i), n) + if s[i] >= n {
            1nat
        } else {
            0nat
        },
        count_at_least(s.subrange(0, i), n) <= i,
    decreases i,
{
    assert(s.subrange(0, i + 1).drop_last() =~= s.subrange(0, i));
    if i > 0 {
        lemma_count_step(s, n, i - 1);
    } else {
        assert(s.subrange(0, 0).len() == 0);
    }
}

/// The state of one consensus node.
pub struct NodeView {
    pub id: u64,
    pub peers: Seq<u64>,
    pub role: StateRole,
    pub log: StorageView,
    pub leader_id: Option<u64>,
    pub votes: Seq<u64>,
    pub match_index: Seq<u64>,
    pub next_index: Seq<u64>,
    pub msgs: Seq<MessageView>,
    pub election_elapsed: u64,
    pub heartbeat_elapsed: u64,
    pub randomized_timeout: u64,
    pub election_tick: u64,
    pub heartbeat_tick: u64,
}

impl NodeView {
    pub open spec fn term(self) -> u64 {
        self.log.hard_state.current_term
    }

    pub open spec fn voted_for(self) -> Option<u64> {
        self.log.hard_state.voted_for
    }

    pub open spec fn commit(self) -> u64 {
        self.log.hard_state.commit_index
    }

    /// The number of voting members, this node included.
    pub open spec fn cluster_size(self) -> int {
        self.peers.len() + 1int
    }

    pub open spec fn is_member(self, n: u64) -> bool {
        n == self.id || self.peers.contains(n)
    }

    pub open spec fn last_term(self) -> u64 {
        self.log.term_at(self.log.last_index())->Some_0
    }

    /// Whether the entry at `n` is on a majority: this node and the peers
    /// whose match index reaches it.
    pub open spec fn replicated_on_majority(self, n: int) -> bool {
        2 * (count_at_least(self.match_index, n) + 1) > self.cluster_size()
    }

    /// Whether a leader may take `n` as committed: the entry is of its own
    /// term and stands on a majority.
    pub open spec fn committable(self, n: int) -> bool {
        &&& self.log.term_at(n) == Some(self.term())
        &&& self.replicated_on_majority(n)
    }

    pub open spec fn wf(self) -> bool {
        &&& self.log.wf()
        &&& self.peers.no_duplicates()
        &&& !self.peers.contains(self.id)
        &&& self.match_index.len() == self.peers.len()
        &&& self.next_index.len() == self.peers.len()
        &&& self.log.snapshot.last_included_index <= self.commit() <= self.log.last_index()
        &&& self.votes.no_duplicates()
        &&& forall|i: int| 0 <= i < self.votes.len() ==> self.is_member(#[trigger] self.votes[i])
        &&& self.role != StateRole::Follower ==> self.voted_for() == Some(self.id)
        &&& self.role == StateRole::Leader ==> 2 * self.votes.len() > self.cluster_size()
        &&& self.role == StateRole::Leader ==> self.leader_id == Some(self.id)
        &&& 0 < self.heartbeat_tick < self.election_tick <= 0x1000_0000_0000_0000
        &&& self.election_tick <= self.randomized_timeout < 2 * self.election_tick
        &&& self.election_elapsed <= self.randomized_timeout
        &&& self.heartbeat_elapsed <= self.heartbeat_tick
    }
}

/// The vote request that node `n` sends to `to` when it stands for election.
pub open spec fn vote_request(n: NodeView, to: u64) -> MessageView {
    MessageView::RequestVote {
        from: n.id,
        to,
        term: n.term(),
        last_log_index: n.log.last_index() as u64,
        last_log_term: n.last_term(),
    }
}

/// Whether `m` is what leader `n` sends to bring peer `to` up to date: the
/// entries that follow an index whose term it gives, or, where that index
/// is compacted, its snapshot.
pub open spec fn is_append_for(n: NodeView, to: u64, m: MessageView) -> bool {
    match m {
        MessageView::AppendEntries {
            from,
            to: t,
            term,
            prev_log_index,
            prev_log_term,
            entries,
            leader_commit,
        } => {
            &&& from == n.id
            &&& t == to
            &&& term == n.term()
            &&& n.log.snapshot.last_included_index <= prev_log_index <= n.log.last_index()
            &&& n.log.term_at(prev_log_index as int) == Some(prev_log_term)
            &&& entries == n.log.entries.subrange(
                prev_log_index - n.log.snapshot.last_included_index,
                n.log.entries.len() as int,
            )
            &&& leader_commit == n.commit()
        },
        MessageView::InstallSnapshot { from, to: t, term, snapshot } => {
            &&& from == n.id
            &&& t == to
            &&& term == n.term()
            &&& snapshot == n.log.snapshot
        },
        _ => false,
    }
}

/// Whether node `n` grants the vote that `m` requests: the request is not
/// from an older term; in the node's own term it has not voted for another
/// candidate; and the candidate's log is at least as up to date as its own.
pub open spec fn grants_vote(n: NodeView, m: MessageView) -> bool {
    match m {
        MessageView::RequestVote { from, term, last_log_index, last_log_term, .. } => {
            &&& term >= n.term()
            &&& (term > n.term() || n.voted_for() is None || n.voted_for() == Some(from))
            &&& log_up_to_date(last_log_term, last_log_index, n.last_term(), n.log.last_index())
        },
        _ => false,
    }
}

/// The part of a storage that holds entries: its snapshot and its log,
/// without the hard state.
pub open spec fn log_part(l: StorageView) -> StorageView {
    StorageView { hard_state: HardState { current_term: 0, voted_for: None, commit_index: 0 }, ..l }
}

/// Whether a node in state `n` takes entries `es` laid after index `prev`
/// of term `prev_term`: it holds that entry with that term; they follow it
/// in order; and they disagree with none of its committed entries.
pub open spec fn append_ok(n: NodeView, prev: u64, prev_term: u64, es: Seq<LogEntryView>) -> bool {
    &&& n.log.snapshot.last_included_index <= prev <= n.log.last_index()
    &&& n.log.term_at(prev as int) == Some(prev_term)
    &&& contiguous_from(es, prev + 1)
    &&& prev + es.len() < u64::MAX
    &&& ({
        let k = choose|k: int| first_conflict(log_part(n.log), prev as int, es, k);
        k == es.len() || prev + 1 + k > n.commit()
    })
}

/// Whether node `n` accepts the entries that `m` carries: the message is
/// not from an older term, nor from a rival leader of its own term, and
/// `append_ok` holds of its entries.
pub open spec fn accepts_append(n: NodeView, m: MessageView) -> bool {
    match m {
        MessageView::AppendEntries { term, prev_log_index, prev_log_term, entries, .. } => {
            &&& term >= n.term()
            &&& !(term == n.term() && n.role == StateRole::Leader)
            &&& append_ok(n, prev_log_index, prev_log_term, entries)
        },
        _ => false,
    }
}

/// A follower's commit index after taking entries up to `last_new` from a
/// leader whose commit index is `leader_commit`: the smaller of the two,
/// and never lower than it was.
pub open spec fn follower_commit(commit: u64, leader_commit: u64, last_new: int) -> int {
    if commit >= leader_commit || commit >= last_new {
        commit as int
    } else if leader_commit <= last_new {
        leader_commit as int
    } else {
        last_new
    }
}

/// `k` is where `es`, laid after index `prev`, first disagrees in term with
/// `log`, or the length of `es` where they agree throughout.
pub open spec fn first_conflict(log: StorageView, prev: int, es: Seq<LogEntryView>, k: int) -> bool {
    &&& 0 <= k <= es.len()
    &&& forall|j: int| 0 <= j < k ==> log.term_at(prev + 1 + j) == Some(#[trigger] es[j].term)
    &&& k < es.len() ==> log.term_at(prev + 1 + k) != Some(es[k].term)
}

/// The log after accepting `es` after index `prev`: entries that agree in
/// term are kept; from the first that does not, the log is replaced by the
/// rest of `es`.
pub open spec fn merged_log(log: StorageView, prev: int, es: Seq<LogEntryView>) -> Seq<LogEntryView> {
    let k = choose|k: int| first_conflict(log_part(log), prev, es, k);
    if k < es.len() {
        log.after_append(es.subrange(k, es.len() as int))
    } else {
        log.entries
    }
}

proof fn lemma_first_conflict_unique(log: StorageView, prev: int, es: Seq<LogEntryView>, k: int)
    requires
        first_conflict(log, prev, es, k),
    ensures
        (choose|k2: int| first_conflict(log, prev, es, k2)) == k,
{
    let k2 = choose|k2: int| first_conflict(log, prev, es, k2);
    assert(first_conflict(log, prev, es, k2));
    if k2 < k {
        assert(log.term_at(prev + 1 + k2) == Some(es[k2].term));
    } else if k < k2 {
        assert(log.term_at(prev + 1 + k) == Some(es[k].term));
    }
}

proof fn lemma_first_conflict_exists(log: StorageView, prev: int, es: Seq<LogEntryView>)
    ensures
        exists|k: int| first_conflict(log, prev, es, k),
    decreases es.len(),
{
    if es.len() == 0 {
        assert(first_conflict(log, prev, es, 0));
    } else {
        let es1 = es.drop_last();
        lemma_first_conflict_exists(log, prev, es1);
        let k1 = choose|k: int| first_conflict(log, prev, es1, k);
        if k1 < es1.len() {
            assert(es1[k1] == es[k1]);
            assert forall|j: int| 0 <= j < k1 implies log.term_at(prev + 1 + j) == Some(#[trigger] es[j].term) by {
                assert(es1[j] == es[j]);
            }
            assert(first_conflict(log, prev, es, k1));
        } else {
            assert forall|j: int| 0 <= j < k1 implies log.term_at(prev + 1 + j) == Some(#[trigger] es[j].term) by {
                assert(es1[j] == es[j]);
            }
            if log.term_at(prev + 1 + k1) == Some(es[k1].term) {
                assert(first_conflict(log, prev, es, k1 + 1));
            } else {
                assert(first_conflict(log, prev, es, k1));
            }
        }
    }
}

/// Log matching, as one node sees it. After a node takes entries `es` laid
/// after index `prev`, its log holds, at each index that `es` covers, an
/// entry with that index and the term `es` gives there, and every entry up
/// to `prev` is the one it held before.
pub proof fn lemma_merged_log_matches(log: StorageView, prev: int, es: Seq<LogEntryView>)
    requires
        log.wf(),
        log.snapshot.last_included_index <= prev <= log.last_index(),
        contiguous_from(es, prev + 1),
    ensures
        ({
            let m = merged_log(log, prev, es);
            let base = prev - log.snapshot.last_included_index;
            &&& m.len() >= base + es.len()
            &&& forall|j: int| 0 <= j < es.len() ==> #[trigger] m[base + j].index == es[j].index
                && m[base + j].term == es[j].term
            &&& forall|i: int| 0 <= i < base ==> #[trigger] m[i] == log.entries[i]
        }),
{
    lemma_first_conflict_exists(log_part(log), prev, es);
    let k = choose|k: int| first_conflict(log_part(log), prev, es, k);
    let base = prev - log.snapshot.last_included_index;
    let m = merged_log(log, prev, es);
    assert forall|j: int| 0 <= j < k implies #[trigger] log.entries[base + j].term == es[j].term by {
        assert(log_part(log).term_at(prev + 1 + j) == Some(es[j].term));
    }
    if k < es.len() {
        let tail = es.subrange(k, es.len() as int);
        assert(tail[0] == es[k]);
        assert(es[k].index == prev + 1 + k);
        if k > 0 {
            assert(log_part(log).term_at(prev + 1 + (k - 1)) == Some(es[k - 1].term));
        }
        assert(base + k <= log.entries.len());
        let head = log.entries.subrange(0, base + k);
        assert(m == head + tail);
        assert(m.len() == base + es.len());
        assert forall|j: int| 0 <= j < es.len() implies #[trigger] m[base + j].index == es[j].index
            && m[base + j].term == es[j].term by {
            if j < k {
                assert(m[base + j] == head[base + j]);
                assert(log_part(log).term_at(prev + 1 + j) == Some(es[j].term));
                assert(log.entries[base + j].index == log.snapshot.last_included_index + 1 + base + j);
            } else {
                assert(m[base + j] == tail[j - k]);
            }
        }
        assert forall|i: int| 0 <= i < base implies #[trigger] m[i] == log.entries[i] by {
            assert(m[i] == head[i]);
        }
    } else {
        if es.len() > 0 {
            assert(log_part(log).term_at(prev + es.len()) == Some(es[es.len() - 1].term));
        }
        assert forall|j: int| 0 <= j < es.len() implies #[trigger] m[base + j].index == es[j].index
            && m[base + j].term == es[j].term by {
            assert(log_part(log).term_at(prev + 1 + j) == Some(es[j].term));
            assert(log.entries[base + j].index == log.snapshot.last_included_index + 1 + base + j);
        }
    }
}

/// The voting members of a node's cluster: its peers and itself.
pub open spec fn members(n: NodeView) -> Set<u64> {
    n.peers.to_set().insert(n.id)
}

/// A leader holds the votes of a majority of its cluster, granted in its
/// term. With `lemma_one_leader_per_term`, and a vote that `step` never
/// takes back within a term, no two nodes lead in the same term.
pub proof fn lemma_leader_holds_quorum(n: NodeView)
    requires
        n.wf(),
        n.role == StateRole::Leader,
    ensures
        members(n).finite(),
        is_quorum(n.votes.to_set(), members(n)),
        members(n).len() == n.cluster_size(),
{
    n.votes.unique_seq_to_set();
    n.peers.unique_seq_to_set();
    assert(!n.peers.to_set().contains(n.id));
    assert(n.votes.to_set().subset_of(members(n))) by {
        assert forall|v: u64| n.votes.to_set().contains(v) implies members(n).contains(v) by {
            let i = choose|i: int| 0 <= i < n.votes.len() && n.votes[i] == v;
            assert(n.is_member(n.votes[i]));
        }
    }
}

/// What every step of a node keeps: its identity and settings; a term that
/// never goes back; within a term, a vote that is never taken back and a
/// commit index that never goes back.
pub open spec fn monotonic(a: NodeView, b: NodeView) -> bool {
    &&& b.id == a.id
    &&& b.peers == a.peers
    &&& b.election_tick == a.election_tick
    &&& b.heartbeat_tick == a.heartbeat_tick
    &&& b.term() >= a.term()
    &&& (b.term() == a.term() && a.voted_for() is Some ==> b.voted_for() == a.voted_for())
    &&& b.commit() >= a.commit()
    &&& (b.term() == a.term() && a.role == StateRole::Leader ==> b.role == StateRole::Leader)
    &&& b.msgs.len() >= a.msgs.len()
    &&& b.msgs.subrange(0, a.msgs.len() as int) == a.msgs
}

proof fn lemma_monotonic_refl(a: NodeView)
    ensures
        monotonic(a, a),
{
    assert(a.msgs.subrange(0, a.msgs.len() as int) =~= a.msgs);
}

/// One node of the consensus layer: a state machine over follower, candidate
/// and leader, driven by `tick`, `step`, `propose` and `campaign`. It never
/// waits: messages to send collect in an outbox that `advance` hands out.
pub struct RaftNode {
    id: u64,
    peers: Vec<u64>,
    role: StateRole,
    storage: RaftStorage,
    leader_id: Option<u64>,
    votes: Vec<u64>,
    match_index: Vec<u64>,
    next_index: Vec<u64>,
    msgs: Vec<Message>,
    election_elapsed: u64,
    heartbeat_elapsed: u64,
    randomized_timeout: u64,
    election_tick: u64,
    heartbeat_tick: u64,
}

/// Relies on rand's `Rng::gen_range` over `thread_rng()`: a value drawn
/// from `0..n`, which it panics on only where that range is empty.
#[verifier::external_body]
pub(crate) fn random_below(n: u64) -> (r: u64)
    requires
        n > 0,
    ensures
        r < n,
{
    rand::Rng::gen_range(&mut rand::thread_rng(), 0..n)
}

fn contains_id(v: &Vec<u64>, x: u64) -> (r: bool)
    ensures
        r == v@.contains(x),
{
    let mut i: usize = 0;
    while i < v.len()
        invariant
            i <= v.len(),
            forall|j: int| 0 <= j < i ==> v@[j] != x,
        decreases v.len() - i,
    {
        if v[i] == x {
            assert(v@[i as int] == x);
            return true;
        }
        i = i + 1;
    }
    false
}

fn position_of(v: &Vec<u64>, x: u64) -> (r: Option<usize>)
    ensures
        match r {
            Some(i) => i < v@.len() && v@[i as int] == x,
            None => !v@.contains(x),
        },
{
    let mut i: usize = 0;
    while i < v.len()
        invariant
            i <= v.len(),
            forall|j: int| 0 <= j < i ==> v@[j] != x,
        decreases v.len() - i,
    {
        if v[i] == x {
            return Some(i);
        }
        i = i + 1;
    }
    None
}

impl View for RaftNode {
    type V = NodeView;

    closed spec fn view(&self) -> NodeView {
        NodeView {
            id: self.id,
            peers: self.peers@,
            role: self.role,
            log: self.storage@,
            leader_id: self.leader_id,
            votes: self.votes@,
            match_index: self.match_index@,
            next_index: self.next_index@,
            msgs: messages_view(self.msgs@),
            election_elapsed: self.election_elapsed,
            heartbeat_elapsed: self.heartbeat_elapsed,
            randomized_timeout: self.randomized_timeout,
            election_tick: self.election_tick,
            heartbeat_tick: self.heartbeat_tick,
        }
    }
}

fn all_distinct(v: &Vec<u64>) -> (r: bool)
    ensures
        r == v@.no_duplicates(),
{
    let mut i: usize = 0;
    while i < v.len()
        invariant
            i <= v.len(),
            forall|a: int, b: int| 0 <= a < b < i ==> v@[a] != v@[b],
        decreases v.len() - i,
    {
        let mut j: usize = 0;
        while j < i
            invariant
                i < v.len(),
                j <= i,
                forall|a: int, b: int| 0 <= a < b < i ==> v@[a] != v@[b],
                forall|a: int| 0 <= a < j ==> v@[a] != v@[i as int],
            decreases i - j,
        {
            if v[j] == v[i] {
                return false;
            }
            j = j + 1;
        }
        i = i + 1;
    }
    true
}

/// Messages already queued stay queued, in order, at the front.
proof fn lemma_push_keeps_prefix(msgs: Seq<Message>, m: Message)
    ensures
        messages_view(msgs.push(m)).len() == messages_view(msgs).len() + 1,
        messages_view(msgs.push(m)).subrange(0, msgs.len() as int) == messages_view(msgs),
        messages_view(msgs.push(m))[msgs.len() as int] == m@,
{
    assert(messages_view(msgs.push(m)).subrange(0, msgs.len() as int) =~= messages_view(msgs));
}

impl RaftNode {
    /// Builds a node over `storage`, as a follower of the term that the
    /// storage holds. Refused with `InvalidConfig` where `id` is 0, a peer id
    /// repeats or equals `id`, the ticks are not `0 < heartbeat_tick < election_tick <=
    /// 2^60`, or the stored commit index is past the log or before its
    /// snapshot.
    pub fn new(id: u64, peers: Vec<u64>, storage: RaftStorage, election_tick: u64, heartbeat_tick: u64) -> (r: Result<RaftNode, Error>)
        requires
            storage@.wf(),
        ensures
            r is Ok <==> (id != 0 && peers@.no_duplicates() && !peers@.contains(id) && 0 < heartbeat_tick
                < election_tick <= 0x1000_0000_0000_0000 && storage@.snapshot.last_included_index
                <= storage@.hard_state.commit_index <= storage@.last_index()),
            r matches Err(e) ==> e == Error::InvalidConfig,
            r matches Ok(n) ==> {
                &&& n@.wf()
                &&& n@.id == id
                &&& n@.peers == peers@
                &&& n@.role == StateRole::Follower
                &&& n@.log == storage@
                &&& n@.leader_id is None
                &&& n@.votes.len() == 0
                &&& n@.msgs.len() == 0
                &&& n@.election_tick == election_tick
                &&& n@.heartbeat_tick == heartbeat_tick
            },
    {
        if id == 0 || !all_distinct(&peers) || contains_id(&peers, id) || heartbeat_tick == 0
            || heartbeat_tick >= election_tick || election_tick > 0x1000_0000_0000_0000 {
            return Err(Error::InvalidConfig);
        }
        let hs = storage.initial_state();
        if hs.commit_index > storage.last_index() || hs.commit_index < storage.first_index() - 1 {
            return Err(Error::InvalidConfig);
        }
        let n = peers.len();
        let jitter = random_below(election_tick);
        let node = RaftNode {
            id,
            peers,
            role: StateRole::Follower,
            storage,
            leader_id: None,
            votes: Vec::new(),
            match_index: vec![0u64; n],
            next_index: vec![1u64; n],
            msgs: Vec::new(),
            election_elapsed: 0,
            heartbeat_elapsed: 0,
            randomized_timeout: election_tick + jitter,
            election_tick,
            heartbeat_tick,
        };
        assert(node@.msgs =~= Seq::<MessageView>::empty());
        Ok(node)
    }

    pub fn is_leader(&self) -> (r: bool)
        ensures
            r == (self@.role == StateRole::Leader),
    {
        self.role == StateRole::Leader
    }

    pub fn role(&self) -> (r: StateRole)
        ensures
            r == self@.role,
    {
        self.role
    }

    pub fn id(&self) -> (r: u64)
        ensures
            r == self@.id,
    {
        self.id
    }

    /// The leader this node last heard from in its term.
    pub fn leader(&self) -> (r: Option<u64>)
        ensures
            r == self@.leader_id,
    {
        self.leader_id
    }

    /// Term, vote and commit index: what must be persisted before the
    /// messages that `advance` hands out are sent.
    pub fn hard_state(&self) -> (r: HardState)
        ensures
            r == self@.log.hard_state,
    {
        self.storage.initial_state()
    }

    /// The node's log storage.
    pub fn storage(&self) -> (r: &RaftStorage)
        ensures
            r@ == self@.log,
    {
        &self.storage
    }

    /// The entries committed after index `after`, up to the commit index.
    pub fn committed_entries(&self, after: u64) -> (r: Result<Vec<LogEntry>, Error>)
        requires
            self@.wf(),
        ensures
            after < self@.log.snapshot.last_included_index ==> r matches Err(Error::Compacted),
            self@.log.snapshot.last_included_index <= after <= self@.commit() ==> (r matches Ok(v)
                && entries_view(v@) == self@.log.entries.subrange(
                after - self@.log.snapshot.last_included_index,
                self@.commit() - self@.log.snapshot.last_included_index,
            )),
            after > self@.commit() ==> (r matches Ok(v) && v@.len() == 0),
    {
        let commit = self.storage.initial_state().commit_index;
        if after > commit {
            return Ok(Vec::new());
        }
        if after < self.storage.first_index() - 1 {
            return Err(Error::Compacted);
        }
        self.storage.entries(after + 1, commit + 1)
    }

    /// Hands out the messages queued since the last call, oldest first, and
    /// empties the queue.
    pub fn advance(&mut self) -> (r: Vec<Message>)
        ensures
            messages_view(r@) == old(self)@.msgs,
            final(self)@ == (NodeView { msgs: Seq::empty(), ..old(self)@ }),
    {
        let mut r: Vec<Message> = Vec::new();
        core::mem::swap(&mut self.msgs, &mut r);
        assert(self@.msgs =~= Seq::<MessageView>::empty());
        assert(self@ =~= (NodeView { msgs: Seq::empty(), ..old(self)@ }));
        r
    }

    fn reset_election_timer(&mut self)
        requires
            old(self)@.wf(),
        ensures
            final(self)@ == (NodeView {
                election_elapsed: 0,
                randomized_timeout: final(self)@.randomized_timeout,
                ..old(self)@
            }),
            final(self)@.wf(),
    {
        let jitter = random_below(self.election_tick);
        self.election_elapsed = 0;
        self.randomized_timeout = self.election_tick + jitter;
    }

    fn push_msg(&mut self, m: Message)
        ensures
            final(self)@ == (NodeView { msgs: old(self)@.msgs.push(m@), ..old(self)@ }),
    {
        proof {
            lemma_push_keeps_prefix(self.msgs@, m);
        }
        let ghost mv = m@;
        self.msgs.push(m);
        assert(self@.msgs =~= old(self)@.msgs.push(mv));
    }

    /// Moves the commit index to the highest entry of the current term that
    /// stands on a majority, where that is past it.
    fn maybe_commit(&mut self)
        requires
            old(self)@.wf(),
            old(self)@.role == StateRole::Leader,
        ensures
            final(self)@.wf(),
            final(self)@ == (NodeView {
                log: StorageView {
                    hard_state: HardState { commit_index: final(self)@.commit(), ..old(self)@.log.hard_state },
                    ..old(self)@.log
                },
                ..old(self)@
            }),
            final(self)@.commit() >= old(self)@.commit(),
            final(self)@.commit() > old(self)@.commit() ==> old(self)@.committable(final(self)@.commit() as int),
            forall|n: int| final(self)@.commit() < n <= old(self)@.log.last_index() ==> !old(self)@.committable(n),
    {
        let hs = self.storage.initial_state();
        let last = self.storage.last_index();
        let mut n = last;
        while n > hs.commit_index
            invariant
                self@ == old(self)@,
                self@.wf(),
                hs == self@.log.hard_state,
                last == self@.log.last_index(),
                hs.commit_index <= n <= last,
                forall|m: int| n < m <= last ==> !old(self)@.committable(m),
            decreases n,
        {
            let same_term = match self.storage.term(n) {
                Ok(t) => t == hs.current_term,
                Err(_) => false,
            };
            if same_term {
                let mut count: u64 = 0;
                let mut i: usize = 0;
                while i < self.match_index.len()
                    invariant
                        self@ == old(self)@,
                        self@.wf(),
                        i <= self.match_index.len(),
                        count <= i,
                        count == count_at_least(self.match_index@.subrange(0, i as int), n as int),
                    decreases self.match_index.len() - i,
                {
                    proof {
                        lemma_count_step(self.match_index@, n as int, i as int);
                    }
                    if self.match_index[i] >= n {
                        count = count + 1;
                    }
                    i = i + 1;
                }
                assert(self.match_index@.subrange(0, self.match_index@.len() as int) =~= self.match_index@);
                if 2 * (count as u128 + 1) > self.peers.len() as u128 + 1 {
                    let new_hs = HardState { commit_index: n, ..hs };
                    self.storage.save_hard_state(new_hs);
                    assert(self@ =~= (NodeView {
                        log: StorageView {
                            hard_state: HardState { commit_index: n, ..old(self)@.log.hard_state },
                            ..old(self)@.log
                        },
                        ..old(self)@
                    }));
                    return;
                }
            }
            n = n - 1;
        }
    }

    /// Queues for peer `k` the entries it lacks, or the snapshot where they
    /// were compacted.
    fn send_append(&mut self, k: usize)
        requires
            old(self)@.wf(),
            k < old(self)@.peers.len(),
        ensures
            final(self)@.wf(),
            final(self)@ == (NodeView { msgs: final(self)@.msgs, ..old(self)@ }),
            final(self)@.msgs.len() == old(self)@.msgs.len() + 1,
            final(self)@.msgs.subrange(0, old(self)@.msgs.len() as int) == old(self)@.msgs,
            is_append_for(old(self)@, old(self)@.peers[k as int], final(self)@.msgs.last()),
    {
        let hs = self.storage.initial_state();
        let last = self.storage.last_index();
        let mut next = self.next_index[k];
        if next == 0 {
            next = 1;
        }
        if next > last + 1 {
            next = last + 1;
        }
        let prev = next - 1;
        let to = self.peers[k];
        match self.storage.term(prev) {
            Ok(prev_term) => {
                match self.storage.entries(next, last + 1) {
                    Ok(entries) => {
                        self.push_msg(
                            Message::AppendEntries {
                                from: self.id,
                                to,
                                term: hs.current_term,
                                prev_log_index: prev,
                                prev_log_term: prev_term,
                                entries,
                                leader_commit: hs.commit_index,
                            },
                        );
                        return;
                    },
                    Err(_) => {},
                }
            },
            Err(_) => {},
        }
        let snapshot = self.storage.snapshot();
        self.push_msg(Message::InstallSnapshot { from: self.id, to, term: hs.current_term, snapshot });
    }

    /// Queues for every peer, in peer order, what `send_append` queues.
    fn broadcast_append(&mut self)
        requires
            old(self)@.wf(),
        ensures
            final(self)@.wf(),
            final(self)@ == (NodeView { msgs: final(self)@.msgs, ..old(self)@ }),
            final(self)@.msgs.len() == old(self)@.msgs.len() + old(self)@.peers.len(),
            final(self)@.msgs.subrange(0, old(self)@.msgs.len() as int) == old(self)@.msgs,
            forall|k: int| 0 <= k < old(self)@.peers.len() ==> is_append_for(
                old(self)@,
                old(self)@.peers[k],
                #[trigger] final(self)@.msgs[old(self)@.msgs.len() + k],
            ),
    {
        let ghost s0 = self@;
        let mut k: usize = 0;
        while k < self.peers.len()
            invariant
                self@.wf(),
                self@ == (NodeView { msgs: self@.msgs, ..s0 }),
                k <= s0.peers.len(),
                self@.msgs.len() == s0.msgs.len() + k,
                self@.msgs.subrange(0, s0.msgs.len() as int) == s0.msgs,
                forall|j: int| 0 <= j < k ==> is_append_for(s0, s0.peers[j], #[trigger] self@.msgs[s0.msgs.len() + j]),
            decreases s0.peers.len() - k,
        {
            let ghost before = self@.msgs;
            self.send_append(k);
            assert(self@.msgs.subrange(0, before.len() as int) == before);
            assert forall|j: int| 0 <= j < k + 1 implies is_append_for(s0, s0.peers[j], #[trigger] self@.msgs[s0.msgs.len() + j]) by {
                if j < k {
                    assert(self@.msgs.subrange(0, before.len() as int)[s0.msgs.len() + j] == before[s0.msgs.len() + j]);
                }
            }
            assert(self@.msgs.subrange(0, s0.msgs.len() as int) =~= s0.msgs) by {
                assert forall|j: int| 0 <= j < s0.msgs.len() implies self@.msgs[j] == s0.msgs[j] by {
                    assert(self@.msgs.subrange(0, before.len() as int)[j] == before[j]);
                    assert(before.subrange(0, s0.msgs.len() as int)[j] == s0.msgs[j]);
                }
            }
            k = k + 1;
        }
    }

    /// Takes office after winning the votes of a majority: every peer is
    /// taken to lack all entries, a no-op entry of the new term is appended
    /// where the log has room, and every peer is sent what it lacks.
    fn become_leader(&mut self)
        requires
            old(self)@.wf(),
            old(self)@.role == StateRole::Candidate,
            2 * old(self)@.votes.len() > old(self)@.cluster_size(),
        ensures
            final(self)@.wf(),
            monotonic(old(self)@, final(self)@),
            final(self)@.role == StateRole::Leader,
            final(self)@.leader_id == Some(old(self)@.id),
            final(self)@.term() == old(self)@.term(),
            final(self)@.voted_for() == old(self)@.voted_for(),
            final(self)@.votes == old(self)@.votes,
            final(self)@.log.snapshot == old(self)@.log.snapshot,
            old(self)@.log.last_index() + 1 < u64::MAX ==> final(self)@.log.entries == old(self)@.log.entries.push(
                LogEntryView {
                    index: (old(self)@.log.last_index() + 1) as u64,
                    term: old(self)@.term(),
                    command: crate::types::CommandView::Noop,
                },
            ),
            old(self)@.log.last_index() + 1 >= u64::MAX ==> final(self)@.log.entries == old(self)@.log.entries,
    {
        let ghost s0 = self@;
        let hs = self.storage.initial_state();
        let last = self.storage.last_index();
        let n = self.peers.len();
        self.role = StateRole::Leader;
        self.leader_id = Some(self.id);
        self.heartbeat_elapsed = 0;
        self.next_index = vec![last + 1; n];
        self.match_index = vec![0u64; n];
        if last + 1 < u64::MAX {
            let mut noop: Vec<LogEntry> = Vec::new();
            noop.push(LogEntry { index: last + 1, term: hs.current_term, command: Command::Noop });
            assert(entries_view(noop@) =~= seq![
                LogEntryView { index: (last + 1) as u64, term: hs.current_term, command: crate::types::CommandView::Noop },
            ]);
            let _ = self.storage.append(noop);
            assert(self@.log.entries =~= s0.log.entries.push(
                LogEntryView { index: (last + 1) as u64, term: hs.current_term, command: crate::types::CommandView::Noop },
            ));
        }
        let ghost s1 = self@;
        self.maybe_commit();
        self.broadcast_append();
        proof {
            assert(self@.msgs.subrange(0, s0.msgs.len() as int) =~= s0.msgs) by {
                assert forall|j: int| 0 <= j < s0.msgs.len() implies self@.msgs[j] == s0.msgs[j] by {
                    assert(self@.msgs.subrange(0, s1.msgs.len() as int)[j] == s1.msgs[j]);
                }
            }
        }
    }

    /// Starts an election: a new term, a vote for itself, and a vote request
    /// to every peer. A node without peers wins at once.
    fn become_candidate(&mut self)
        requires
            old(self)@.wf(),
            old(self)@.role != StateRole::Leader,
            old(self)@.term() < u64::MAX,
        ensures
            final(self)@.wf(),
            monotonic(old(self)@, final(self)@),
            final(self)@.term() == old(self)@.term() + 1,
            final(self)@.voted_for() == Some(old(self)@.id),
            final(self)@.votes == seq![old(self)@.id],
            final(self)@.log.snapshot == old(self)@.log.snapshot,
            old(self)@.log.entries.is_prefix_of(final(self)@.log.entries),
            old(self)@.peers.len() == 0 ==> final(self)@.role == StateRole::Leader,
            old(self)@.peers.len() > 0 ==> {
                &&& final(self)@.role == StateRole::Candidate
                &&& final(self)@.leader_id is None
                &&& final(self)@.log == (StorageView {
                    hard_state: HardState {
                        current_term: (old(self)@.term() + 1) as u64,
                        voted_for: Some(old(self)@.id),
                        commit_index: old(self)@.commit(),
                    },
                    ..old(self)@.log
                })
                &&& final(self)@.msgs.len() == old(self)@.msgs.len() + old(self)@.peers.len()
                &&& final(self)@.msgs.subrange(0, old(self)@.msgs.len() as int) == old(self)@.msgs
                &&& forall|k: int| 0 <= k < old(self)@.peers.len() ==> #[trigger] final(self)@.msgs[old(self)@.msgs.len() + k]
                    == vote_request(final(self)@, old(self)@.peers[k])
            },
    {
        let ghost s0 = self@;
        let hs = self.storage.initial_state();
        let new_hs = HardState { current_term: hs.current_term + 1, voted_for: Some(self.id), commit_index: hs.commit_index };
        self.storage.save_hard_state(new_hs);
        self.role = StateRole::Candidate;
        self.leader_id = None;
        let mut votes: Vec<u64> = Vec::new();
        votes.push(self.id);
        self.votes = votes;
        self.reset_election_timer();
        assert(self@.votes =~= seq![s0.id]);
        if self.peers.len() == 0 {
            let ghost s2 = self@;
            self.become_leader();
            assert(s0.log.entries.is_prefix_of(self@.log.entries)) by {
                assert(self@.log.entries.subrange(0, s0.log.entries.len() as int) =~= s0.log.entries);
            }
            return;
        }
        assert(s0.log.entries.is_prefix_of(self@.log.entries)) by {
            assert(self@.log.entries.subrange(0, s0.log.entries.len() as int) =~= s0.log.entries);
        }
        let last = self.storage.last_index();
        let last_term = match self.storage.term(last) {
            Ok(t) => t,
            Err(_) => 0,
        };
        let ghost s1 = self@;
        let mut k: usize = 0;
        while k < self.peers.len()
            invariant
                self@.wf(),
                self@ == (NodeView { msgs: self@.msgs, ..s1 }),
                k <= s1.peers.len(),
                last == s1.log.last_index(),
                last_term == s1.last_term(),
                new_hs.current_term == s1.term(),
                self@.msgs.len() == s1.msgs.len() + k,
                self@.msgs.subrange(0, s1.msgs.len() as int) == s1.msgs,
                forall|j: int| 0 <= j < k ==> #[trigger] self@.msgs[s1.msgs.len() + j] == vote_request(s1, s1.peers[j]),
            decreases s1.peers.len() - k,
        {
            let ghost before = self@.msgs;
            let to = self.peers[k];
            self.push_msg(Message::RequestVote { from: self.id, to, term: new_hs.current_term, last_log_index: last, last_log_term: last_term });
            assert forall|j: int| 0 <= j < k + 1 implies #[trigger] self@.msgs[s1.msgs.len() + j] == vote_request(s1, s1.peers[j]) by {
                if j < k {
                    assert(self@.msgs[s1.msgs.len() + j] == before[s1.msgs.len() + j]);
                }
            }
            assert(self@.msgs.subrange(0, s1.msgs.len() as int) =~= s1.msgs) by {
                assert forall|j: int| 0 <= j < s1.msgs.len() implies self@.msgs[j] == s1.msgs[j] by {
                    assert(before.subrange(0, s1.msgs.len() as int)[j] == s1.msgs[j]);
                }
            }
            k = k + 1;
        }
        assert(s1.msgs == s0.msgs);
    }

    /// Forces an election now. Refused with `AlreadyLeader` on a leader, and
    /// with `OutOfRange` where the term cannot grow.
    pub fn campaign(&mut self) -> (r: Result<(), Error>)
        requires
            old(self)@.wf(),
        ensures
            final(self)@.wf(),
            monotonic(old(self)@, final(self)@),
            old(self)@.role == StateRole::Leader ==> r == Err::<(), Error>(Error::AlreadyLeader)
                && final(self)@ == old(self)@,
            old(self)@.role != StateRole::Leader && old(self)@.term() == u64::MAX ==> r == Err::<(), Error>(
                Error::OutOfRange,
            ) && final(self)@ == old(self)@,
            old(self)@.role != StateRole::Leader && old(self)@.term() < u64::MAX ==> {
                &&& r is Ok
                &&& final(self)@.term() == old(self)@.term() + 1
                &&& final(self)@.voted_for() == Some(old(self)@.id)
                &&& final(self)@.votes == seq![old(self)@.id]
                &&& old(self)@.peers.len() == 0 ==> final(self)@.role == StateRole::Leader
                &&& old(self)@.peers.len() > 0 ==> final(self)@.role == StateRole::Candidate
                    && final(self)@.msgs.len() == old(self)@.msgs.len() + old(self)@.peers.len()
                    && forall|k: int| 0 <= k < old(self)@.peers.len() ==> #[trigger] final(self)@.msgs[old(self)@.msgs.len() + k]
                        == vote_request(final(self)@, old(self)@.peers[k])
            },
    {
        proof {
            lemma_monotonic_refl(self@);
        }
        if self.role == StateRole::Leader {
            return Err(Error::AlreadyLeader);
        }
        if self.storage.initial_state().current_term == u64::MAX {
            return Err(Error::OutOfRange);
        }
        self.become_candidate();
        Ok(())
    }

    /// Appends `command` to the log as a new entry of the current term and
    /// sends it on to every peer; returns its index without waiting for it
    /// to commit. Refused with `NotLeader`, naming the leader last heard
    /// from, on a node that does not lead, and with `OutOfRange` where the
    /// log has no index left.
    pub fn propose(&mut self, command: Command) -> (r: Result<u64, Error>)
        requires
            old(self)@.wf(),
        ensures
            final(self)@.wf(),
            monotonic(old(self)@, final(self)@),
            old(self)@.role != StateRole::Leader ==> r == Err::<u64, Error>(Error::NotLeader(old(self)@.leader_id))
                && final(self)@ == old(self)@,
            old(self)@.role == StateRole::Leader && old(self)@.log.last_index() + 1 >= u64::MAX ==> r
                == Err::<u64, Error>(Error::OutOfRange) && final(self)@ == old(self)@,
            old(self)@.role == StateRole::Leader && old(self)@.log.last_index() + 1 < u64::MAX ==> {
                &&& r == Ok::<u64, Error>((old(self)@.log.last_index() + 1) as u64)
                &&& final(self)@.role == StateRole::Leader
                &&& final(self)@.term() == old(self)@.term()
                &&& final(self)@.log.snapshot == old(self)@.log.snapshot
                &&& final(self)@.log.entries == old(self)@.log.entries.push(
                    LogEntryView {
                        index: (old(self)@.log.last_index() + 1) as u64,
                        term: old(self)@.term(),
                        command: command@,
                    },
                )
                &&& final(self)@.msgs.len() == old(self)@.msgs.len() + old(self)@.peers.len()
                &&& forall|k: int| 0 <= k < old(self)@.peers.len() ==> is_append_for(
                    final(self)@,
                    old(self)@.peers[k],
                    #[trigger] final(self)@.msgs[old(self)@.msgs.len() + k],
                )
                &&& final(self)@.commit() > old(self)@.commit() ==> final(self)@.committable(
                    final(self)@.commit() as int,
                )
                &&& forall|n: int| final(self)@.commit() < n <= final(self)@.log.last_index()
                    ==> !final(self)@.committable(n)
            },
    {
        proof {
            lemma_monotonic_refl(self@);
        }
        if self.role != StateRole::Leader {
            return Err(Error::NotLeader(self.leader_id));
        }
        let last = self.storage.last_index();
        if last >= u64::MAX - 1 {
            return Err(Error::OutOfRange);
        }
        let ghost s0 = self@;
        let term = self.storage.initial_state().current_term;
        let ghost cv = command@;
        let mut batch: Vec<LogEntry> = Vec::new();
        batch.push(LogEntry { index: last + 1, term, command });
        assert(entries_view(batch@) =~= seq![LogEntryView { index: (last + 1) as u64, term, command: cv }]);
        let _ = self.storage.append(batch);
        assert(self@.log.entries =~= s0.log.entries.push(LogEntryView { index: (last + 1) as u64, term, command: cv }));
        let ghost s_mid = self@;
        self.maybe_commit();
        let ghost s1 = self@;
        assert forall|n: int| s1.commit() < n <= s1.log.last_index() implies !s1.committable(n) by {
            assert(s1.log.term_at(n) == s_mid.log.term_at(n));
            assert(!s_mid.committable(n));
        }
        assert(s1.commit() > s0.commit() ==> s1.committable(s1.commit() as int)) by {
            assert(s1.log.term_at(s1.commit() as int) == s_mid.log.term_at(s1.commit() as int));
        }
        self.broadcast_append();
        proof {
            assert(self@.msgs.subrange(0, s0.msgs.len() as int) =~= s0.msgs);
            assert forall|k: int| 0 <= k < s0.peers.len() implies is_append_for(
                self@,
                s0.peers[k],
                #[trigger] self@.msgs[s0.msgs.len() + k],
            ) by {
                assert(is_append_for(s1, s1.peers[k], self@.msgs[s1.msgs.len() + k]));
            }
            assert forall|n: int| self@.commit() < n <= self@.log.last_index() implies !self@.committable(n) by {
                assert(!s1.committable(n));
            }
        }
        Ok(last + 1)
    }

    /// Advances the node's clock by one tick. A leader sends every peer what
    /// it lacks each `heartbeat_tick` ticks; any other node stands for
    /// election once its randomized election timeout has passed without
    /// word from a leader.
    pub fn tick(&mut self)
        requires
            old(self)@.wf(),
        ensures
            final(self)@.wf(),
            monotonic(old(self)@, final(self)@),
            old(self)@.role == StateRole::Leader && old(self)@.heartbeat_elapsed + 1 < old(self)@.heartbeat_tick
                ==> final(self)@ == (NodeView { heartbeat_elapsed: (old(self)@.heartbeat_elapsed + 1) as u64, ..old(self)@ }),
            old(self)@.role == StateRole::Leader && old(self)@.heartbeat_elapsed + 1 >= old(self)@.heartbeat_tick
                ==> {
                &&& final(self)@ == (NodeView { heartbeat_elapsed: 0, msgs: final(self)@.msgs, ..old(self)@ })
                &&& final(self)@.msgs.len() == old(self)@.msgs.len() + old(self)@.peers.len()
                &&& forall|k: int| 0 <= k < old(self)@.peers.len() ==> is_append_for(
                    old(self)@,
                    old(self)@.peers[k],
                    #[trigger] final(self)@.msgs[old(self)@.msgs.len() + k],
                )
            },
            old(self)@.role != StateRole::Leader && old(self)@.election_elapsed + 1 < old(self)@.randomized_timeout
                ==> final(self)@ == (NodeView { election_elapsed: (old(self)@.election_elapsed + 1) as u64, ..old(self)@ }),
            old(self)@.role != StateRole::Leader && old(self)@.election_elapsed + 1 >= old(self)@.randomized_timeout
                && old(self)@.term() < u64::MAX ==> {
                &&& final(self)@.log.snapshot == old(self)@.log.snapshot
                &&& old(self)@.log.entries.is_prefix_of(final(self)@.log.entries)
                &&& old(self)@.peers.len() > 0 ==> final(self)@.log.entries == old(self)@.log.entries
                &&& final(self)@.term() == old(self)@.term() + 1
                &&& final(self)@.voted_for() == Some(old(self)@.id)
                &&& final(self)@.role != StateRole::Follower
            },
            old(self)@.role != StateRole::Leader && old(self)@.election_elapsed + 1 >= old(self)@.randomized_timeout
                && old(self)@.term() == u64::MAX ==> final(self)@.term() == old(self)@.term()
                && final(self)@.role == old(self)@.role && final(self)@.log == old(self)@.log,
    {
        proof {
            lemma_monotonic_refl(self@);
        }
        if self.role == StateRole::Leader {
            if self.heartbeat_elapsed + 1 < self.heartbeat_tick {
                self.heartbeat_elapsed = self.heartbeat_elapsed + 1;
            } else {
                self.heartbeat_elapsed = 0;
                self.broadcast_append();
            }
        } else {
            if self.election_elapsed + 1 < self.randomized_timeout {
                self.election_elapsed = self.election_elapsed + 1;
            } else if self.storage.initial_state().current_term < u64::MAX {
                self.become_candidate();
            } else {
                self.reset_election_timer();
            }
        }
    }

    /// Steps down to follower in the newer term `term`, with no vote cast.
    fn become_follower(&mut self, term: u64)
        requires
            old(self)@.wf(),
            term > old(self)@.term(),
        ensures
            final(self)@.wf(),
            monotonic(old(self)@, final(self)@),
            final(self)@.role == StateRole::Follower,
            final(self)@.leader_id is None,
            final(self)@.msgs == old(self)@.msgs,
            final(self)@.log == (StorageView {
                hard_state: HardState { current_term: term, voted_for: None, commit_index: old(self)@.commit() },
                ..old(self)@.log
            }),
            final(self)@.match_index == old(self)@.match_index,
            final(self)@.next_index == old(self)@.next_index,
    {
        let hs = self.storage.initial_state();
        self.storage.save_hard_state(HardState { current_term: term, voted_for: None, commit_index: hs.commit_index });
        self.role = StateRole::Follower;
        self.leader_id = None;
        self.votes = Vec::new();
        self.reset_election_timer();
        proof {
            assert(self@.votes =~= Seq::<u64>::empty());
            lemma_monotonic_refl(old(self)@);
        }
    }

    fn handle_request_vote(&mut self, from: u64, last_log_index: u64, last_log_term: u64)
        requires
            old(self)@.wf(),
        ensures
            final(self)@.wf(),
            monotonic(old(self)@, final(self)@),
            ({
                let g = (old(self)@.voted_for() is None || old(self)@.voted_for() == Some(from))
                    && log_up_to_date(last_log_term, last_log_index, old(self)@.last_term(), old(self)@.log.last_index());
                &&& final(self)@.msgs == old(self)@.msgs.push(MessageView::RequestVoteResponse {
                    from: old(self)@.id,
                    to: from,
                    term: old(self)@.term(),
                    granted: g,
                })
                &&& final(self)@.term() == old(self)@.term()
                &&& final(self)@.role == old(self)@.role
                &&& final(self)@.voted_for() == if g { Some(from) } else { old(self)@.voted_for() }
                &&& final(self)@.log.entries == old(self)@.log.entries
                &&& final(self)@.log.snapshot == old(self)@.log.snapshot
            }),
    {
        let hs = self.storage.initial_state();
        let last = self.storage.last_index();
        let last_term = match self.storage.term(last) {
            Ok(t) => t,
            Err(_) => 0,
        };
        let can_vote = match hs.voted_for {
            None => true,
            Some(v) => v == from,
        };
        let up_to_date = last_log_term > last_term || (last_log_term == last_term && last_log_index >= last);
        let granted = can_vote && up_to_date;
        if granted {
            self.storage.save_hard_state(HardState { voted_for: Some(from), ..hs });
            self.reset_election_timer();
        }
        self.push_msg(Message::RequestVoteResponse { from: self.id, to: from, term: hs.current_term, granted });
        assert(self@.msgs.subrange(0, old(self)@.msgs.len() as int) =~= old(self)@.msgs);
    }

    /// Handles entries from the leader of the node's own term.
    fn handle_append_entries(
        &mut self,
        from: u64,
        prev: u64,
        prev_term: u64,
        entries: Vec<LogEntry>,
        leader_commit: u64,
    )
        requires
            old(self)@.wf(),
            old(self)@.role != StateRole::Leader,
        ensures
            final(self)@.wf(),
            monotonic(old(self)@, final(self)@),
            final(self)@.term() == old(self)@.term(),
            final(self)@.voted_for() == old(self)@.voted_for(),
            final(self)@.role == StateRole::Follower,
            final(self)@.leader_id == Some(from),
            ({
                let ev = entries_view(entries@);
                let ok = append_ok(old(self)@, prev, prev_term, ev);
                &&& final(self)@.msgs == old(self)@.msgs.push(MessageView::AppendEntriesResponse {
                    from: old(self)@.id,
                    to: from,
                    term: old(self)@.term(),
                    success: ok,
                    match_index: if ok { (prev + ev.len()) as u64 } else { old(self)@.log.last_index() as u64 },
                })
                &&& ok ==> final(self)@.log.entries == merged_log(old(self)@.log, prev as int, ev)
                    && final(self)@.log.snapshot == old(self)@.log.snapshot
                    && final(self)@.commit() == follower_commit(old(self)@.commit(), leader_commit, prev + ev.len())
                &&& !ok ==> final(self)@.log == old(self)@.log
            }),
    {
        let ghost s0 = self@;
        let ghost ev = entries_view(entries@);
        self.role = StateRole::Follower;
        self.leader_id = Some(from);
        self.reset_election_timer();
        let hs = self.storage.initial_state();
        let last = self.storage.last_index();
        let snap_idx = self.storage.first_index() - 1;
        let mut ok = prev >= snap_idx && prev <= last && match self.storage.term(prev) {
            Ok(t) => t == prev_term,
            Err(_) => false,
        };
        if ok && entries.len() as u64 >= u64::MAX - prev {
            ok = false;
        }
        if ok {
            let mut i: usize = 0;
            let mut bad = false;
            while i < entries.len() && !bad
                invariant
                    i <= entries.len(),
                    ev == entries_view(entries@),
                    prev + entries.len() < u64::MAX,
                    forall|j: int| 0 <= j < i ==> #[trigger] ev[j].index == prev + 1 + j,
                    bad ==> !contiguous_from(ev, prev + 1),
                decreases entries.len() - i + if bad { 0int } else { 1int },
            {
                if entries[i].index != prev + 1 + i as u64 {
                    assert(ev[i as int].index != prev + 1 + i);
                    bad = true;
                } else {
                    i = i + 1;
                }
            }
            if bad {
                ok = false;
            } else {
                assert(contiguous_from(ev, prev + 1));
            }
        }
        if !ok {
            self.push_msg(Message::AppendEntriesResponse { from: self.id, to: from, term: hs.current_term, success: false, match_index: last });
            assert(self@.msgs.subrange(0, s0.msgs.len() as int) =~= s0.msgs);
            return;
        }
        let n = entries.len();
        let mut k: usize = 0;
        let mut stop = false;
        while k < entries.len() && !stop
            invariant
                self@ == (NodeView { election_elapsed: self@.election_elapsed, randomized_timeout: self@.randomized_timeout, role: StateRole::Follower, leader_id: Some(from), ..s0 }),
                self@.wf(),
                ev == entries_view(entries@),
                n == entries.len(),
                k <= n,
                last == s0.log.last_index(),
                s0.log.snapshot.last_included_index <= prev,
                prev + k <= last,
                prev + n < u64::MAX,
                stop ==> k < n && s0.log.term_at(prev + 1 + k) != Some(ev[k as int].term),
                forall|j: int| 0 <= j < k ==> s0.log.term_at(prev + 1 + j) == Some(#[trigger] ev[j].term),
            decreases n - k + if stop { 0int } else { 1int },
        {
            let idx = prev + 1 + k as u64;
            if idx > last {
                stop = true;
            } else {
                let same = match self.storage.term(idx) {
                    Ok(t) => t == entries[k].term,
                    Err(_) => false,
                };
                if same {
                    k = k + 1;
                } else {
                    stop = true;
                }
            }
        }
        assert(first_conflict(log_part(s0.log), prev as int, ev, k as int));
        proof {
            lemma_first_conflict_unique(log_part(s0.log), prev as int, ev, k as int);
        }
        if k < n && prev + 1 + (k as u64) <= hs.commit_index {
            self.push_msg(Message::AppendEntriesResponse { from: self.id, to: from, term: hs.current_term, success: false, match_index: last });
            assert(self@.msgs.subrange(0, s0.msgs.len() as int) =~= s0.msgs);
            return;
        }
        if k < n {
            let mut entries = entries;
            let rest = entries.split_off(k);
            let ghost rv = entries_view(rest@);
            assert(rv =~= ev.subrange(k as int, n as int));
            assert(rv[0].index == prev + 1 + k);
            assert(contiguous_from(rv, rv[0].index as int));
            let res = self.storage.append(rest);
            assert(res is Ok);
            assert(self@.log.entries == s0.log.after_append(rv));
            assert(self@.log.last_index() == prev + n);
        } else {
            assert(prev + n <= last);
        }
        let end = prev + n as u64;
        let mut commit = hs.commit_index;
        if commit < leader_commit && commit < end {
            commit = if leader_commit <= end { leader_commit } else { end };
        }
        assert(self@.log.wf());
        assert(end <= self@.log.last_index());
        assert(commit <= self@.log.last_index());
        self.storage.save_hard_state(HardState { commit_index: commit, ..hs });
        assert(self@.wf());
        self.push_msg(Message::AppendEntriesResponse { from: self.id, to: from, term: hs.current_term, success: true, match_index: end });
        assert(self@.msgs.subrange(0, s0.msgs.len() as int) =~= s0.msgs);
    }

    /// Counts a vote from `from` in the node's own term.
    fn handle_vote_response(&mut self, from: u64, granted: bool)
        requires
            old(self)@.wf(),
            old(self)@.peers.contains(from),
        ensures
            final(self)@.wf(),
            monotonic(old(self)@, final(self)@),
            final(self)@.term() == old(self)@.term(),
            final(self)@.voted_for() == old(self)@.voted_for(),
            old(self)@.role == StateRole::Candidate && granted && !old(self)@.votes.contains(from) ==> {
                &&& final(self)@.votes == old(self)@.votes.push(from)
                &&& (2 * (old(self)@.votes.len() + 1) > old(self)@.cluster_size()) == (final(self)@.role == StateRole::Leader)
            },
            !(old(self)@.role == StateRole::Candidate && granted && !old(self)@.votes.contains(from)) ==> final(self)@ == old(self)@,
    {
        proof {
            lemma_monotonic_refl(self@);
        }
        if self.role == StateRole::Candidate && granted && !contains_id(&self.votes, from) {
            self.votes.push(from);
            proof {
                assert forall|i: int| 0 <= i < self@.votes.len() implies self@.is_member(#[trigger] self@.votes[i]) by {
                    if i < old(self)@.votes.len() {
                        assert(self@.votes[i] == old(self)@.votes[i]);
                    }
                }
                lemma_monotonic_refl(self@);
            }
            if 2 * (self.votes.len() as u128) > self.peers.len() as u128 + 1 {
                self.become_leader();
            }
        }
    }

    /// Takes a peer's answer to entries it was sent.
    fn handle_append_response(&mut self, from: u64, success: bool, match_index: u64)
        requires
            old(self)@.wf(),
            old(self)@.role == StateRole::Leader,
            old(self)@.peers.contains(from),
        ensures
            final(self)@.wf(),
            monotonic(old(self)@, final(self)@),
            final(self)@.role == StateRole::Leader,
            final(self)@.term() == old(self)@.term(),
            final(self)@.log.entries == old(self)@.log.entries,
            final(self)@.log.snapshot == old(self)@.log.snapshot,
            final(self)@.commit() > old(self)@.commit() ==> final(self)@.committable(final(self)@.commit() as int),
            success && match_index <= old(self)@.log.last_index() ==> forall|n: int|
                final(self)@.commit() < n <= final(self)@.log.last_index() ==> !final(self)@.committable(n),
            success && match_index <= old(self)@.log.last_index() ==> forall|k: int| 0 <= k < old(self)@.peers.len()
                && old(self)@.peers[k] == from ==> #[trigger] final(self)@.match_index[k] == if match_index
                > old(self)@.match_index[k] {
                match_index
            } else {
                old(self)@.match_index[k]
            },
    {
        proof {
            lemma_monotonic_refl(self@);
        }
        let ghost s0 = self@;
        let k = match position_of(&self.peers, from) {
            Some(k) => k,
            None => {
                return;
            },
        };
        proof {
            assert forall|j: int| 0 <= j < s0.peers.len() && s0.peers[j] == from implies j == k by {
                assert(s0.peers.no_duplicates());
            }
        }
        if success {
            let last = self.storage.last_index();
            if match_index > last {
                return;
            }
            if match_index > self.match_index[k] {
                self.match_index.set(k, match_index);
            }
            let m = self.match_index[k];
            self.next_index.set(k, if m < u64::MAX { m + 1 } else { m });
            let ghost s1 = self@;
            self.maybe_commit();
            assert forall|n: int| self@.commit() < n <= self@.log.last_index() implies !self@.committable(n) by {
                assert(self@.log.term_at(n) == s1.log.term_at(n));
                assert(!s1.committable(n));
            }
        } else {
            let cur = self.next_index[k];
            let lowered = if cur > 1 { cur - 1 } else { 1 };
            let hinted = if match_index < lowered { match_index + 1 } else { lowered };
            self.next_index.set(k, hinted);
            self.send_append(k);
            assert(self@.msgs.subrange(0, s0.msgs.len() as int) =~= s0.msgs);
        }
    }

    /// Installs a snapshot sent by the leader of the node's own term.
    fn handle_install_snapshot(&mut self, from: u64, snapshot: Snapshot)
        requires
            old(self)@.wf(),
            old(self)@.role != StateRole::Leader,
        ensures
            final(self)@.wf(),
            monotonic(old(self)@, final(self)@),
            final(self)@.term() == old(self)@.term(),
            final(self)@.voted_for() == old(self)@.voted_for(),
            final(self)@.role == StateRole::Follower,
            final(self)@.leader_id == Some(from),
            old(self)@.commit() < snapshot@.last_included_index < u64::MAX ==> {
                &&& final(self)@.log.snapshot == snapshot@
                &&& final(self)@.log.entries == old(self)@.log.kept_after_snapshot(snapshot@)
                &&& final(self)@.commit() == snapshot@.last_included_index
                &&& final(self)@.msgs == old(self)@.msgs.push(MessageView::AppendEntriesResponse {
                    from: old(self)@.id,
                    to: from,
                    term: old(self)@.term(),
                    success: true,
                    match_index: snapshot@.last_included_index,
                })
            },
            snapshot@.last_included_index <= old(self)@.commit() ==> final(self)@.log == old(self)@.log
                && final(self)@.msgs == old(self)@.msgs.push(MessageView::AppendEntriesResponse {
                from: old(self)@.id,
                to: from,
                term: old(self)@.term(),
                success: true,
                match_index: old(self)@.commit(),
            }),
    {
        let ghost s0 = self@;
        self.role = StateRole::Follower;
        self.leader_id = Some(from);
        self.reset_election_timer();
        let hs = self.storage.initial_state();
        let idx = snapshot.last_included_index;
        if idx <= hs.commit_index {
            self.push_msg(Message::AppendEntriesResponse { from: self.id, to: from, term: hs.current_term, success: true, match_index: hs.commit_index });
            assert(self@.msgs.subrange(0, s0.msgs.len() as int) =~= s0.msgs);
            return;
        }
        if idx == u64::MAX {
            let last = self.storage.last_index();
            self.push_msg(Message::AppendEntriesResponse { from: self.id, to: from, term: hs.current_term, success: false, match_index: last });
            assert(self@.msgs.subrange(0, s0.msgs.len() as int) =~= s0.msgs);
            return;
        }
        let _ = self.storage.save_snapshot(snapshot);
        self.storage.save_hard_state(HardState { commit_index: idx, ..hs });
        self.push_msg(Message::AppendEntriesResponse { from: self.id, to: from, term: hs.current_term, success: true, match_index: idx });
        assert(self@.msgs.subrange(0, s0.msgs.len() as int) =~= s0.msgs);
    }

    /// Takes one message from a peer. A message not addressed to this node,
    /// or not from one of its peers, is refused with `ProtocolViolation`; so
    /// are entries from a second leader of this node's own term. A message of
    /// a newer term first turns the node into a follower of that term; one
    /// of an older term is answered with the node's own term and otherwise
    /// ignored. A snapshot from a second leader of the node's term is
    /// refused like its entries.
    pub fn step(&mut self, msg: Message) -> (r: Result<(), Error>)
        requires
            old(self)@.wf(),
        ensures
            final(self)@.wf(),
            monotonic(old(self)@, final(self)@),
            !(msg@.to() == old(self)@.id && old(self)@.peers.contains(msg@.from())) ==> r == Err::<(), Error>(
                Error::ProtocolViolation,
            ) && final(self)@ == old(self)@,
            msg@.to() == old(self)@.id && old(self)@.peers.contains(msg@.from()) ==> {
                &&& final(self)@.term() == if msg@.term() > old(self)@.term() {
                    msg@.term()
                } else {
                    old(self)@.term()
                }
                &&& msg@.term() < old(self)@.term() ==> {
                    &&& r is Ok
                    &&& final(self)@ == (NodeView { msgs: final(self)@.msgs, ..old(self)@ })
                    &&& !(msg@ is RequestVote) && !(msg@ is AppendEntries) ==> final(self)@.msgs == old(self)@.msgs
                }
                &&& msg@.term() > old(self)@.term() ==> {
                    &&& r is Ok
                    &&& final(self)@.role == StateRole::Follower
                    &&& final(self)@.voted_for() == if msg@ is RequestVote && grants_vote(old(self)@, msg@) {
                        Some(msg@.from())
                    } else {
                        None
                    }
                }
            },
            msg@.to() == old(self)@.id && old(self)@.peers.contains(msg@.from()) ==> match msg@ {
                MessageView::RequestVote { from, term, .. } => {
                    &&& term < old(self)@.term() ==> final(self)@.msgs == old(self)@.msgs.push(
                        MessageView::RequestVoteResponse { from: old(self)@.id, to: from, term: old(self)@.term(), granted: false },
                    )
                    &&& term >= old(self)@.term() ==> {
                        &&& r is Ok
                        &&& final(self)@.msgs == old(self)@.msgs.push(MessageView::RequestVoteResponse {
                            from: old(self)@.id,
                            to: from,
                            term: final(self)@.term(),
                            granted: grants_vote(old(self)@, msg@),
                        })
                        &&& grants_vote(old(self)@, msg@) ==> final(self)@.voted_for() == Some(from)
                        &&& final(self)@.log.entries == old(self)@.log.entries
                    }
                },
                MessageView::AppendEntries { from, term, prev_log_index, entries, leader_commit, .. } => {
                    &&& term < old(self)@.term() ==> final(self)@.msgs == old(self)@.msgs.push(
                        MessageView::AppendEntriesResponse {
                            from: old(self)@.id,
                            to: from,
                            term: old(self)@.term(),
                            success: false,
                            match_index: old(self)@.log.last_index() as u64,
                        },
                    )
                    &&& term == old(self)@.term() && old(self)@.role == StateRole::Leader ==> r == Err::<(), Error>(
                        Error::ProtocolViolation,
                    ) && final(self)@ == old(self)@
                    &&& term >= old(self)@.term() && !(term == old(self)@.term() && old(self)@.role == StateRole::Leader) ==> {
                        &&& r is Ok
                        &&& final(self)@.role == StateRole::Follower
                        &&& final(self)@.leader_id == Some(from)
                        &&& final(self)@.msgs == old(self)@.msgs.push(MessageView::AppendEntriesResponse {
                            from: old(self)@.id,
                            to: from,
                            term: final(self)@.term(),
                            success: accepts_append(old(self)@, msg@),
                            match_index: if accepts_append(old(self)@, msg@) {
                                (prev_log_index + entries.len()) as u64
                            } else {
                                old(self)@.log.last_index() as u64
                            },
                        })
                        &&& accepts_append(old(self)@, msg@) ==> final(self)@.log.entries == merged_log(
                            old(self)@.log,
                            prev_log_index as int,
                            entries,
                        ) && final(self)@.commit() == follower_commit(
                            old(self)@.commit(),
                            leader_commit,
                            prev_log_index + entries.len(),
                        )
                        &&& !accepts_append(old(self)@, msg@) ==> final(self)@.log.entries == old(self)@.log.entries
                            && final(self)@.commit() == old(self)@.commit()
                    }
                },
                MessageView::RequestVoteResponse { from, term, granted, .. } => {
                    term == old(self)@.term() && old(self)@.role == StateRole::Candidate && granted
                        && !old(self)@.votes.contains(from) ==> {
                        &&& final(self)@.votes == old(self)@.votes.push(from)
                        &&& (2 * (old(self)@.votes.len() + 1) > old(self)@.cluster_size()) == (final(self)@.role
                            == StateRole::Leader)
                    }
                },
                MessageView::AppendEntriesResponse { term, success, match_index, .. } => {
                    term == old(self)@.term() && old(self)@.role == StateRole::Leader ==> {
                        &&& final(self)@.role == StateRole::Leader
                        &&& final(self)@.log.entries == old(self)@.log.entries
                        &&& final(self)@.commit() > old(self)@.commit() ==> final(self)@.committable(
                            final(self)@.commit() as int,
                        )
                        &&& success && match_index <= old(self)@.log.last_index() ==> forall|n: int|
                            final(self)@.commit() < n <= final(self)@.log.last_index() ==> !final(self)@.committable(n)
                    }
                },
                _ => true,
            },
    {
        proof {
            lemma_monotonic_refl(self@);
        }
        let ghost s0 = self@;
        let ghost mv = msg@;
        let (from, to, term) = match &msg {
            Message::RequestVote { from, to, term, .. } => (*from, *to, *term),
            Message::RequestVoteResponse { from, to, term, .. } => (*from, *to, *term),
            Message::AppendEntries { from, to, term, .. } => (*from, *to, *term),
            Message::AppendEntriesResponse { from, to, term, .. } => (*from, *to, *term),
            Message::InstallSnapshot { from, to, term, .. } => (*from, *to, *term),
        };
        if to != self.id || !contains_id(&self.peers, from) {
            return Err(Error::ProtocolViolation);
        }
        let current = self.storage.initial_state().current_term;
        if term < current {
            match msg {
                Message::RequestVote { .. } => {
                    self.push_msg(Message::RequestVoteResponse { from: self.id, to: from, term: current, granted: false });
                },
                Message::AppendEntries { .. } => {
                    let last = self.storage.last_index();
                    self.push_msg(Message::AppendEntriesResponse { from: self.id, to: from, term: current, success: false, match_index: last });
                },
                _ => {},
            }
            assert(self@.msgs.subrange(0, s0.msgs.len() as int) =~= s0.msgs);
            return Ok(());
        }
        if term == current && self.role == StateRole::Leader {
            match msg {
                Message::AppendEntries { .. } | Message::InstallSnapshot { .. } => {
                    return Err(Error::ProtocolViolation);
                },
                _ => {},
            }
        }
        if term > current {
            self.become_follower(term);
        }
        let ghost s1 = self@;
        match msg {
            Message::RequestVote { from, last_log_index, last_log_term, .. } => {
                self.handle_request_vote(from, last_log_index, last_log_term);
            },
            Message::RequestVoteResponse { from, granted, .. } => {
                self.handle_vote_response(from, granted);
            },
            Message::AppendEntries { from, prev_log_index, prev_log_term, entries, leader_commit, .. } => {
                self.handle_append_entries(from, prev_log_index, prev_log_term, entries, leader_commit);
            },
            Message::AppendEntriesResponse { from, success, match_index, .. } => {
                if self.role == StateRole::Leader {
                    self.handle_append_response(from, success, match_index);
                }
            },
            Message::InstallSnapshot { from, snapshot, .. } => {
                self.handle_install_snapshot(from, snapshot);
            },
        }
        proof {
            assert(self@.msgs.subrange(0, s0.msgs.len() as int) =~= s0.msgs) by {
                assert forall|j: int| 0 <= j < s0.msgs.len() implies self@.msgs[j] == s0.msgs[j] by {
                    assert(self@.msgs.subrange(0, s1.msgs.len() as int)[j] == s1.msgs[j]);
                }
            }
        }
        Ok(())
    }

    /// Compacts the log: the entries up to `index`, which must be committed,
    /// give way to a snapshot that holds `state`, the registry as of that
    /// index. `OutOfRange` past the commit index; `Compacted` at or below
    /// the current snapshot.
    pub fn compact(&mut self, index: u64, state: Vec<Service>) -> (r: Result<(), Error>)
        requires
            old(self)@.wf(),
        ensures
            final(self)@.wf(),
            monotonic(old(self)@, final(self)@),
            index > old(self)@.commit() ==> r == Err::<(), Error>(Error::OutOfRange) && final(self)@ == old(self)@,
            index <= old(self)@.log.snapshot.last_included_index ==> r == Err::<(), Error>(Error::Compacted)
                && final(self)@ == old(self)@,
            old(self)@.log.snapshot.last_included_index < index <= old(self)@.commit() ==> {
                &&& r is Ok
                &&& final(self)@ == (NodeView {
                    log: StorageView {
                        snapshot: SnapshotView {
                            last_included_index: index,
                            last_included_term: old(self)@.log.term_at(index as int)->Some_0,
                            state: services_view(state@),
                        },
                        entries: old(self)@.log.entries.subrange(
                            index - old(self)@.log.snapshot.last_included_index,
                            old(self)@.log.entries.len() as int,
                        ),
                        ..old(self)@.log
                    },
                    ..old(self)@
                })
            },
    {
        proof {
            lemma_monotonic_refl(self@);
        }
        let hs = self.storage.initial_state();
        if index > hs.commit_index {
            return Err(Error::OutOfRange);
        }
        if index < self.storage.first_index() {
            return Err(Error::Compacted);
        }
        let term = match self.storage.term(index) {
            Ok(t) => t,
            Err(e) => {
                return Err(e);
            },
        };
        let ghost s0 = self@;
        let _ = self.storage.save_snapshot(Snapshot { last_included_index: index, last_included_term: term, state });
        assert(self@ =~= (NodeView {
            log: StorageView {
                snapshot: self@.log.snapshot,
                entries: s0.log.entries.subrange(index - s0.log.snapshot.last_included_index, s0.log.entries.len() as int),
                ..s0.log
            },
            ..s0
        }));
        proof {
            lemma_monotonic_refl(self@);
        }
        Ok(())
    }
}

} // verus!
