use vstd::prelude::*;

use crate::crypto::fresh_session_id;
use crate::crypto::fresh_uuid_u128;
use crate::crypto::now_millis;
use crate::error::BlockDBError;
use crate::transaction::Operation;

verus! {

broadcast use vstd::seq_lib::group_seq_properties;

/// A node's identity in the cluster.
#[derive(Clone, Debug, PartialEq, Eq, Hash)]
pub struct NodeId(pub String);

impl NodeId {
    /// A fresh random node identity.
    pub fn new() -> Self {
        NodeId(fresh_session_id())
    }

    /// A node identity from its name.
    pub fn from_string(s: String) -> (r: Self)
        ensures
            r.0@ == s@,
    {
        NodeId(s)
    }

    /// A copy of the identity.
    pub fn duplicate(&self) -> (r: Self)
        ensures
            r == *self,
    {
        NodeId(self.0.clone())
    }
}

/// Where a node listens.
#[derive(Clone, Debug)]
pub struct NodeAddress {
    pub host: String,
    pub port: u16,
}

impl NodeAddress {
    /// An address from host and port.
    pub fn new(host: String, port: u16) -> (r: Self)
        ensures
            r.host@ == host@,
            r.port == port,
    {
        NodeAddress { host, port }
    }

    /// The address rendered as an HTTP URL: scheme, host, a colon and the
    /// decimal port.
    pub fn to_url(&self) -> (r: String)
        ensures
            r@ == "http://"@ + self.host@ + ":"@ + spec_decimal(self.port as int),
    {
        format_http_url(self.host.as_str(), self.port)
    }
}

/// One decimal digit as a character.
pub open spec fn spec_digit(d: int) -> char {
    ((d + 48) as u8) as char
}

/// The decimal digits of a non-negative integer, most significant first and
/// without leading zeroes.
pub open spec fn spec_decimal(n: int) -> Seq<char>
    decreases n,
{
    if n < 10 {
        seq![spec_digit(n)]
    } else {
        spec_decimal(n / 10).push(spec_digit(n % 10))
    }
}

/// Relies on the format macro of std: `{}` inserts a string unchanged and
/// renders an integer as its decimal digits, so the result is
/// `http://host:port`.
#[verifier::external_body]
fn format_http_url(host: &str, port: u16) -> (r: String)
    ensures
        r@ == "http://"@ + host@ + ":"@ + spec_decimal(port as int),
{
    format!("http://{}:{}", host, port)
}

/// The cluster as one node sees it: itself, its peers, and the timer
/// settings in milliseconds.
#[derive(Clone, Debug)]
pub struct ClusterConfig {
    pub node_id: NodeId,
    pub address: NodeAddress,
    pub peers: Vec<(NodeId, NodeAddress)>,
    pub heartbeat_interval_ms: u64,
    pub election_timeout_ms: u64,
}

impl ClusterConfig {
    /// Each peer is listed once.
    pub open spec fn wf(&self) -> bool {
        forall|i: int, j: int|
            0 <= i < j < self.peers@.len() ==> (#[trigger] self.peers@[i]).0.0@ != (
            #[trigger] self.peers@[j]).0.0@
    }

    /// A single-node cluster with the stock timers.
    pub fn new(node_id: NodeId, address: NodeAddress) -> (r: Self)
        ensures
            r.wf(),
            r.peers@.len() == 0,
            r.node_id == node_id,
            r.address == address,
            r.heartbeat_interval_ms == 150,
            r.election_timeout_ms == 300,
    {
        ClusterConfig {
            node_id,
            address,
            peers: Vec::new(),
            heartbeat_interval_ms: 150,
            election_timeout_ms: 300,
        }
    }

    /// Adds a peer: a previous entry under the same identity is overwritten
    /// with the new address, otherwise the peer is appended; nothing else
    /// changes.
    pub fn add_peer(&mut self, node_id: NodeId, address: NodeAddress)
        requires
            old(self).wf(),
        ensures
            final(self).wf(),
            final(self).node_id == old(self).node_id,
            final(self).address == old(self).address,
            final(self).heartbeat_interval_ms == old(self).heartbeat_interval_ms,
            final(self).election_timeout_ms == old(self).election_timeout_ms,
            (exists|i: int|
                0 <= i < old(self).peers@.len() && (#[trigger] old(self).peers@[i]).0.0@
                    == node_id.0@) ==> {
                &&& final(self).peers@.len() == old(self).peers@.len()
                &&& exists|i: int|
                    0 <= i < final(self).peers@.len() && (#[trigger] old(self).peers@[i]).0.0@
                        == node_id.0@ && final(self).peers@[i].0.0@ == node_id.0@ && final(self).peers@[i].1.host@ == address.host@ && final(self).peers@[i].1.port
                        == address.port && (forall|j: int|
                        0 <= j < old(self).peers@.len() && j != i ==> final(self).peers@[j]
                            == old(self).peers@[j])
            },
            !(exists|i: int|
                0 <= i < old(self).peers@.len() && (#[trigger] old(self).peers@[i]).0.0@
                    == node_id.0@) ==> {
                &&& final(self).peers@.len() == old(self).peers@.len() + 1
                &&& final(self).peers@.take(old(self).peers@.len() as int) == old(self).peers@
                &&& final(self).peers@.last().0.0@ == node_id.0@
                &&& final(self).peers@.last().1.host@ == address.host@
                &&& final(self).peers@.last().1.port == address.port
            },
    {
        let ghost pre = self.peers@;
        let mut i: usize = 0;
        let n = self.peers.len();
        while i < n
            invariant
                *self == *old(self),
                old(self).wf(),
                pre == old(self).peers@,
                n == self.peers@.len(),
                0 <= i <= n,
                forall|j: int| 0 <= j < i ==> (#[trigger] self.peers@[j]).0.0@ != node_id.0@,
            decreases n - i,
        {
            if self.peers[i].0.0.eq(&node_id.0) {
                let ghost nid = node_id.0@;
                self.peers.set(i, (node_id, address));
                proof {
                    assert(self.peers@[i as int].0.0@ == nid);
                    assert(self.peers@[i as int].0.0@ == pre[i as int].0.0@);
                    assert(pre[i as int].0.0@ == nid);
                    assert forall|j: int|
                        0 <= j < pre.len() && j != i implies self.peers@[j] == pre[j] by {}
                    assert forall|a: int, b: int|
                        0 <= a < b < self.peers@.len() implies (#[trigger] self.peers@[a]).0.0@
                        != (#[trigger] self.peers@[b]).0.0@ by {
                        assert(self.peers@[a].0.0@ == pre[a].0.0@) by {
                            if a != i {
                                assert(self.peers@[a] == pre[a]);
                            }
                        }
                        assert(self.peers@[b].0.0@ == pre[b].0.0@) by {
                            if b != i {
                                assert(self.peers@[b] == pre[b]);
                            }
                        }
                        assert(pre[a].0.0@ != pre[b].0.0@);
                    }
                }
                return;
            }
            i += 1;
        }
        let ghost nid = node_id.0@;
        self.peers.push((node_id, address));
        proof {
            let n2 = self.peers@.len() - 1;
            assert(self.peers@[n2].0.0@ == nid);
            assert(self.peers@.take(pre.len() as int) =~= pre);
            assert(self.peers@.last() == self.peers@[n2]);
            assert forall|a: int, b: int|
                0 <= a < b < self.peers@.len() implies (#[trigger] self.peers@[a]).0.0@ != (
            #[trigger] self.peers@[b]).0.0@ by {
                if b < n2 {
                    assert(pre[a].0.0@ != pre[b].0.0@);
                } else {
                    assert(pre[a].0.0@ != self.peers@[n2].0.0@);
                }
            }
        }
    }

    /// The cluster size: this node plus its peers.
    pub fn cluster_size(&self) -> (r: usize)
        requires
            self.peers@.len() < usize::MAX,
        ensures
            r == self.peers@.len() + 1,
    {
        self.peers.len() + 1
    }

    /// The majority threshold: more than half the cluster.
    pub fn majority(&self) -> (r: usize)
        requires
            self.peers@.len() < usize::MAX,
        ensures
            r == (self.peers@.len() + 1) / 2 + 1,
            2 * r > self.peers@.len() + 1,
    {
        (self.peers.len() + 1) / 2 + 1
    }
}

/// A node's role in its current term.
#[derive(Clone, Copy, Debug, PartialEq, Eq, Structural)]
pub enum RaftState {
    Follower,
    Candidate,
    Leader,
}

/// A monotonically increasing election epoch.
#[derive(Clone, Copy, Debug, PartialEq, Eq, Structural, Hash)]
pub struct Term(pub u64);

impl Term {
    /// Term zero.
    pub fn new() -> (r: Self)
        ensures
            r.0 == 0,
    {
        Term(0)
    }

    /// Moves one term forward.
    pub fn increment(&mut self)
        requires
            old(self).0 < u64::MAX,
        ensures
            final(self).0 == old(self).0 + 1,
    {
        self.0 = self.0 + 1;
    }

    /// Adopts a newer term; says whether anything changed.
    pub fn update(&mut self, other: &Term) -> (r: bool)
        ensures
            r == (other.0 > old(self).0),
            r ==> final(self).0 == other.0,
            !r ==> *final(self) == *old(self),
    {
        if other.0 > self.0 {
            self.0 = other.0;
            true
        } else {
            false
        }
    }
}

/// An operation carried by the replicated log.
#[derive(Clone, Debug)]
pub enum LogOperation {
    Put { key: Vec<u8>, value: Vec<u8> },
    BeginTransaction { transaction_id: u128 },
    CommitTransaction { transaction_id: u128 },
    AbortTransaction { transaction_id: u128 },
    AddNode { node_id: NodeId, address: NodeAddress },
    RemoveNode { node_id: NodeId },
    NoOp,
}

impl LogOperation {
    /// Whether the operation changes nothing.
    pub fn is_read_only(&self) -> (r: bool)
        ensures
            r == matches!(*self, LogOperation::NoOp),
    {
        matches!(self, LogOperation::NoOp)
    }

    /// Whether the operation must be agreed by the cluster.
    pub fn requires_consensus(&self) -> (r: bool)
        ensures
            r == !matches!(*self, LogOperation::NoOp),
    {
        !self.is_read_only()
    }
}

/// The mathematical content of a log operation: byte payloads as sequences.
pub enum LogOpData {
    Put { key: Seq<u8>, value: Seq<u8> },
    BeginTransaction { transaction_id: u128 },
    CommitTransaction { transaction_id: u128 },
    AbortTransaction { transaction_id: u128 },
    AddNode { node_id: String, host: String, port: u16 },
    RemoveNode { node_id: String },
    NoOp,
}

/// The content of a log operation.
pub open spec fn op_view(op: LogOperation) -> LogOpData {
    match op {
        LogOperation::Put { key, value } => LogOpData::Put { key: key@, value: value@ },
        LogOperation::BeginTransaction { transaction_id } => LogOpData::BeginTransaction {
            transaction_id,
        },
        LogOperation::CommitTransaction { transaction_id } => LogOpData::CommitTransaction {
            transaction_id,
        },
        LogOperation::AbortTransaction { transaction_id } => LogOpData::AbortTransaction {
            transaction_id,
        },
        LogOperation::AddNode { node_id, address } => LogOpData::AddNode {
            node_id: node_id.0,
            host: address.host,
            port: address.port,
        },
        LogOperation::RemoveNode { node_id } => LogOpData::RemoveNode { node_id: node_id.0 },
        LogOperation::NoOp => LogOpData::NoOp,
    }
}

/// The mathematical content of a log entry.
pub struct LogEntryData {
    pub index: u64,
    pub term: Term,
    pub operation: LogOpData,
    pub timestamp: u64,
    pub request_id: u128,
}

/// One entry of the replicated log: its one-based position, the term it was
/// proposed in, and the operation.
#[derive(Clone, Debug)]
pub struct LogEntry {
    pub index: u64,
    pub term: Term,
    pub operation: LogOperation,
    pub timestamp: u64,
    pub request_id: u128,
}

impl View for LogEntry {
    type V = LogEntryData;

    open spec fn view(&self) -> LogEntryData {
        LogEntryData {
            index: self.index,
            term: self.term,
            operation: op_view(self.operation),
            timestamp: self.timestamp,
            request_id: self.request_id,
        }
    }
}

impl LogEntry {
    /// An entry stamped with the current clock time.
    pub fn new(index: u64, term: Term, operation: LogOperation, request_id: u128) -> (r: Self)
        ensures
            r.index == index,
            r.term == term,
            r.operation == operation,
            r.request_id == request_id,
    {
        LogEntry { index, term, operation, timestamp: now_millis(), request_id }
    }

    /// A copy of the entry: the same content, field for field.
    pub fn duplicate(&self) -> (r: Self)
        ensures
            r@ == self@,
            r.index == self.index,
            r.term == self.term,
            r.timestamp == self.timestamp,
            r.request_id == self.request_id,
    {
        let operation = match &self.operation {
            LogOperation::Put { key, value } => {
                let k2 = key.clone();
                let v2 = value.clone();
                proof {
                    assert(k2@ =~= key@);
                    assert(v2@ =~= value@);
                }
                LogOperation::Put { key: k2, value: v2 }
            },
            LogOperation::BeginTransaction { transaction_id } => LogOperation::BeginTransaction {
                transaction_id: *transaction_id,
            },
            LogOperation::CommitTransaction { transaction_id } => LogOperation::CommitTransaction {
                transaction_id: *transaction_id,
            },
            LogOperation::AbortTransaction { transaction_id } => LogOperation::AbortTransaction {
                transaction_id: *transaction_id,
            },
            LogOperation::AddNode { node_id, address } => LogOperation::AddNode {
                node_id: node_id.duplicate(),
                address: NodeAddress { host: address.host.clone(), port: address.port },
            },
            LogOperation::RemoveNode { node_id } => LogOperation::RemoveNode {
                node_id: node_id.duplicate(),
            },
            LogOperation::NoOp => LogOperation::NoOp,
        };
        let r = LogEntry {
            index: self.index,
            term: self.term,
            operation,
            timestamp: self.timestamp,
            request_id: self.request_id,
        };
        proof {
            assert(op_view(r.operation) == op_view(self.operation));
        }
        r
    }
}

/// A message of the consensus wire protocol.
#[derive(Clone, Debug)]
pub enum ConsensusMessage {
    RequestVote { term: Term, candidate_id: NodeId, last_log_index: u64, last_log_term: Term },
    RequestVoteResponse { term: Term, vote_granted: bool },
    AppendEntries {
        term: Term,
        leader_id: NodeId,
        prev_log_index: u64,
        prev_log_term: Term,
        entries: Vec<LogEntry>,
        leader_commit: u64,
    },
    AppendEntriesResponse { term: Term, success: bool, match_index: u64 },
    ClientRequest { operation: Operation, request_id: u128 },
    ClientResponse { request_id: u128, success: bool, error: Option<String> },
}

/// The volatile election state of one node.
#[derive(Clone, Debug)]
pub struct ConsensusState {
    pub state: RaftState,
    pub current_term: Term,
    pub voted_for: Option<NodeId>,
    pub last_heartbeat_ms: u64,
    pub leader_id: Option<NodeId>,
}

impl ConsensusState {
    /// A fresh follower at term zero, stamped with the current clock time.
    pub fn new() -> (r: Self)
        ensures
            r.state == RaftState::Follower,
            r.current_term.0 == 0,
            r.voted_for is None,
            r.leader_id is None,
    {
        ConsensusState {
            state: RaftState::Follower,
            current_term: Term::new(),
            voted_for: None,
            last_heartbeat_ms: now_millis(),
            leader_id: None,
        }
    }

    /// Steps down to follower in the given term, forgetting any vote.
    pub fn become_follower(&mut self, term: Term, leader_id: Option<NodeId>)
        ensures
            final(self).state == RaftState::Follower,
            final(self).current_term == term,
            final(self).voted_for is None,
            final(self).leader_id == leader_id,
    {
        self.state = RaftState::Follower;
        self.current_term = term;
        self.voted_for = None;
        self.leader_id = leader_id;
        self.last_heartbeat_ms = now_millis();
    }

    /// Starts a candidacy: the node moves to the next term as a candidate
    /// and records its vote for itself, the caller's own identifier.
    pub fn become_candidate(&mut self, self_id: NodeId)
        requires
            old(self).current_term.0 < u64::MAX,
        ensures
            final(self).state == RaftState::Candidate,
            final(self).current_term.0 == old(self).current_term.0 + 1,
            final(self).leader_id is None,
            final(self).voted_for == Some(self_id),
    {
        self.state = RaftState::Candidate;
        self.current_term.increment();
        self.voted_for = Some(self_id);
        self.leader_id = None;
        self.last_heartbeat_ms = now_millis();
    }

    /// Takes leadership of the current term.
    pub fn become_leader(&mut self, node_id: NodeId)
        ensures
            final(self).state == RaftState::Leader,
            final(self).current_term == old(self).current_term,
            (final(self).leader_id matches Some(id) && id.0@ == node_id.0@),
            final(self).voted_for is None,
    {
        self.state = RaftState::Leader;
        self.leader_id = Some(node_id);
        self.voted_for = None;
        self.last_heartbeat_ms = now_millis();
    }

    /// Whether no heartbeat arrived within the timeout, judged at `now`.
    /// The timeout is the caller's; a deployment should randomize it around
    /// `election_timeout_ms` so that candidates do not tie repeatedly.
    pub fn is_election_timeout_at(&self, now: u64, timeout_ms: u64) -> (r: bool)
        ensures
            r == (now > self.last_heartbeat_ms && now - self.last_heartbeat_ms > timeout_ms),
    {
        now > self.last_heartbeat_ms && now - self.last_heartbeat_ms > timeout_ms
    }

    /// Whether no heartbeat arrived within the timeout, by the clock.
    pub fn is_election_timeout(&self, timeout_ms: u64) -> bool {
        let now = now_millis();
        self.is_election_timeout_at(now, timeout_ms)
    }
}

/// The durable replicated log with its commit and apply cursors.
#[derive(Debug)]
pub struct ReplicatedLog {
    entries: Vec<LogEntry>,
    commit_index: u64,
    last_applied: u64,
}

impl ReplicatedLog {
    /// The entries, one-based entry `i + 1` at position `i`.
    pub closed spec fn view(&self) -> Seq<LogEntry> {
        self.entries@
    }

    /// The commit cursor.
    pub closed spec fn spec_commit_index(&self) -> u64 {
        self.commit_index
    }

    /// The apply cursor.
    pub closed spec fn spec_last_applied(&self) -> u64 {
        self.last_applied
    }

    /// Entries carry their one-based positions; the apply cursor never runs
    /// ahead of the commit cursor, which never runs past the end.
    pub closed spec fn wf(&self) -> bool {
        &&& forall|i: int| 0 <= i < self.entries@.len() ==> (#[trigger] self.entries@[i]).index
            == i + 1
        &&& self.last_applied <= self.commit_index <= self.entries@.len()
    }

    /// An empty log.
    pub fn new() -> (r: Self)
        ensures
            r.wf(),
            r.view().len() == 0,
            r.spec_commit_index() == 0,
            r.spec_last_applied() == 0,
    {
        ReplicatedLog { entries: Vec::new(), commit_index: 0, last_applied: 0 }
    }

    /// Appends the leader's next entry; its index must be one past the end.
    pub fn append(&mut self, entry: LogEntry)
        requires
            old(self).wf(),
            entry.index == old(self).view().len() + 1,
        ensures
            final(self).wf(),
            final(self).view() == old(self).view().push(entry),
            final(self).spec_commit_index() == old(self).spec_commit_index(),
            final(self).spec_last_applied() == old(self).spec_last_applied(),
    {
        self.entries.push(entry);
    }

    /// A follower accepts entries after `prev_log_index`: anything beyond
    /// that point is cut away and the new entries are appended, provided
    /// they carry consecutive indices from there; a gap refuses the call.
    pub fn append_entries(&mut self, prev_log_index: u64, entries: Vec<LogEntry>) -> (r: bool)
        requires
            old(self).wf(),
            old(self).spec_commit_index() <= prev_log_index,
        ensures
            final(self).wf(),
            r <==> prev_log_index <= old(self).view().len() && (forall|k: int|
                0 <= k < entries@.len() ==> (#[trigger] entries@[k]).index == prev_log_index + k
                    + 1),
            !r ==> *final(self) == *old(self),
            r ==> final(self).view().len() == prev_log_index + entries@.len(),
            r ==> final(self).view().take(prev_log_index as int) == old(self).view().take(
                prev_log_index as int,
            ),
            r ==> forall|k: int|
                0 <= k < entries@.len() ==> (#[trigger] final(self).view()[prev_log_index + k])@
                    == entries@[k]@,
            final(self).spec_commit_index() == old(self).spec_commit_index(),
            final(self).spec_last_applied() == old(self).spec_last_applied(),
    {
        if prev_log_index > self.entries.len() as u64 {
            return false;
        }
        let mut k: usize = 0;
        while k < entries.len()
            invariant
                *self == *old(self),
                old(self).wf(),
                old(self).spec_commit_index() <= prev_log_index,
                0 <= k <= entries@.len(),
                prev_log_index <= old(self).view().len(),
                forall|j: int|
                    0 <= j < k ==> (#[trigger] entries@[j]).index == prev_log_index + j + 1,
            decreases entries@.len() - k,
        {
            let e_index = entries[k].index;
            if e_index <= prev_log_index {
                proof {
                    assert(entries@[k as int].index != prev_log_index + k + 1);
                }
                return false;
            }
            if e_index - prev_log_index != 1 + (k as u64) {
                proof {
                    assert(entries@[k as int].index != prev_log_index + k + 1);
                }
                return false;
            }
            proof {
                assert(entries@[k as int].index == prev_log_index + k + 1);
            }
            k += 1;
        }
        let ghost pre = self.entries@;
        self.entries.truncate(prev_log_index as usize);
        proof {
            assert(self.entries@ =~= pre.take(prev_log_index as int));
        }
        let mut a: usize = 0;
        while a < entries.len()
            invariant
                0 <= a <= entries@.len(),
                pre.take(prev_log_index as int) == old(self).view().take(prev_log_index as int),
                self.entries@.len() == prev_log_index + a,
                self.entries@.take(prev_log_index as int) == pre.take(prev_log_index as int),
                forall|j: int|
                    0 <= j < a ==> (#[trigger] self.entries@[prev_log_index + j])@ == entries@[
                        j]@,
                forall|j: int|
                    0 <= j < entries@.len() ==> (#[trigger] entries@[j]).index == prev_log_index
                        + j + 1,
                forall|i: int|
                    0 <= i < prev_log_index ==> (#[trigger] self.entries@[i]).index == i + 1,
                self.commit_index == old(self).spec_commit_index(),
                self.last_applied == old(self).spec_last_applied(),
                self.last_applied <= self.commit_index <= prev_log_index,
            decreases entries@.len() - a,
        {
            self.entries.push(entries[a].duplicate());
            proof {
                assert(self.entries@.take(prev_log_index as int) =~= pre.take(
                    prev_log_index as int,
                ));
            }
            a += 1;
        }
        proof {
            assert forall|i: int| 0 <= i < self.entries@.len() implies (
            #[trigger] self.entries@[i]).index == i + 1 by {
                if i >= prev_log_index {
                    assert(self.entries@[i]@ == entries@[i - prev_log_index]@);
                }
            }
        }
        true
    }

    /// The entry at a one-based index.
    pub fn get_entry(&self, index: u64) -> (r: Option<&LogEntry>)
        requires
            self.wf(),
        ensures
            r is Some <==> 1 <= index <= self.view().len(),
            r matches Some(e) ==> *e == self.view()[index - 1],
    {
        if index == 0 || index > self.entries.len() as u64 {
            None
        } else {
            proof {
                assert(index - 1 <= usize::MAX);
            }
            Some(&self.entries[(index - 1) as usize])
        }
    }

    /// The index of the last entry, or zero.
    pub fn last_log_index(&self) -> (r: u64)
        requires
            self.wf(),
        ensures
            r == self.view().len(),
    {
        self.entries.len() as u64
    }

    /// The term of the last entry, or term zero.
    pub fn last_log_term(&self) -> (r: Term)
        requires
            self.wf(),
        ensures
            self.view().len() == 0 ==> r.0 == 0,
            self.view().len() > 0 ==> r == self.view().last().term,
    {
        if self.entries.len() > 0 {
            self.entries[self.entries.len() - 1].term
        } else {
            Term::new()
        }
    }

    /// The term of the entry at a one-based index.
    pub fn get_term(&self, index: u64) -> (r: Option<Term>)
        requires
            self.wf(),
        ensures
            r is Some <==> 1 <= index <= self.view().len(),
            r matches Some(t) ==> t == self.view()[index - 1].term,
    {
        match self.get_entry(index) {
            Some(e) => Some(e.term),
            None => None,
        }
    }

    /// Moves the commit cursor forward, never past the end and never
    /// backwards.
    pub fn update_commit_index(&mut self, new_commit_index: u64)
        requires
            old(self).wf(),
        ensures
            final(self).wf(),
            final(self).view() == old(self).view(),
            final(self).spec_last_applied() == old(self).spec_last_applied(),
            final(self).spec_commit_index() == if new_commit_index > old(self).spec_commit_index() && new_commit_index <= old(self).view().len() {
                new_commit_index
            } else {
                old(self).spec_commit_index()
            },
    {
        if new_commit_index > self.commit_index && new_commit_index <= self.entries.len() as u64 {
            self.commit_index = new_commit_index;
        }
    }

    /// The commit cursor.
    pub fn get_commit_index(&self) -> (r: u64)
        ensures
            r == self.spec_commit_index(),
    {
        self.commit_index
    }

    /// The apply cursor.
    pub fn get_last_applied(&self) -> (r: u64)
        ensures
            r == self.spec_last_applied(),
    {
        self.last_applied
    }

    /// The entries from a one-based index to the end.
    pub fn get_entries_from(&self, start_index: u64) -> (r: Vec<LogEntry>)
        requires
            self.wf(),
        ensures
            start_index == 0 || start_index > self.view().len() ==> r@.len() == 0,
            1 <= start_index <= self.view().len() ==> {
                &&& r@.len() == self.view().len() - start_index + 1
                &&& forall|j: int|
                    0 <= j < r@.len() ==> (#[trigger] r@[j])@ == self.view()[start_index - 1
                        + j]@
            },
    {
        let mut r: Vec<LogEntry> = Vec::new();
        if start_index == 0 || start_index > self.entries.len() as u64 {
            return r;
        }
        let mut i: usize = (start_index - 1) as usize;
        while i < self.entries.len()
            invariant
                self.wf(),
                1 <= start_index <= self.view().len(),
                start_index - 1 <= i <= self.view().len(),
                r@.len() == i - (start_index - 1),
                forall|j: int|
                    0 <= j < r@.len() ==> (#[trigger] r@[j])@ == self.view()[start_index - 1
                        + j]@,
            decreases self.view().len() - i,
        {
            r.push(self.entries[i].duplicate());
            i += 1;
        }
        r
    }

    /// Applies committed entries in order, moving the apply cursor up to the
    /// given index (bounded by the commit cursor), and hands back the
    /// applied entries.
    pub fn apply_up_to(&mut self, index: u64) -> (r: Vec<LogEntry>)
        requires
            old(self).wf(),
        ensures
            final(self).wf(),
            final(self).view() == old(self).view(),
            final(self).spec_commit_index() == old(self).spec_commit_index(),
            final(self).spec_last_applied() == if index <= old(self).spec_commit_index() {
                if index >= old(self).spec_last_applied() {
                    index
                } else {
                    old(self).spec_last_applied()
                }
            } else {
                old(self).spec_commit_index()
            },
            r@.len() == final(self).spec_last_applied() - old(self).spec_last_applied(),
            forall|j: int|
                0 <= j < r@.len() ==> (#[trigger] r@[j])@ == old(self).view()[old(self).spec_last_applied() + j]@ && r@[j].index == old(self).spec_last_applied() + j
                    + 1,
    {
        let mut r: Vec<LogEntry> = Vec::new();
        while self.last_applied < index && self.last_applied < self.commit_index
            invariant
                self.wf(),
                self.entries@ == old(self).view(),
                self.commit_index == old(self).spec_commit_index(),
                self.last_applied >= old(self).spec_last_applied(),
                self.last_applied <= index || self.last_applied == old(self).spec_last_applied(),
                self.last_applied <= self.commit_index,
                r@.len() == self.last_applied - old(self).spec_last_applied(),
                forall|j: int|
                    0 <= j < r@.len() ==> (#[trigger] r@[j])@ == old(self).view()[old(self).spec_last_applied() + j]@ && r@[j].index == old(self).spec_last_applied() + j + 1,
            decreases self.commit_index - self.last_applied,
        {
            self.last_applied = self.last_applied + 1;
            let total = self.entries.len();
            proof {
                assert(self.entries@.len() == total);
                assert(self.last_applied <= total);
                assert(self.last_applied - 1 <= usize::MAX);
            }
            let pos = (self.last_applied - 1) as usize;
            proof {
                assert(pos == self.last_applied - 1);
            }
            r.push(self.entries[pos].duplicate());
            proof {
                assert(self.entries@[pos as int].index == pos + 1);
                assert(r@[r@.len() - 1]@ == old(self).view()[pos as int]@);
                assert(r@[r@.len() - 1].index == old(self).spec_last_applied() + r@.len());
            }
        }
        r
    }

    /// Marks entries applied up to an index already committed.
    pub fn mark_applied(&mut self, index: u64)
        requires
            old(self).wf(),
        ensures
            final(self).wf(),
            final(self).view() == old(self).view(),
            final(self).spec_commit_index() == old(self).spec_commit_index(),
            final(self).spec_last_applied() == if index > old(self).spec_last_applied() && index
                <= old(self).spec_commit_index() {
                index
            } else {
                old(self).spec_last_applied()
            },
    {
        if index > self.last_applied && index <= self.commit_index {
            self.last_applied = index;
        }
    }

    /// The vote rule: a candidate's log is at least as current as ours when
    /// its last term is newer, or equal with a log at least as long.
    pub fn is_up_to_date(&self, last_log_index: u64, last_log_term: &Term) -> (r: bool)
        requires
            self.wf(),
        ensures
            r == {
                let our_term: u64 = if self.view().len() == 0 {
                    0
                } else {
                    self.view().last().term.0
                };
                last_log_term.0 > our_term || (last_log_term.0 == our_term && last_log_index
                    >= self.view().len())
            },
    {
        let our_last_term = self.last_log_term();
        let our_last_index = self.last_log_index();
        last_log_term.0 > our_last_term.0 || (last_log_term.0 == our_last_term.0 && last_log_index
            >= our_last_index)
    }
}

/// The vote rule over a log: the candidate's last term is newer, or equal
/// with a log at least as long.
pub open spec fn spec_up_to_date(lg: Seq<LogEntry>, last_log_index: u64, last_log_term: Term) -> bool {
    let our: u64 = if lg.len() == 0 {
        0
    } else {
        lg.last().term.0
    };
    last_log_term.0 > our || (last_log_term.0 == our && last_log_index >= lg.len())
}

/// Whether a voter is already counted.
pub open spec fn votes_contains(s: Seq<NodeId>, id: Seq<char>) -> bool {
    exists|i: int| 0 <= i < s.len() && (#[trigger] s[i]).0@ == id
}

/// Whether a follower accepts an append: the term is current, the previous
/// entry matches, the splice point is not behind the commit cursor, and the
/// entries carry consecutive indices from there. The commit-cursor guard is
/// deliberate and stricter than plain Raft: a splice below the commit index
/// could rewrite committed entries, so such an append is refused rather than
/// applied.
pub open spec fn spec_append_accepted(
    node: RaftNode,
    term: Term,
    prev_log_index: u64,
    prev_log_term: Term,
    entries: Seq<LogEntry>,
) -> bool {
    &&& term.0 >= node.state.current_term.0
    &&& (prev_log_index == 0 || (prev_log_index <= node.log.view().len() && node.log.view()[
        prev_log_index - 1].term.0 == prev_log_term.0))
    &&& prev_log_index >= node.log.spec_commit_index()
    &&& forall|k: int|
        0 <= k < entries.len() ==> (#[trigger] entries[k]).index == prev_log_index + k + 1
}

/// Whether a next-index entry is tracked for a peer.
pub open spec fn spec_has_next(s: Seq<(NodeId, u64)>, id: Seq<char>) -> bool {
    exists|i: int| 0 <= i < s.len() && (#[trigger] s[i]).0.0@ == id
}

/// The first tracked next-index entry of a peer.
pub open spec fn spec_next_entry(s: Seq<(NodeId, u64)>, id: Seq<char>) -> u64 {
    s[choose|i: int|
        0 <= i < s.len() && s[i].0.0@ == id && (forall|j: int| 0 <= j < i ==> s[j].0.0@ != id)].1
}

/// The next index used when replicating to a peer: the tracked one, or one
/// past this log's end.
pub open spec fn spec_next_index(node: RaftNode, id: Seq<char>) -> u64 {
    if spec_has_next(node.next_index@, id) {
        spec_next_entry(node.next_index@, id)
    } else if node.log.view().len() < u64::MAX {
        (node.log.view().len() + 1) as u64
    } else {
        u64::MAX
    }
}

/// What a leader sends one peer: an append message carrying the current
/// term, the leader's identity and commit cursor, the previous entry at the
/// peer's splice point, and every entry from the peer's next index on.
pub open spec fn spec_replication_msg(
    node: RaftNode,
    peer: NodeId,
    m: (NodeId, ConsensusMessage),
) -> bool {
    let next = spec_next_index(node, peer.0@);
    let prev: u64 = if next > 0 {
        (next - 1) as u64
    } else {
        0
    };
    &&& m.0 == peer
    &&& (m.1 matches ConsensusMessage::AppendEntries {
        term,
        leader_id,
        prev_log_index,
        prev_log_term,
        entries,
        leader_commit,
    } && {
        &&& term == node.state.current_term
        &&& leader_id == node.config.node_id
        &&& leader_commit == node.log.spec_commit_index()
        &&& prev_log_index == prev
        &&& prev_log_term.0 == (if 1 <= prev <= node.log.view().len() {
            node.log.view()[prev - 1].term.0
        } else {
            0u64
        })
        &&& (next == 0 || next > node.log.view().len() ==> entries@.len() == 0)
        &&& (1 <= next <= node.log.view().len() ==> entries@.len() == node.log.view().len() - next
            + 1 && (forall|j: int|
            0 <= j < entries@.len() ==> (#[trigger] entries@[j])@ == node.log.view()[next - 1
                + j]@))
    })
}

/// A witness of a tracked peer yields the minimal tracked position.
proof fn lemma_first_next(s: Seq<(NodeId, u64)>, id: Seq<char>, w: int)
    requires
        0 <= w < s.len(),
        s[w].0.0@ == id,
    ensures
        ({
            let f = choose|i: int|
                0 <= i < s.len() && s[i].0.0@ == id && (forall|j: int|
                    0 <= j < i ==> s[j].0.0@ != id);
            &&& 0 <= f < s.len()
            &&& s[f].0.0@ == id
            &&& forall|j: int| 0 <= j < f ==> s[j].0.0@ != id
        }),
    decreases w,
{
    if forall|j: int| 0 <= j < w ==> (#[trigger] s[j]).0.0@ != id {
        assert(0 <= w < s.len() && s[w].0.0@ == id && (forall|j: int|
            0 <= j < w ==> s[j].0.0@ != id));
    } else {
        let w2 = choose|w2: int| 0 <= w2 < w && (#[trigger] s[w2]).0.0@ == id;
        lemma_first_next(s, id, w2);
    }
}

/// How many tracked followers have replicated up to index `n`.
pub open spec fn count_matches(s: Seq<(NodeId, u64)>, n: u64) -> int
    decreases s.len(),
{
    if s.len() == 0 {
        0
    } else {
        count_matches(s.drop_last(), n) + (if s.last().1 >= n {
            1int
        } else {
            0
        })
    }
}

/// What the cluster expects of a consensus engine: proposing operations and
/// answering who leads.
pub trait ConsensusEngine {
    /// Whether this node currently leads.
    spec fn spec_leading(&self) -> bool;

    /// Whether the cluster view lists a peer under this identifier.
    spec fn spec_peer(&self, id: Seq<char>) -> bool;

    /// Proposes an operation for replication; only a leader accepts.
    fn propose(&mut self, operation: Operation) -> (r: Result<(), BlockDBError>)
        ensures
            !old(self).spec_leading() ==> r is Err,
    ;

    /// Whether this node currently leads.
    fn is_leader(&self) -> (r: bool)
        ensures
            r == self.spec_leading(),
    ;

    /// The node believed to lead, if any.
    fn get_leader(&self) -> Option<NodeId>;

    /// Asks for a node to join the cluster; when it succeeds, the node is
    /// listed.
    fn add_node(&mut self, node_id: NodeId, address: NodeAddress) -> (r: Result<
        (),
        BlockDBError,
    >)
        ensures
            r is Ok ==> final(self).spec_peer(node_id.0@),
    ;

    /// Asks for a node to leave the cluster; when it succeeds, the node is
    /// no longer listed.
    fn remove_node(&mut self, node_id: &NodeId) -> (r: Result<(), BlockDBError>)
        ensures
            r is Ok ==> !final(self).spec_peer(node_id.0@),
    ;
}

/// One Raft participant as an owned state machine: it consumes messages and
/// timer ticks and emits the messages to send. The surrounding runtime loops
/// and does the sending.
#[derive(Debug)]
pub struct RaftNode {
    pub config: ClusterConfig,
    pub state: ConsensusState,
    pub log: ReplicatedLog,
    pub next_index: Vec<(NodeId, u64)>,
    pub match_index: Vec<(NodeId, u64)>,
    pub votes_received: Vec<NodeId>,
}

impl RaftNode {
    /// The cluster is sane, the log well-formed, and no voter is counted
    /// twice.
    pub open spec fn wf(&self) -> bool {
        &&& self.config.wf()
        &&& self.log.wf()
        &&& forall|i: int, j: int|
            0 <= i < j < self.votes_received@.len() ==> (#[trigger] self.votes_received@[i]).0@
                != (#[trigger] self.votes_received@[j]).0@
    }

    /// A fresh follower.
    pub fn new(config: ClusterConfig) -> (r: Self)
        requires
            config.wf(),
        ensures
            r.wf(),
            r.state.state == RaftState::Follower,
            r.log.view().len() == 0,
    {
        RaftNode {
            config,
            state: ConsensusState::new(),
            log: ReplicatedLog::new(),
            next_index: Vec::new(),
            match_index: Vec::new(),
            votes_received: Vec::new(),
        }
    }

    /// Starts an election: the node becomes a candidate in the next term,
    /// votes for itself, and asks every peer for its vote.
    pub fn start_election(&mut self) -> (msgs: Vec<(NodeId, ConsensusMessage)>)
        requires
            old(self).wf(),
            old(self).state.current_term.0 < u64::MAX,
        ensures
            final(self).wf(),
            final(self).state.state == RaftState::Candidate,
            final(self).state.current_term.0 == old(self).state.current_term.0 + 1,
            (final(self).state.voted_for matches Some(v) && v == old(self).config.node_id),
            final(self).votes_received@.len() == 1,
            final(self).votes_received@[0] == old(self).config.node_id,
            final(self).log == old(self).log,
            final(self).config == old(self).config,
            msgs@.len() == old(self).config.peers@.len(),
            forall|i: int|
                0 <= i < msgs@.len() ==> (#[trigger] msgs@[i]).0 == old(self).config.peers@[i].0
                    && (msgs@[i].1 matches ConsensusMessage::RequestVote {
                    term: t,
                    candidate_id: c,
                    last_log_index: lli,
                    last_log_term: llt,
                } && t.0 == old(self).state.current_term.0 + 1 && c == old(self).config.node_id
                    && lli == old(self).log.view().len() && llt.0 == (
                if old(self).log.view().len() == 0 {
                    0u64
                } else {
                    old(self).log.view().last().term.0
                })),
    {
        self.state.become_candidate(self.config.node_id.duplicate());
        self.votes_received = Vec::new();
        self.votes_received.push(self.config.node_id.duplicate());
        let last_log_index = self.log.last_log_index();
        let last_log_term = self.log.last_log_term();
        let mut msgs: Vec<(NodeId, ConsensusMessage)> = Vec::new();
        let mut i: usize = 0;
        while i < self.config.peers.len()
            invariant
                self.wf(),
                self.state.state == RaftState::Candidate,
                self.state.current_term.0 == old(self).state.current_term.0 + 1,
                (self.state.voted_for matches Some(v) && v == old(self).config.node_id),
                self.votes_received@.len() == 1,
                self.votes_received@[0] == old(self).config.node_id,
                self.log == old(self).log,
                self.config == old(self).config,
                last_log_index == old(self).log.view().len(),
                last_log_term.0 == (if old(self).log.view().len() == 0 {
                    0u64
                } else {
                    old(self).log.view().last().term.0
                }),
                0 <= i <= self.config.peers@.len(),
                msgs@.len() == i,
                forall|j: int|
                    0 <= j < i ==> (#[trigger] msgs@[j]).0 == old(self).config.peers@[j].0 && (
                    msgs@[j].1 matches ConsensusMessage::RequestVote {
                        term: t,
                        candidate_id: c,
                        last_log_index: lli,
                        last_log_term: llt,
                    } && t.0 == old(self).state.current_term.0 + 1 && c == old(self).config.node_id && lli == old(self).log.view().len() && llt.0 == (
                    if old(self).log.view().len() == 0 {
                        0u64
                    } else {
                        old(self).log.view().last().term.0
                    })),
            decreases self.config.peers@.len() - i,
        {
            let msg = ConsensusMessage::RequestVote {
                term: self.state.current_term,
                candidate_id: self.config.node_id.duplicate(),
                last_log_index,
                last_log_term,
            };
            msgs.push((self.config.peers[i].0.duplicate(), msg));
            i += 1;
        }
        msgs
    }

    /// Answers a vote request: the vote goes to the candidate only when its
    /// term is current, this node has not voted for anyone else this term,
    /// and the candidate's log is at least as current as ours.
    pub fn handle_request_vote(
        &mut self,
        term: Term,
        candidate_id: NodeId,
        last_log_index: u64,
        last_log_term: Term,
    ) -> (resp: ConsensusMessage)
        requires
            old(self).wf(),
        ensures
            final(self).wf(),
            final(self).log == old(self).log,
            (resp matches ConsensusMessage::RequestVoteResponse { term: t, vote_granted: g } && {
                &&& t.0 == (if term.0 > old(self).state.current_term.0 {
                    term.0
                } else {
                    old(self).state.current_term.0
                })
                &&& g == (if term.0 > old(self).state.current_term.0 {
                    spec_up_to_date(old(self).log.view(), last_log_index, last_log_term)
                } else if term.0 == old(self).state.current_term.0 {
                    spec_up_to_date(old(self).log.view(), last_log_index, last_log_term) && (
                    old(self).state.voted_for is None || (old(self).state.voted_for matches Some(v) && v.0@ == candidate_id.0@))
                } else {
                    false
                })
            }),
            (resp matches ConsensusMessage::RequestVoteResponse { vote_granted: true, .. })
                ==> (final(self).state.voted_for matches Some(c) && c.0@ == candidate_id.0@),
    {
        if term.0 > self.state.current_term.0 {
            self.state.current_term = term;
            self.state.voted_for = None;
            self.state.state = RaftState::Follower;
        }
        let mut vote_granted = false;
        if term.0 == self.state.current_term.0 {
            let not_voted = match &self.state.voted_for {
                None => true,
                Some(v) => v.0.eq(&candidate_id.0),
            };
            if not_voted && self.log.is_up_to_date(last_log_index, &last_log_term) {
                vote_granted = true;
                self.state.voted_for = Some(candidate_id);
                self.state.last_heartbeat_ms = now_millis();
            }
        }
        ConsensusMessage::RequestVoteResponse { term: self.state.current_term, vote_granted }
    }

    /// Counts a vote response. The node takes leadership only once a
    /// majority of distinct nodes, itself included, have granted their votes
    /// in its current term.
    pub fn handle_vote_response(&mut self, sender: NodeId, term: Term, vote_granted: bool) -> (
    became_leader: bool)
        requires
            old(self).wf(),
            old(self).config.peers@.len() < usize::MAX,
        ensures
            final(self).wf(),
            final(self).log == old(self).log,
            became_leader ==> {
                &&& old(self).state.state == RaftState::Candidate
                &&& term.0 == old(self).state.current_term.0
                &&& vote_granted
                &&& final(self).state.state == RaftState::Leader
                &&& final(self).votes_received@.len() >= (old(self).config.peers@.len() + 1) / 2
                    + 1
                &&& forall|i: int, j: int|
                    0 <= i < j < final(self).votes_received@.len() ==> (
                    #[trigger] final(self).votes_received@[i]).0@ != (
                    #[trigger] final(self).votes_received@[j]).0@
            },
            old(self).state.state == RaftState::Candidate && term.0 == old(self).state.current_term.0 && vote_granted && (if votes_contains(
                old(self).votes_received@,
                sender.0@,
            ) {
                old(self).votes_received@.len() as int
            } else {
                old(self).votes_received@.len() as int + 1
            }) >= (old(self).config.peers@.len() + 1) / 2 + 1 ==> became_leader,
            !became_leader ==> final(self).state.state == old(self).state.state || final(self).state.state == RaftState::Follower,
    {
        if term.0 > self.state.current_term.0 {
            self.state.current_term = term;
            self.state.state = RaftState::Follower;
            self.state.voted_for = None;
            return false;
        }
        if !matches!(self.state.state, RaftState::Candidate) || term.0
            != self.state.current_term.0 || !vote_granted {
            return false;
        }
        let mut already = false;
        let mut i: usize = 0;
        let n = self.votes_received.len();
        while i < n
            invariant
                *self == *old(self),
                old(self).wf(),
                n == self.votes_received@.len(),
                0 <= i <= n,
                already == exists|j: int|
                    0 <= j < i && (#[trigger] self.votes_received@[j]).0@ == sender.0@,
            decreases n - i,
        {
            if self.votes_received[i].0.eq(&sender.0) {
                proof {
                    assert(self.votes_received@[i as int].0@ == sender.0@);
                }
                already = true;
            }
            i += 1;
        }
        if !already {
            let ghost pre_votes = self.votes_received@;
            let ghost sid = sender.0@;
            self.votes_received.push(sender);
            proof {
                let n2 = self.votes_received@.len() - 1;
                assert(self.votes_received@[n2].0@ == sid);
                assert forall|a: int, b: int|
                    0 <= a < b < self.votes_received@.len() implies (
                #[trigger] self.votes_received@[a]).0@ != (
                #[trigger] self.votes_received@[b]).0@ by {
                    if b < n2 {
                        assert(pre_votes[a].0@ != pre_votes[b].0@);
                    } else {
                        assert(pre_votes[a].0@ != sid);
                    }
                }
            }
        }
        let majority = self.config.majority();
        if self.votes_received.len() >= majority {
            self.state.become_leader(self.config.node_id.duplicate());
            return true;
        }
        false
    }

    /// Handles a leader's append: an older term is refused; a current one
    /// makes this node a follower and the entries are spliced in after the
    /// matching point, never behind the commit cursor; on success the commit
    /// cursor follows the leader's, bounded by the log's end.
    pub fn handle_append_entries(
        &mut self,
        term: Term,
        leader_id: NodeId,
        prev_log_index: u64,
        prev_log_term: Term,
        entries: Vec<LogEntry>,
        leader_commit: u64,
    ) -> (resp: ConsensusMessage)
        requires
            old(self).wf(),
        ensures
            final(self).wf(),
            (resp matches ConsensusMessage::AppendEntriesResponse { term: t, success: s2, match_index: m } && {
                &&& t.0 == (if term.0 > old(self).state.current_term.0 {
                    term.0
                } else {
                    old(self).state.current_term.0
                })
                &&& s2 == spec_append_accepted(
                    *old(self),
                    term,
                    prev_log_index,
                    prev_log_term,
                    entries@,
                )
                &&& m == (if s2 {
                    prev_log_index + entries@.len()
                } else {
                    0int
                })
            }),
            term.0 >= old(self).state.current_term.0 ==> final(self).state.state
                == RaftState::Follower && (final(self).state.leader_id matches Some(l) && l
                == leader_id),
            spec_append_accepted(*old(self), term, prev_log_index, prev_log_term, entries@) ==> {
                &&& final(self).log.view().len() == prev_log_index + entries@.len()
                &&& final(self).log.view().take(prev_log_index as int) == old(self).log.view().take(prev_log_index as int)
                &&& forall|k: int|
                    0 <= k < entries@.len() ==> (#[trigger] final(self).log.view()[prev_log_index
                        + k])@ == entries@[k]@
                &&& final(self).log.spec_commit_index() == (if (if leader_commit
                    < prev_log_index + entries@.len() {
                    leader_commit as int
                } else {
                    prev_log_index + entries@.len()
                }) > old(self).log.spec_commit_index() {
                    if leader_commit < prev_log_index + entries@.len() {
                        leader_commit as int
                    } else {
                        prev_log_index + entries@.len()
                    }
                } else {
                    old(self).log.spec_commit_index() as int
                })
            },
            !spec_append_accepted(*old(self), term, prev_log_index, prev_log_term, entries@)
                ==> final(self).log == old(self).log,
    {
        if term.0 > self.state.current_term.0 {
            self.state.current_term = term;
            self.state.state = RaftState::Follower;
            self.state.voted_for = None;
        }
        let mut success = false;
        if term.0 == self.state.current_term.0 {
            self.state.state = RaftState::Follower;
            self.state.leader_id = Some(leader_id);
            self.state.last_heartbeat_ms = now_millis();
            let commit = self.log.get_commit_index();
            let prev_ok = if prev_log_index == 0 {
                true
            } else if prev_log_index > self.log.last_log_index() {
                false
            } else {
                match self.log.get_term(prev_log_index) {
                    Some(t) => t.0 == prev_log_term.0,
                    None => false,
                }
            };
            if prev_ok && prev_log_index >= commit {
                success = self.log.append_entries(prev_log_index, entries);
                if success {
                    let last = self.log.last_log_index();
                    let new_commit = if leader_commit < last {
                        leader_commit
                    } else {
                        last
                    };
                    self.log.update_commit_index(new_commit);
                }
            }
        }
        let match_idx = if success {
            self.log.last_log_index()
        } else {
            0
        };
        ConsensusMessage::AppendEntriesResponse {
            term: self.state.current_term,
            success,
            match_index: match_idx,
        }
    }

    /// A leader accepts a client operation into its log; any other node
    /// refuses it.
    pub fn handle_client_request(&mut self, operation: Operation, request_id: u128) -> (r: Result<
        u64,
        BlockDBError,
    >)
        requires
            old(self).wf(),
        ensures
            final(self).wf(),
            old(self).state.state != RaftState::Leader ==> r is Err && final(self).log == old(self).log,
            old(self).state.state == RaftState::Leader && (operation matches Operation::Put {
                ..
            }) && old(self).log.view().len() < u64::MAX ==> r is Ok,
            r is Err ==> final(self).log == old(self).log,
            r matches Ok(idx) ==> {
                &&& old(self).state.state == RaftState::Leader
                &&& idx == old(self).log.view().len() + 1
                &&& final(self).log.view().len() == old(self).log.view().len() + 1
                &&& final(self).log.view().take(old(self).log.view().len() as int) == old(self).log.view()
                &&& final(self).log.view().last().term == old(self).state.current_term
                &&& final(self).log.view().last().request_id == request_id
                &&& (operation matches Operation::Put { key, value } ==> final(self).log.view().last()@.operation == (LogOpData::Put { key: key@, value: value@ }))
            },
    {
        if !matches!(self.state.state, RaftState::Leader) {
            return Err(BlockDBError::StorageError("not the leader".to_owned()));
        }
        let log_operation = match operation {
            Operation::Put { key, value } => LogOperation::Put { key, value },
            _ => {
                return Err(BlockDBError::StorageError("operation not supported".to_owned()));
            },
        };
        let last = self.log.last_log_index();
        if last == u64::MAX {
            return Err(BlockDBError::StorageError("log full".to_owned()));
        }
        let entry = LogEntry::new(last + 1, self.state.current_term, log_operation, request_id);
        let ghost pre_log = self.log.view();
        self.log.append(entry);
        proof {
            assert(self.log.view().take(pre_log.len() as int) =~= pre_log);
        }
        Ok(last + 1)
    }

    /// The heartbeat and replication fan-out: one append message per peer,
    /// carrying the entries from that peer's next index on.
    pub fn replicate_to_followers(&self) -> (msgs: Vec<(NodeId, ConsensusMessage)>)
        requires
            self.wf(),
        ensures
            self.state.state != RaftState::Leader ==> msgs@.len() == 0,
            msgs@.len() <= self.config.peers@.len(),
            self.state.state == RaftState::Leader ==> {
                &&& msgs@.len() == self.config.peers@.len()
                &&& forall|i: int|
                    0 <= i < msgs@.len() ==> spec_replication_msg(
                        *self,
                        self.config.peers@[i].0,
                        #[trigger] msgs@[i],
                    )
            },
    {
        let mut msgs: Vec<(NodeId, ConsensusMessage)> = Vec::new();
        if !matches!(self.state.state, RaftState::Leader) {
            return msgs;
        }
        let leader_commit = self.log.get_commit_index();
        let mut i: usize = 0;
        while i < self.config.peers.len()
            invariant
                self.wf(),
                self.state.state == RaftState::Leader,
                leader_commit == self.log.spec_commit_index(),
                0 <= i <= self.config.peers@.len(),
                msgs@.len() == i,
                forall|j: int|
                    0 <= j < i ==> spec_replication_msg(
                        *self,
                        self.config.peers@[j].0,
                        #[trigger] msgs@[j],
                    ),
            decreases self.config.peers@.len() - i,
        {
            let peer_id = self.config.peers[i].0.duplicate();
            let next_idx = self.next_index_of(&peer_id);
            let prev_log_index = if next_idx > 0 {
                next_idx - 1
            } else {
                0
            };
            let prev_log_term = match self.log.get_term(prev_log_index) {
                Some(t) => t,
                None => Term::new(),
            };
            let entries = self.log.get_entries_from(next_idx);
            let msg = ConsensusMessage::AppendEntries {
                term: self.state.current_term,
                leader_id: self.config.node_id.duplicate(),
                prev_log_index,
                prev_log_term,
                entries,
                leader_commit,
            };
            msgs.push((peer_id, msg));
            proof {
                assert(spec_replication_msg(
                    *self,
                    self.config.peers@[i as int].0,
                    msgs@[i as int],
                ));
            }
            i += 1;
        }
        msgs
    }

    /// The next index tracked for a peer, or one past this log's end.
    fn next_index_of(&self, peer: &NodeId) -> (r: u64)
        requires
            self.wf(),
        ensures
            r == spec_next_index(*self, peer.0@),
    {
        let mut i: usize = 0;
        while i < self.next_index.len()
            invariant
                self.wf(),
                0 <= i <= self.next_index@.len(),
                forall|j: int| 0 <= j < i ==> (#[trigger] self.next_index@[j]).0.0@ != peer.0@,
            decreases self.next_index@.len() - i,
        {
            if self.next_index[i].0.0.eq(&peer.0) {
                proof {
                    assert(self.next_index@[i as int].0.0@ == peer.0@);
                    lemma_first_next(self.next_index@, peer.0@, i as int);
                    let f = choose|f: int|
                        0 <= f < self.next_index@.len() && self.next_index@[f].0.0@ == peer.0@
                            && (forall|j: int|
                            0 <= j < f ==> self.next_index@[j].0.0@ != peer.0@);
                    if f < i {
                        assert(self.next_index@[f].0.0@ != peer.0@);
                    }
                    if i < f {
                        assert(self.next_index@[i as int].0.0@ != peer.0@);
                    }
                }
                return self.next_index[i].1;
            }
            i += 1;
        }
        let last = self.log.last_log_index();
        if last == u64::MAX {
            last
        } else {
            last + 1
        }
    }

    /// Books a follower's replication progress and, on success, advances the
    /// commit cursor to the highest index replicated on a majority in the
    /// current term. The commit cursor never moves backwards.
    pub fn handle_append_entries_response(
        &mut self,
        sender: NodeId,
        term: Term,
        success: bool,
        match_idx: u64,
    )
        requires
            old(self).wf(),
            old(self).config.peers@.len() < usize::MAX,
        ensures
            final(self).wf(),
            final(self).log.spec_commit_index() >= old(self).log.spec_commit_index(),
            final(self).log.spec_commit_index() != old(self).log.spec_commit_index() ==> {
                let n = final(self).log.spec_commit_index();
                &&& 1 + count_matches(final(self).match_index@, n) >= (final(self).config.peers@.len() + 1) / 2 + 1
                &&& final(self).log.view()[n - 1].term.0 == final(self).state.current_term.0
            },
            old(self).state.state == RaftState::Leader && term.0 == old(
                self,
            ).state.current_term.0 && success ==> forall|n: u64|
                old(self).log.spec_commit_index() < n <= old(self).log.view().len() && 1
                    + count_matches(final(self).match_index@, n) >= (old(
                    self,
                ).config.peers@.len() + 1) / 2 + 1 && old(self).log.view()[n - 1].term.0 == old(
                    self,
                ).state.current_term.0 ==> final(self).log.spec_commit_index() >= n,
    {
        if term.0 > self.state.current_term.0 {
            self.state.current_term = term;
            self.state.state = RaftState::Follower;
            self.state.voted_for = None;
            return;
        }
        if !matches!(self.state.state, RaftState::Leader) || term.0 != self.state.current_term.0 {
            return;
        }
        if success {
            self.record_match(&sender, match_idx);
            self.advance_commit_index();
        } else {
            self.backoff_next(&sender);
        }
    }

    /// Records how far a follower has replicated.
    fn record_match(&mut self, sender: &NodeId, match_idx: u64)
        requires
            old(self).wf(),
        ensures
            final(self).wf(),
            final(self).log == old(self).log,
            final(self).state == old(self).state,
            final(self).config == old(self).config,
    {
        let mut i: usize = 0;
        let n = self.match_index.len();
        let mut found = false;
        while i < n
            invariant
                self.wf(),
                self.log == old(self).log,
                self.state == old(self).state,
                self.config == old(self).config,
                n == self.match_index@.len() || found,
                0 <= i <= n,
            decreases n - i,
        {
            if !found && self.match_index[i].0.0.eq(&sender.0) {
                let name = sender.duplicate();
                self.match_index.set(i, (name, match_idx));
                found = true;
            }
            i += 1;
        }
        if !found {
            self.match_index.push((sender.duplicate(), match_idx));
        }
        let next = if match_idx == u64::MAX {
            u64::MAX
        } else {
            match_idx + 1
        };
        let mut j: usize = 0;
        let m = self.next_index.len();
        let mut found2 = false;
        while j < m
            invariant
                self.wf(),
                self.log == old(self).log,
                self.state == old(self).state,
                self.config == old(self).config,
                m == self.next_index@.len() || found2,
                0 <= j <= m,
            decreases m - j,
        {
            if !found2 && self.next_index[j].0.0.eq(&sender.0) {
                let name = sender.duplicate();
                self.next_index.set(j, (name, next));
                found2 = true;
            }
            j += 1;
        }
        if !found2 {
            self.next_index.push((sender.duplicate(), next));
        }
    }

    /// Walks a refused follower's next index one step back, to at least one.
    fn backoff_next(&mut self, sender: &NodeId)
        requires
            old(self).wf(),
        ensures
            final(self).wf(),
            final(self).log == old(self).log,
            final(self).state == old(self).state,
            final(self).config == old(self).config,
    {
        let mut j: usize = 0;
        let m = self.next_index.len();
        while j < m
            invariant
                self.wf(),
                self.log == old(self).log,
                self.state == old(self).state,
                self.config == old(self).config,
                m == self.next_index@.len(),
                0 <= j <= m,
            decreases m - j,
        {
            if self.next_index[j].0.0.eq(&sender.0) {
                let cur = self.next_index[j].1;
                let stepped = if cur > 2 {
                    cur - 1
                } else {
                    1
                };
                let name = sender.duplicate();
                self.next_index.set(j, (name, stepped));
                return;
            }
            j += 1;
        }
    }

    /// Advances the commit cursor to the highest index of the current term
    /// that this node and a majority of tracked followers have replicated.
    fn advance_commit_index(&mut self)
        requires
            old(self).wf(),
            old(self).config.peers@.len() < usize::MAX,
        ensures
            final(self).wf(),
            final(self).log.spec_commit_index() >= old(self).log.spec_commit_index(),
            final(self).log.view() == old(self).log.view(),
            final(self).state == old(self).state,
            final(self).config == old(self).config,
            final(self).match_index == old(self).match_index,
            final(self).log.spec_commit_index() != old(self).log.spec_commit_index() ==> {
                let n = final(self).log.spec_commit_index();
                &&& 1 + count_matches(old(self).match_index@, n) >= (old(self).config.peers@.len()
                    + 1) / 2 + 1
                &&& final(self).log.view()[n - 1].term.0 == old(self).state.current_term.0
            },
            forall|n: u64|
                old(self).log.spec_commit_index() < n <= old(self).log.view().len() && 1
                    + count_matches(old(self).match_index@, n) >= (old(self).config.peers@.len()
                    + 1) / 2 + 1 && old(self).log.view()[n - 1].term.0 == old(
                    self,
                ).state.current_term.0 ==> final(self).log.spec_commit_index() >= n,
    {
        let majority = self.config.majority();
        let last = self.log.last_log_index();
        let mut n = self.log.get_commit_index();
        let mut best = n;
        let ghost start_commit = self.log.spec_commit_index();
        while n < last
            invariant
                self.wf(),
                *self == *old(self),
                old(self).config.peers@.len() < usize::MAX,
                majority == (old(self).config.peers@.len() + 1) / 2 + 1,
                last == self.log.view().len(),
                start_commit == self.log.spec_commit_index(),
                self.log.spec_commit_index() <= n <= last,
                self.log.spec_commit_index() <= best <= last,
                best != start_commit ==> {
                    &&& 1 + count_matches(self.match_index@, best as u64) >= majority
                    &&& self.log.view()[best - 1].term.0 == self.state.current_term.0
                },
                forall|m: u64|
                    start_commit < m <= n && 1 + count_matches(self.match_index@, m) >= majority
                        && self.log.view()[m - 1].term.0 == self.state.current_term.0 ==> best
                        >= m,
            decreases last - n,
        {
            n = n + 1;
            let ghost mv = self.match_index@;
            let mut count: usize = 1;
            let mut i: usize = 0;
            proof {
                assert(count_matches(mv.take(0), n) == 0) by {
                    assert(mv.take(0).len() == 0);
                }
            }
            while i < self.match_index.len()
                invariant
                    mv == self.match_index@,
                    majority <= usize::MAX,
                    1 <= majority,
                    0 <= i <= self.match_index@.len(),
                    1 <= count <= majority,
                    count == (if 1 + count_matches(mv.take(i as int), n) < majority {
                        1 + count_matches(mv.take(i as int), n)
                    } else {
                        majority as int
                    }),
                decreases self.match_index@.len() - i,
            {
                proof {
                    assert(mv.take(i as int + 1).drop_last() =~= mv.take(i as int));
                    assert(mv.take(i as int + 1).last() == mv[i as int]);
                }
                if self.match_index[i].1 >= n {
                    if count < majority {
                        count = count + 1;
                    }
                } else {
                    proof {
                        assert(count_matches(mv.take(i as int + 1), n) == count_matches(
                            mv.take(i as int),
                            n,
                        ));
                    }
                }
                i += 1;
            }
            proof {
                assert(mv.take(mv.len() as int) =~= mv);
            }
            if count >= majority {
                match self.log.get_term(n) {
                    Some(t) => {
                        if t.0 == self.state.current_term.0 {
                            best = n;
                        }
                    },
                    None => {},
                }
            }
        }
        self.log.update_commit_index(best);
    }

    /// Applies committed entries in order, handing them out exactly once.
    pub fn take_committed(&mut self) -> (r: Vec<LogEntry>)
        requires
            old(self).wf(),
        ensures
            final(self).wf(),
            final(self).log.view() == old(self).log.view(),
            final(self).log.spec_commit_index() == old(self).log.spec_commit_index(),
            final(self).log.spec_last_applied() == old(self).log.spec_commit_index(),
            r@.len() == old(self).log.spec_commit_index() - old(self).log.spec_last_applied(),
            forall|j: int|
                0 <= j < r@.len() ==> (#[trigger] r@[j])@ == old(self).log.view()[old(self).log.spec_last_applied() + j]@ && r@[j].index == old(self).log.spec_last_applied() + j + 1,
    {
        let commit = self.log.get_commit_index();
        self.log.apply_up_to(commit)
    }
}

impl ConsensusEngine for RaftNode {
    /// Whether this node currently leads.
    open spec fn spec_leading(&self) -> bool {
        self.state.state == RaftState::Leader
    }

    /// Whether the cluster view lists a peer under this identifier.
    open spec fn spec_peer(&self, id: Seq<char>) -> bool {
        exists|i: int|
            0 <= i < self.config.peers@.len() && (#[trigger] self.config.peers@[i]).0.0@ == id
    }

    /// A leader appends the operation to its log; any other node refuses.
    fn propose(&mut self, operation: Operation) -> (r: Result<(), BlockDBError>) {
        if !self.wf_check() {
            return Err(BlockDBError::StorageError("node state is malformed".to_owned()));
        }
        let request_id = fresh_uuid_u128();
        match self.handle_client_request(operation, request_id) {
            Ok(_) => Ok(()),
            Err(e) => Err(e),
        }
    }

    /// Whether this node currently leads.
    fn is_leader(&self) -> (r: bool) {
        matches!(self.state.state, RaftState::Leader)
    }

    /// The node believed to lead, if any.
    fn get_leader(&self) -> Option<NodeId> {
        match &self.state.leader_id {
            Some(id) => Some(id.duplicate()),
            None => None,
        }
    }

    /// Joins a node to the cluster view.
    fn add_node(&mut self, node_id: NodeId, address: NodeAddress) -> (r: Result<
        (),
        BlockDBError,
    >) {
        if !self.wf_check() {
            return Err(BlockDBError::StorageError("node state is malformed".to_owned()));
        }
        let ghost id_view = node_id.0@;
        let ghost pre_cfg = self.config;
        self.config.add_peer(node_id, address);
        proof {
            if exists|i: int|
                0 <= i < pre_cfg.peers@.len() && (#[trigger] pre_cfg.peers@[i]).0.0@ == id_view {
                let i = choose|i: int|
                    0 <= i < self.config.peers@.len() && (#[trigger] pre_cfg.peers@[i]).0.0@
                        == id_view && self.config.peers@[i].0.0@ == id_view
                        && self.config.peers@[i].1.host@ == address.host@
                        && self.config.peers@[i].1.port == address.port && (forall|j: int|
                        0 <= j < pre_cfg.peers@.len() && j != i ==> self.config.peers@[j]
                            == pre_cfg.peers@[j]);
                assert(self.config.peers@[i].0.0@ == id_view);
            } else {
                assert(self.config.peers@[self.config.peers@.len() - 1].0.0@ == id_view);
            }
        }
        Ok(())
    }

    /// Removes a node from the cluster view.
    fn remove_node(&mut self, node_id: &NodeId) -> (r: Result<(), BlockDBError>) {
        if !self.wf_check() {
            return Err(BlockDBError::StorageError("node state is malformed".to_owned()));
        }
        let mut kept: Vec<(NodeId, NodeAddress)> = Vec::new();
        loop
            invariant
                forall|a: int| 0 <= a < kept@.len() ==> (#[trigger] kept@[a]).0.0@ != node_id.0@,
                forall|a: int, b: int|
                    0 <= a < b < kept@.len() ==> (#[trigger] kept@[a]).0.0@ != (
                    #[trigger] kept@[b]).0.0@,
                forall|a: int, b: int|
                    0 <= a < kept@.len() && 0 <= b < self.config.peers@.len() ==> (
                    #[trigger] kept@[a]).0.0@ != (#[trigger] self.config.peers@[b]).0.0@,
                forall|a: int, b: int|
                    0 <= a < b < self.config.peers@.len() ==> (
                    #[trigger] self.config.peers@[a]).0.0@ != (
                    #[trigger] self.config.peers@[b]).0.0@,
            decreases self.config.peers@.len(),
        {
            if self.config.peers.len() == 0 {
                break;
            }
            let ghost pre_peers = self.config.peers@;
            let entry = self.config.peers.remove(0);
            proof {
                assert(entry == pre_peers[0]);
                assert forall|b: int| 0 <= b < self.config.peers@.len() implies entry.0.0@ != (
                #[trigger] self.config.peers@[b]).0.0@ by {
                    assert(self.config.peers@[b] == pre_peers[b + 1]);
                }
            }
            if !entry.0.0.eq(&node_id.0) {
                kept.push(entry);
            }
        }
        self.config.peers = kept;
        proof {
            assert forall|i: int| 0 <= i < self.config.peers@.len() implies (
            #[trigger] self.config.peers@[i]).0.0@ != node_id.0@ by {}
        }
        Ok(())
    }
}

impl RaftNode {
    /// Checks the cluster view for duplicate peers, so that unverified
    /// callers of the engine interface cannot feed a malformed state into
    /// the verified handlers.
    fn wf_check(&self) -> (r: bool)
        ensures
            r ==> self.wf(),
    {
        let mut i: usize = 0;
        while i < self.config.peers.len()
            invariant
                0 <= i <= self.config.peers@.len(),
                forall|a: int, b: int|
                    0 <= a < b < self.config.peers@.len() && a < i ==> (
                    #[trigger] self.config.peers@[a]).0.0@ != (
                    #[trigger] self.config.peers@[b]).0.0@,
            decreases self.config.peers@.len() - i,
        {
            let mut j: usize = i + 1;
            while j < self.config.peers.len()
                invariant
                    0 <= i < j <= self.config.peers@.len(),
                    forall|b: int|
                        i < b < j ==> (#[trigger] self.config.peers@[b]).0.0@
                            != self.config.peers@[i as int].0.0@,
                decreases self.config.peers@.len() - j,
            {
                if self.config.peers[j].0.0.eq(&self.config.peers[i].0.0) {
                    return false;
                }
                j += 1;
            }
            i += 1;
        }
        if !self.log_wf_check() {
            return false;
        }
        if !self.votes_wf_check() {
            return false;
        }
        true
    }

    /// Checks the log's structural invariant.
    fn log_wf_check(&self) -> (r: bool)
        ensures
            r ==> self.log.wf(),
    {
        self.log.wf_check()
    }

    /// Checks that no voter is counted twice.
    fn votes_wf_check(&self) -> (r: bool)
        ensures
            r ==> forall|i: int, j: int|
                0 <= i < j < self.votes_received@.len() ==> (
                #[trigger] self.votes_received@[i]).0@ != (
                #[trigger] self.votes_received@[j]).0@,
    {
        let mut i: usize = 0;
        while i < self.votes_received.len()
            invariant
                0 <= i <= self.votes_received@.len(),
                forall|a: int, b: int|
                    0 <= a < b < self.votes_received@.len() && a < i ==> (
                    #[trigger] self.votes_received@[a]).0@ != (
                    #[trigger] self.votes_received@[b]).0@,
            decreases self.votes_received@.len() - i,
        {
            let mut j: usize = i + 1;
            while j < self.votes_received.len()
                invariant
                    0 <= i < j <= self.votes_received@.len(),
                    forall|b: int|
                        i < b < j ==> (#[trigger] self.votes_received@[b]).0@
                            != self.votes_received@[i as int].0@,
                decreases self.votes_received@.len() - j,
            {
                if self.votes_received[j].0.eq(&self.votes_received[i].0) {
                    return false;
                }
                j += 1;
            }
            i += 1;
        }
        true
    }
}

impl ReplicatedLog {
    /// Checks the structural invariant at run time.
    pub fn wf_check(&self) -> (r: bool)
        ensures
            r ==> self.wf(),
    {
        let mut i: usize = 0;
        while i < self.entries.len()
            invariant
                0 <= i <= self.entries@.len(),
                forall|j: int| 0 <= j < i ==> (#[trigger] self.entries@[j]).index == j + 1,
            decreases self.entries@.len() - i,
        {
            if self.entries[i].index != (i as u64) + 1 {
                return false;
            }
            proof {
                assert(self.entries@[i as int].index == i + 1);
            }
            i += 1;
        }
        self.last_applied <= self.commit_index && self.commit_index <= self.entries.len() as u64
    }
}

} // verus!
