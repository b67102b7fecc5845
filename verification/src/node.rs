use std::collections::HashMap;
use vstd::prelude::*;

use crate::balancer::{
    candidate_set, lemma_consecutive_residues, lemma_residue_reached, sorted_candidates, strictly_ascending,
};
use crate::image::{detect_image_format, detected_format};
use crate::message::{Message, NodeId};
use crate::net::{opened, sealed, Net, NetError, KEY_LEN, MAX_PLAINTEXT_LEN};
use crate::routes::RouteTable;
use crate::text::push_char;

verus! {

/// How long a node waits for an `Ok` after calling an election, and again for a
/// `Coordinator` after an `Ok` came.
pub const ELECTION_WAIT_MS: u64 = 2000;

/// A follower that has heard nothing from its leader for longer than this calls an election.
pub const LEADER_TIMEOUT_MS: u64 = 3000;

/// The period of the leader's heartbeats: one round every second.
pub const HEARTBEAT_INTERVAL_MS: u64 = 1000;

/// The period of the leader check.
pub const MONITOR_INTERVAL_MS: u64 = 1000;

/// The term that leaders announce.
pub const TERM: u64 = 1;

/// Requests that come from a client carry this sender.
pub const CLIENT_ID: NodeId = 0;

/// How long a node waits after start-up before its first election: later for
/// higher identifiers.
pub fn startup_delay_ms(me: NodeId) -> (ms: u64)
    ensures
        ms == 200 + 50 * me,
{
    200 + (me as u64) * 50
}

/// What the node asks its runtime to do.
pub enum Action {
    /// Send `msg` to node `to`.
    Send { to: NodeId, msg: Message },
    /// Start, or restart, sending `Heartbeat { from: me, term: TERM }` to each target,
    /// one round every `period_ms` milliseconds.
    StartHeartbeats { targets: Vec<NodeId>, period_ms: u64 },
    /// Stop sending heartbeats.
    StopHeartbeats,
    /// Call `election_timeout` after `ELECTION_WAIT_MS`: the wait for an `Ok` of the
    /// election just called.
    AwaitOk,
    /// Call `election_finished` after `ELECTION_WAIT_MS`: the wait for the new leader
    /// after an `Ok`.
    AwaitCoordinator,
    /// Send `msg` to the client whose socket address is `addr`.
    ReplyToClient { addr: String, msg: Message },
}

/// The view of an optional string.
pub open spec fn opt_view(o: Option<String>) -> Option<Seq<char>> {
    match o {
        Some(s) => Some(s@),
        None => None,
    }
}

/// The nodes above `me`, in ascending order.
pub open spec fn higher_nodes(others: Seq<NodeId>, me: NodeId) -> Seq<NodeId> {
    others.filter(|id: NodeId| id > me)
}

/// `acts` sends `Election { from: me }` to each of `targets` in order, then waits for an `Ok`.
pub open spec fn calls_election(me: NodeId, targets: Seq<NodeId>, acts: Seq<Action>) -> bool {
    &&& acts.len() == targets.len() + 1
    &&& forall|i: int|
        0 <= i < targets.len() ==> acts[i] == (Action::Send {
            to: targets[i],
            msg: Message::Election { from: me },
        })
    &&& acts[targets.len() as int] is AwaitOk
}

/// `acts` announces `me` as leader to each of `targets` in order, then starts
/// heartbeats to them, one round every `HEARTBEAT_INTERVAL_MS`.
pub open spec fn announces_leadership(me: NodeId, targets: Seq<NodeId>, acts: Seq<Action>) -> bool {
    &&& acts.len() == targets.len() + 1
    &&& forall|i: int|
        0 <= i < targets.len() ==> acts[i] == (Action::Send {
            to: targets[i],
            msg: Message::Coordinator { leader: me, term: TERM },
        })
    &&& acts[targets.len() as int] matches Action::StartHeartbeats { targets: t, period_ms }
        && t@ == targets && period_ms == HEARTBEAT_INTERVAL_MS
}

/// The last heartbeat was heard more than `LEADER_TIMEOUT_MS` before `now`, or never.
pub open spec fn heartbeat_stale(last: Option<u64>, now: u64) -> bool {
    match last {
        Some(t) => now >= t && now - t > LEADER_TIMEOUT_MS,
        None => true,
    }
}

/// The name under which an encrypted image goes back: `image.` and the extension.
pub open spec fn image_filename_spec(bytes: Seq<u8>) -> Seq<char> {
    "image."@ + detected_format(bytes).0
}

/// The error text of a failed encryption (the `Display` of `aes_gcm::Error`).
pub open spec fn encryption_error_text() -> Seq<char> {
    "aead::Error"@
}

/// `msg` is the successful answer to request `req_id` for `image`: the image
/// sealed under `key`, with its file name.
pub open spec fn is_encrypted_reply(msg: Message, req_id: Seq<char>, key: Seq<u8>, image: Seq<u8>) -> bool {
    &&& msg matches Message::EncryptReply { req_id: r, ok, encrypted_image, original_filename, error }
    &&& r@ == req_id
    &&& ok
    &&& encrypted_image matches Some(e) && sealed(key, image, e@) && opened(key, e@) == Some(
        image,
    )
    &&& opt_view(original_filename) == Some(image_filename_spec(image))
    &&& error is None
}

/// `msg` is the failed answer to request `req_id`.
pub open spec fn is_failed_reply(msg: Message, req_id: Seq<char>) -> bool {
    &&& msg matches Message::EncryptReply { req_id: r, ok, encrypted_image, original_filename, error }
    &&& r@ == req_id
    &&& !ok
    &&& encrypted_image is None
    &&& original_filename is None
    &&& opt_view(error) == Some(encryption_error_text())
}

/// `msg` hands request `req_id` on from node `me` to a worker.
pub open spec fn is_forwarded_request(
    msg: Message,
    me: NodeId,
    req_id: Seq<char>,
    image: Seq<u8>,
    client_addr: Option<Seq<char>>,
) -> bool {
    &&& msg matches Message::EncryptRequest { from, req_id: r, user, image_bytes, client_addr: c }
    &&& from == me
    &&& r@ == req_id
    &&& user@ == Seq::<char>::empty()
    &&& image_bytes@ == image
    &&& opt_view(c) == client_addr
}

/// The state of a node: leader election and the leader's distribution of work.
pub struct NodeState {
    /// This node.
    pub me: NodeId,
    /// The other configured nodes, in ascending order.
    pub others: Vec<NodeId>,
    /// The leader this node knows of.
    pub leader: Option<NodeId>,
    /// The node is taking part in an election: set when it calls one, cleared when
    /// that election ends or a `Coordinator` arrives.
    pub participating: bool,
    /// An `Ok` came during the current election.
    pub ok_received: bool,
    /// When the leader was last heard from, on the runtime's millisecond clock.
    pub last_heartbeat: Option<u64>,
    /// This node runs its heartbeat task.
    pub heartbeat_running: bool,
    /// The round-robin position of the next worker.
    pub next_worker: usize,
    /// Where to send the answers of client requests.
    pub routes: RouteTable,
}

/// `b` keeps what the election leaves alone: the node, its peers, its leader
/// clock, its round-robin position and its client routes.
pub open spec fn keeps_work_state(a: NodeState, b: NodeState) -> bool {
    &&& b.me == a.me
    &&& b.others == a.others
    &&& b.last_heartbeat == a.last_heartbeat
    &&& b.next_worker == a.next_worker
    &&& b.routes == a.routes
}

/// `b` keeps the election state of `a`.
pub open spec fn keeps_election_state(a: NodeState, b: NodeState) -> bool {
    &&& b.leader == a.leader
    &&& b.participating == a.participating
    &&& b.ok_received == a.ok_received
    &&& b.heartbeat_running == a.heartbeat_running
}

/// What `start_election` does: nothing during an election; otherwise leadership at
/// once when no node is higher, else an `Election` to every higher node.
pub open spec fn start_election_post(a: NodeState, b: NodeState, acts: Seq<Action>) -> bool {
    let higher = higher_nodes(a.others@, a.me);
    &&& keeps_work_state(a, b)
    &&& a.participating ==> acts.len() == 0 && keeps_election_state(a, b)
    &&& !a.participating && higher.len() == 0 ==> {
        &&& b.leader == Some(a.me)
        &&& !b.participating
        &&& !b.ok_received
        &&& b.heartbeat_running
        &&& announces_leadership(a.me, a.others@, acts)
    }
    &&& !a.participating && higher.len() > 0 ==> {
        &&& b.leader == a.leader
        &&& b.participating
        &&& !b.ok_received
        &&& b.heartbeat_running == a.heartbeat_running
        &&& calls_election(a.me, higher, acts)
    }
}

/// What the end of the wait for an `Ok` does: with an `Ok`, a second wait for the
/// new leader; without one, `me` becomes the leader, announces it, and the
/// election ends.
pub open spec fn election_timeout_post(a: NodeState, b: NodeState, acts: Seq<Action>) -> bool {
    &&& keeps_work_state(a, b)
    &&& b.ok_received == a.ok_received
    &&& a.ok_received ==> {
        &&& keeps_election_state(a, b)
        &&& acts.len() == 1 && acts[0] is AwaitCoordinator
    }
    &&& !a.ok_received ==> {
        &&& !b.participating
        &&& b.leader == Some(a.me)
        &&& b.heartbeat_running
        &&& announces_leadership(a.me, a.others@, acts)
    }
}

/// What an `Election` from `from` does: a higher node answers `Ok` and starts an
/// election of its own; a lower one ignores it.
pub open spec fn election_message_post(a: NodeState, b: NodeState, from: NodeId, acts: Seq<Action>) -> bool {
    &&& a.me > from ==> {
        &&& acts.len() >= 1
        &&& acts[0] == (Action::Send { to: from, msg: Message::ElectionOk { from: a.me } })
        &&& start_election_post(a, b, acts.drop_first())
    }
    &&& a.me <= from ==> acts.len() == 0 && b == a
}

/// What an `Ok` does: it is remembered.
pub open spec fn ok_message_post(a: NodeState, b: NodeState, acts: Seq<Action>) -> bool {
    &&& acts.len() == 0
    &&& keeps_work_state(a, b)
    &&& b.leader == a.leader
    &&& b.participating == a.participating
    &&& b.heartbeat_running == a.heartbeat_running
    &&& b.ok_received
}

/// What a `Coordinator` announcing `ldr` at time `now` does: `ldr` is the leader,
/// the node no longer counts as taking part in an election (a wait it started
/// still runs to its end), and a node that is not `ldr` stops its heartbeats.
pub open spec fn coordinator_message_post(a: NodeState, b: NodeState, ldr: NodeId, now: u64, acts: Seq<Action>) -> bool {
    &&& b.me == a.me
    &&& b.others == a.others
    &&& b.next_worker == a.next_worker
    &&& b.routes == a.routes
    &&& b.ok_received == a.ok_received
    &&& b.leader == Some(ldr)
    &&& !b.participating
    &&& b.last_heartbeat == Some(now)
    &&& ldr != a.me && a.heartbeat_running ==> !b.heartbeat_running && acts.len() == 1 && acts[0] is StopHeartbeats
    &&& !(ldr != a.me && a.heartbeat_running) ==> b.heartbeat_running == a.heartbeat_running && acts.len() == 0
}

/// What a `Heartbeat` from `from` at time `now` does: `from` is the leader, heard now.
pub open spec fn heartbeat_message_post(a: NodeState, b: NodeState, from: NodeId, now: u64, acts: Seq<Action>) -> bool {
    &&& acts.len() == 0
    &&& b.me == a.me
    &&& b.others == a.others
    &&& b.next_worker == a.next_worker
    &&& b.routes == a.routes
    &&& b.participating == a.participating
    &&& b.ok_received == a.ok_received
    &&& b.heartbeat_running == a.heartbeat_running
    &&& b.leader == Some(from)
    &&& b.last_heartbeat == Some(now)
}

/// The node leads and the request comes from a client.
pub open spec fn leads_client_request(a: NodeState, from: NodeId) -> bool {
    a.leader == Some(a.me) && from == CLIENT_ID
}

/// What an `EncryptRequest` does. The leader, given a client request, records
/// where the answer goes and hands the request to the next worker in round-robin
/// order, or encrypts it itself when it has no other node and answers the client.
/// Any other node encrypts the image and answers the sender.
pub open spec fn encrypt_request_post(
    a: NodeState,
    b: NodeState,
    key: Seq<u8>,
    from: NodeId,
    req_id: Seq<char>,
    image: Seq<u8>,
    client_addr: Option<Seq<char>>,
    acts: Seq<Action>,
) -> bool {
    &&& b.me == a.me
    &&& b.others == a.others
    &&& keeps_election_state(a, b)
    &&& b.last_heartbeat == a.last_heartbeat
    &&& leads_client_request(a, from) ==> b.routes@ == (match client_addr {
        Some(addr) => a.routes@.insert(req_id, addr),
        None => a.routes@,
    })
    &&& !leads_client_request(a, from) ==> b.routes == a.routes && b.next_worker == a.next_worker
    &&& leads_client_request(a, from) && a.others@.len() > 0 ==> {
        &&& b.next_worker == (a.next_worker + 1) % (a.others@.len() as int)
        &&& acts.len() == 1
        &&& acts[0] matches Action::Send { to, msg }
        &&& Some(to) == a.next_worker_node()
        &&& is_forwarded_request(msg, a.me, req_id, image, client_addr)
    }
    &&& leads_client_request(a, from) && a.others@.len() == 0 ==> {
        &&& b.next_worker == a.next_worker
        &&& (image.len() <= MAX_PLAINTEXT_LEN && client_addr is Some) ==> {
            &&& acts.len() == 1
            &&& acts[0] matches Action::ReplyToClient { addr, msg }
            &&& Some(addr@) == client_addr
            &&& is_encrypted_reply(msg, req_id, key, image)
        }
        &&& !(image.len() <= MAX_PLAINTEXT_LEN && client_addr is Some) ==> acts.len() == 0
    }
    &&& !leads_client_request(a, from) ==> {
        &&& acts.len() == 1
        &&& acts[0] matches Action::Send { to, msg }
        &&& to == from
        &&& image.len() <= MAX_PLAINTEXT_LEN ==> is_encrypted_reply(msg, req_id, key, image)
        &&& image.len() > MAX_PLAINTEXT_LEN ==> is_failed_reply(msg, req_id)
    }
}

/// What an `EncryptReply` does. A successful answer with an image that has a
/// recorded client goes on to that client, and the route is dropped; a failed
/// answer drops the route.
pub open spec fn encrypt_reply_post(
    a: NodeState,
    b: NodeState,
    req_id: Seq<char>,
    ok: bool,
    encrypted_image: Option<Seq<u8>>,
    original_filename: Option<Seq<char>>,
    acts: Seq<Action>,
) -> bool {
    let forwards = ok && encrypted_image is Some && a.routes@.contains_key(req_id);
    &&& b.me == a.me
    &&& b.others == a.others
    &&& keeps_election_state(a, b)
    &&& b.last_heartbeat == a.last_heartbeat
    &&& b.next_worker == a.next_worker
    &&& forwards ==> {
        &&& b.routes@ == a.routes@.remove(req_id)
        &&& acts.len() == 1
        &&& acts[0] matches Action::ReplyToClient { addr, msg }
        &&& addr@ == a.routes@[req_id]
        &&& msg matches Message::EncryptReply { req_id: r, ok: o, encrypted_image: e, original_filename: f, error }
        &&& r@ == req_id
        &&& o
        &&& e matches Some(bytes) && Some(bytes@) == encrypted_image
        &&& opt_view(f) == original_filename && error is None
    }
    &&& !ok ==> b.routes@ == a.routes@.remove(req_id) && acts.len() == 0
    &&& ok && !forwards ==> b.routes == a.routes && acts.len() == 0
}

/// `"image."` followed by the extension.
pub fn image_filename(ext: &str) -> (res: String)
    ensures
        res@ == "image."@ + ext@,
{
    let mut res = "image.".to_owned();
    let ghost head = res@;
    let ghost mut seen: int = 0;
    for c in it: ext.chars()
        invariant
            seen == it.index(),
            0 <= seen <= it.seq().len(),
            it.seq() == ext@,
            res@ == head + ext@.take(seen),
    {
        push_char(&mut res, c);
        proof {
            assert(ext@.take(seen + 1) =~= ext@.take(seen).push(c));
            seen = seen + 1;
        }
    }
    proof {
        assert(ext@.take(seen) =~= ext@);
    }
    res
}

impl NodeState {
    pub open spec fn wf(&self) -> bool {
        &&& strictly_ascending(self.others@)
        &&& !self.others@.contains(self.me)
        &&& self.routes.wf()
        &&& (self.others@.len() == 0 || self.next_worker < self.others@.len())
    }

    /// The leader check at time `now` calls an election: outside an election, when
    /// no leader is known or the leader is another node that has been silent for
    /// longer than `LEADER_TIMEOUT_MS`.
    pub open spec fn monitor_calls_election(&self, now: u64) -> bool {
        !self.participating && match self.leader {
            Some(l) => l != self.me && heartbeat_stale(self.last_heartbeat, now),
            None => true,
        }
    }

    /// The worker that the next client request goes to; `None` when this node
    /// has no other node and works itself.
    pub open spec fn next_worker_node(&self) -> Option<NodeId> {
        if self.others@.len() == 0 {
            None
        } else {
            Some(self.others@[self.next_worker as int])
        }
    }

    /// The state of node `me` at start-up, in a cluster of the nodes of `peers`.
    pub fn new<A>(me: NodeId, peers: &HashMap<NodeId, A>) -> (s: Self)
        ensures
            s.wf(),
            s.me == me,
            s.others@.to_set() == candidate_set(peers@.dom(), me),
            s.leader is None,
            !s.participating,
            !s.ok_received,
            s.last_heartbeat is None,
            !s.heartbeat_running,
            s.next_worker == 0,
            s.routes@ == Map::<Seq<char>, Seq<char>>::empty(),
    {
        let others = sorted_candidates(peers, me);
        proof {
            if others@.contains(me) {
                assert(others@.to_set().contains(me));
            }
        }
        NodeState {
            me,
            others,
            leader: None,
            participating: false,
            ok_received: false,
            last_heartbeat: None,
            heartbeat_running: false,
            next_worker: 0,
            routes: RouteTable::new(),
        }
    }

    fn higher(&self) -> (res: Vec<NodeId>)
        ensures
            res@ == higher_nodes(self.others@, self.me),
    {
        let mut res: Vec<NodeId> = Vec::new();
        let mut i: usize = 0;
        while i < self.others.len()
            invariant
                i <= self.others@.len(),
                res@ == self.others@.take(i as int).filter(|id: NodeId| id > self.me),
            decreases self.others.len() - i,
        {
            proof {
                reveal(Seq::filter);
                assert(self.others@.take(i + 1).drop_last() =~= self.others@.take(i as int));
            }
            if self.others[i] > self.me {
                res.push(self.others[i]);
            }
            i = i + 1;
        }
        proof {
            assert(self.others@.take(i as int) =~= self.others@);
        }
        res
    }

    /// Makes this node the leader: announces it to every other node and starts the
    /// heartbeats.
    pub fn become_leader(&mut self) -> (acts: Vec<Action>)
        requires
            old(self).wf(),
        ensures
            final(self).wf(),
            final(self).leader == Some(old(self).me),
            final(self).heartbeat_running,
            announces_leadership(old(self).me, old(self).others@, acts@),
            final(self).me == old(self).me,
            final(self).others == old(self).others,
            final(self).participating == old(self).participating,
            final(self).ok_received == old(self).ok_received,
            final(self).last_heartbeat == old(self).last_heartbeat,
            final(self).next_worker == old(self).next_worker,
            final(self).routes == old(self).routes,
    {
        self.leader = Some(self.me);
        let mut acts: Vec<Action> = Vec::new();
        let mut i: usize = 0;
        while i < self.others.len()
            invariant
                i <= self.others@.len(),
                acts@.len() == i,
                forall|k: int|
                    0 <= k < i ==> acts@[k] == (Action::Send {
                        to: self.others@[k],
                        msg: Message::Coordinator { leader: self.me, term: TERM },
                    }),
            decreases self.others.len() - i,
        {
            acts.push(Action::Send { to: self.others[i], msg: Message::Coordinator { leader: self.me, term: TERM } });
            i = i + 1;
        }
        acts.push(Action::StartHeartbeats { targets: self.others.clone(), period_ms: HEARTBEAT_INTERVAL_MS });
        self.heartbeat_running = true;
        acts
    }

    /// Starts an election (Bully algorithm), unless one is already under way: with
    /// no higher node, this node becomes the leader at once; otherwise it sends
    /// `Election` to every higher node and waits for an `Ok`.
    pub fn start_election(&mut self) -> (acts: Vec<Action>)
        requires
            old(self).wf(),
        ensures
            final(self).wf(),
            start_election_post(*old(self), *final(self), acts@),
    {
        if self.participating {
            return Vec::new();
        }
        self.participating = true;
        self.ok_received = false;
        let higher = self.higher();
        if higher.len() == 0 {
            let acts = self.become_leader();
            self.participating = false;
            return acts;
        }
        let mut acts: Vec<Action> = Vec::new();
        let mut i: usize = 0;
        while i < higher.len()
            invariant
                i <= higher@.len(),
                acts@.len() == i,
                forall|k: int|
                    0 <= k < i ==> acts@[k] == (Action::Send {
                        to: higher@[k],
                        msg: Message::Election { from: self.me },
                    }),
            decreases higher.len() - i,
        {
            acts.push(Action::Send { to: higher[i], msg: Message::Election { from: self.me } });
            i = i + 1;
        }
        acts.push(Action::AwaitOk);
        acts
    }

    /// The wait for an `Ok` of an election this node called is over: with an `Ok`,
    /// wait for the new leader to announce itself; without one, become the leader
    /// and end the election. A `Coordinator` that came during the wait does not
    /// change this.
    pub fn election_timeout(&mut self) -> (acts: Vec<Action>)
        requires
            old(self).wf(),
        ensures
            final(self).wf(),
            election_timeout_post(*old(self), *final(self), acts@),
    {
        if self.ok_received {
            let mut acts: Vec<Action> = Vec::new();
            acts.push(Action::AwaitCoordinator);
            acts
        } else {
            let acts = self.become_leader();
            self.participating = false;
            acts
        }
    }

    /// The wait for the new leader is over: the election ends.
    pub fn election_finished(&mut self)
        requires
            old(self).wf(),
        ensures
            final(self).wf(),
            !final(self).participating,
            keeps_work_state(*old(self), *final(self)),
            final(self).leader == old(self).leader,
            final(self).ok_received == old(self).ok_received,
            final(self).heartbeat_running == old(self).heartbeat_running,
    {
        self.participating = false;
    }

    /// The periodic leader check at time `now`: outside an election, a node with no
    /// known leader, or whose leader (another node) has been silent for longer than
    /// `LEADER_TIMEOUT_MS`, starts an election.
    pub fn tick(&mut self, now: u64) -> (acts: Vec<Action>)
        requires
            old(self).wf(),
        ensures
            final(self).wf(),
            ({
                let calls = old(self).monitor_calls_election(now);
                &&& !calls ==> acts@.len() == 0 && *final(self) == *old(self)
                &&& calls ==> start_election_post(*old(self), *final(self), acts@)
            }),
    {
        if self.participating {
            return Vec::new();
        }
        match self.leader {
            Some(l) => {
                if l != self.me {
                    let stale = match self.last_heartbeat {
                        Some(t) => now >= t && now - t > LEADER_TIMEOUT_MS,
                        None => true,
                    };
                    if stale {
                        return self.start_election();
                    }
                }
                Vec::new()
            },
            None => self.start_election(),
        }
    }

    /// An `Election` from `from`.
    pub fn on_election(&mut self, from: NodeId) -> (acts: Vec<Action>)
        requires
            old(self).wf(),
        ensures
            final(self).wf(),
            election_message_post(*old(self), *final(self), from, acts@),
    {
        if self.me > from {
            let mut acts: Vec<Action> = Vec::new();
            acts.push(Action::Send { to: from, msg: Message::ElectionOk { from: self.me } });
            let mut more = self.start_election();
            let ghost more_view = more@;
            acts.append(&mut more);
            assert(acts@.drop_first() =~= more_view);
            acts
        } else {
            Vec::new()
        }
    }

    /// An `Ok` from a higher node.
    pub fn on_ok(&mut self) -> (acts: Vec<Action>)
        requires
            old(self).wf(),
        ensures
            final(self).wf(),
            ok_message_post(*old(self), *final(self), acts@),
    {
        self.ok_received = true;
        Vec::new()
    }

    /// A `Coordinator` announcing `ldr`, received at time `now`.
    pub fn on_coordinator(&mut self, ldr: NodeId, now: u64) -> (acts: Vec<Action>)
        requires
            old(self).wf(),
        ensures
            final(self).wf(),
            coordinator_message_post(*old(self), *final(self), ldr, now, acts@),
    {
        self.leader = Some(ldr);
        self.participating = false;
        self.last_heartbeat = Some(now);
        let mut acts: Vec<Action> = Vec::new();
        if ldr != self.me && self.heartbeat_running {
            self.heartbeat_running = false;
            acts.push(Action::StopHeartbeats);
        }
        acts
    }

    /// A `Heartbeat` from `from`, received at time `now`.
    pub fn on_heartbeat(&mut self, from: NodeId, now: u64) -> (acts: Vec<Action>)
        requires
            old(self).wf(),
        ensures
            final(self).wf(),
            heartbeat_message_post(*old(self), *final(self), from, now, acts@),
    {
        self.leader = Some(from);
        self.last_heartbeat = Some(now);
        Vec::new()
    }

    /// Encrypts `image` and builds the successful answer to `req_id`, or `None`
    /// when the image is too long to encrypt.
    fn encrypted_reply(net: &Net, req_id: String, image: &Vec<u8>) -> (res: Option<Message>)
        requires
            net.key().len() == KEY_LEN,
        ensures
            res is Some <==> image@.len() <= MAX_PLAINTEXT_LEN,
            res matches Some(msg) ==> is_encrypted_reply(msg, req_id@, net.key(), image@),
    {
        let (ext, _mime) = detect_image_format(image.as_slice());
        match net.encrypt(image.as_slice()) {
            Ok(encrypted) => Some(Message::EncryptReply {
                req_id,
                ok: true,
                encrypted_image: Some(encrypted),
                original_filename: Some(image_filename(ext)),
                error: None,
            }),
            Err(_) => None,
        }
    }

    /// An `EncryptRequest` from `from` (the client identifier for a client).
    pub fn on_encrypt_request(
        &mut self,
        net: &Net,
        from: NodeId,
        req_id: String,
        image: Vec<u8>,
        client_addr: Option<String>,
    ) -> (acts: Vec<Action>)
        requires
            old(self).wf(),
            net.key().len() == KEY_LEN,
        ensures
            final(self).wf(),
            encrypt_request_post(
                *old(self),
                *final(self),
                net.key(),
                from,
                req_id@,
                image@,
                opt_view(client_addr),
                acts@,
            ),
    {
        let is_leader = match self.leader {
            Some(l) => l == self.me,
            None => false,
        };
        let mut acts: Vec<Action> = Vec::new();
        if is_leader && from == CLIENT_ID {
            match &client_addr {
                Some(addr) => self.routes.insert(req_id.clone(), addr.clone()),
                None => {},
            }
            if self.others.len() > 0 {
                let worker = self.others[self.next_worker];
                self.next_worker = (self.next_worker + 1) % self.others.len();
                acts.push(
                    Action::Send {
                        to: worker,
                        msg: Message::EncryptRequest {
                            from: self.me,
                            req_id,
                            user: String::new(),
                            image_bytes: image,
                            client_addr,
                        },
                    },
                );
            } else {
                match Self::encrypted_reply(net, req_id, &image) {
                    Some(reply) => match client_addr {
                        Some(addr) => acts.push(Action::ReplyToClient { addr, msg: reply }),
                        None => {},
                    },
                    None => {},
                }
            }
        } else {
            match Self::encrypted_reply(net, req_id.clone(), &image) {
                Some(reply) => acts.push(Action::Send { to: from, msg: reply }),
                None => {
                    let reply = Message::EncryptReply {
                        req_id,
                        ok: false,
                        encrypted_image: None,
                        original_filename: None,
                        error: Some("aead::Error".to_owned()),
                    };
                    acts.push(Action::Send { to: from, msg: reply });
                },
            }
        }
        acts
    }

    /// An `EncryptReply`: a worker's answer to a request that this node handed on.
    pub fn on_encrypt_reply(
        &mut self,
        req_id: String,
        ok: bool,
        encrypted_image: Option<Vec<u8>>,
        original_filename: Option<String>,
    ) -> (acts: Vec<Action>)
        requires
            old(self).wf(),
        ensures
            final(self).wf(),
            encrypt_reply_post(
                *old(self),
                *final(self),
                req_id@,
                ok,
                match encrypted_image {
                    Some(e) => Some(e@),
                    None => None,
                },
                opt_view(original_filename),
                acts@,
            ),
    {
        let mut acts: Vec<Action> = Vec::new();
        if ok {
            match encrypted_image {
                Some(bytes) => {
                    match self.routes.get(&req_id) {
                        Some(addr) => {
                            self.routes.remove(&req_id);
                            acts.push(
                                Action::ReplyToClient {
                                    addr,
                                    msg: Message::EncryptReply {
                                        req_id,
                                        ok: true,
                                        encrypted_image: Some(bytes),
                                        original_filename,
                                        error: None,
                                    },
                                },
                            );
                        },
                        None => {},
                    }
                },
                None => {},
            }
        } else {
            self.routes.remove(&req_id);
        }
        acts
    }

    /// Handles a message received at time `now`.
    pub fn handle_message(&mut self, net: &Net, msg: Message, now: u64) -> (acts: Vec<Action>)
        requires
            old(self).wf(),
            net.key().len() == KEY_LEN,
        ensures
            final(self).wf(),
            match msg {
                Message::Election { from } => election_message_post(*old(self), *final(self), from, acts@),
                Message::ElectionOk { .. } => ok_message_post(*old(self), *final(self), acts@),
                Message::Coordinator { leader, .. } => coordinator_message_post(
                    *old(self),
                    *final(self),
                    leader,
                    now,
                    acts@,
                ),
                Message::Heartbeat { from, .. } => heartbeat_message_post(
                    *old(self),
                    *final(self),
                    from,
                    now,
                    acts@,
                ),
                Message::EncryptRequest { from, req_id, image_bytes, client_addr, .. } => encrypt_request_post(
                    *old(self),
                    *final(self),
                    net.key(),
                    from,
                    req_id@,
                    image_bytes@,
                    opt_view(client_addr),
                    acts@,
                ),
                Message::EncryptReply { req_id, ok, encrypted_image, original_filename, .. } => encrypt_reply_post(
                    *old(self),
                    *final(self),
                    req_id@,
                    ok,
                    match encrypted_image {
                        Some(e) => Some(e@),
                        None => None,
                    },
                    opt_view(original_filename),
                    acts@,
                ),
                _ => acts@.len() == 0 && *final(self) == *old(self),
            },
    {
        match msg {
            Message::Election { from } => self.on_election(from),
            Message::ElectionOk { .. } => self.on_ok(),
            Message::Coordinator { leader, .. } => self.on_coordinator(leader, now),
            Message::Heartbeat { from, .. } => self.on_heartbeat(from, now),
            Message::EncryptRequest { from, req_id, image_bytes, client_addr, .. } => {
                self.on_encrypt_request(net, from, req_id, image_bytes, client_addr)
            },
            Message::EncryptReply { req_id, ok, encrypted_image, original_filename, .. } => {
                self.on_encrypt_reply(req_id, ok, encrypted_image, original_filename)
            },
            _ => Vec::new(),
        }
    }
}

/// Bully rule: a node above every other node that starts an election becomes the
/// leader at once and announces itself to all other nodes.
pub proof fn lemma_highest_node_becomes_leader(a: NodeState, b: NodeState, acts: Seq<Action>)
    requires
        a.wf(),
        !a.participating,
        forall|i: int| 0 <= i < a.others@.len() ==> a.others@[i] < a.me,
        start_election_post(a, b, acts),
    ensures
        b.leader == Some(a.me),
        !b.participating,
        announces_leadership(a.me, a.others@, acts),
{
    lemma_none_higher(a.others@, a.me);
}

proof fn lemma_none_higher(s: Seq<NodeId>, me: NodeId)
    requires
        forall|i: int| 0 <= i < s.len() ==> s[i] < me,
    ensures
        higher_nodes(s, me).len() == 0,
    decreases s.len(),
{
    reveal(Seq::filter);
    if s.len() > 0 {
        lemma_none_higher(s.drop_last(), me);
    }
}

/// Bully rule: a node below some other node that starts an election does not take
/// the lead; it calls an election among the nodes above it.
pub proof fn lemma_lower_node_calls_higher(a: NodeState, b: NodeState, acts: Seq<Action>, higher: NodeId)
    requires
        a.wf(),
        !a.participating,
        a.others@.contains(higher),
        a.me < higher,
        start_election_post(a, b, acts),
    ensures
        b.leader == a.leader,
        b.participating,
        calls_election(a.me, higher_nodes(a.others@, a.me), acts),
        higher_nodes(a.others@, a.me).contains(higher),
{
    broadcast use vstd::seq_lib::group_filter_ensures;

    let i = choose|i: int| 0 <= i < a.others@.len() && a.others@[i] == higher;
    assert(a.others@.filter(|id: NodeId| id > a.me).contains(a.others@[i]));
}

/// A follower that has just heard a `Coordinator` does not call an election at any
/// leader check within `LEADER_TIMEOUT_MS` after it.
pub proof fn lemma_announced_leader_not_challenged(
    a: NodeState,
    b: NodeState,
    ldr: NodeId,
    at: u64,
    acts: Seq<Action>,
    now: u64,
)
    requires
        coordinator_message_post(a, b, ldr, at, acts),
        ldr != a.me,
        at <= now <= at + LEADER_TIMEOUT_MS,
    ensures
        !b.monitor_calls_election(now),
{
}

/// A client's answer goes out once: after a reply for `req_id` was passed on to its
/// client, a second reply for the same request passes nothing on.
pub proof fn lemma_reply_forwarded_once(
    a: NodeState,
    b: NodeState,
    c: NodeState,
    req_id: Seq<char>,
    ok1: bool,
    image1: Option<Seq<u8>>,
    name1: Option<Seq<char>>,
    acts1: Seq<Action>,
    ok2: bool,
    image2: Option<Seq<u8>>,
    name2: Option<Seq<char>>,
    acts2: Seq<Action>,
)
    requires
        encrypt_reply_post(a, b, req_id, ok1, image1, name1, acts1),
        acts1.len() > 0,
        encrypt_reply_post(b, c, req_id, ok2, image2, name2, acts2),
    ensures
        acts2.len() == 0,
        !c.routes@.contains_key(req_id),
{
}

proof fn lemma_positions_advance(states: Seq<NodeState>, n: nat, k: int)
    requires
        n > 0,
        0 <= k < states.len(),
        states[0].next_worker < n,
        forall|j: int|
            0 <= j < states.len() - 1 ==> #[trigger] states[j + 1].next_worker == (states[j].next_worker + 1) % (
            n as int),
    ensures
        states[k].next_worker == (states[0].next_worker + k) % (n as int),
    decreases k,
{
    if k == 0 {
        vstd::arithmetic::div_mod::lemma_small_mod(states[0].next_worker as nat, n);
    } else {
        lemma_positions_advance(states, n, k - 1);
        let w = states[0].next_worker as int;
        let j = k - 1;
        assert(states[j + 1].next_worker == (states[j].next_worker + 1) % (n as int));
        assert(j + 1 == k);
        vstd::arithmetic::div_mod::lemma_add_mod_noop_right(1, w + k - 1, n as int);
        assert(1 + (w + k - 1) == w + k);
    }
}

/// Fair hand-out: over `n` successive client requests at a leader with `n` other
/// nodes, where each request moves the round-robin position on by one, every other
/// node is the chosen worker exactly once.
pub proof fn lemma_leader_hands_out_fairly(states: Seq<NodeState>)
    requires
        states.len() > 0,
        states[0].wf(),
        states[0].others@.len() > 0,
        states.len() == states[0].others@.len(),
        forall|j: int| 0 <= j < states.len() ==> #[trigger] states[j].others == states[0].others,
        forall|j: int|
            0 <= j < states.len() - 1 ==> #[trigger] states[j + 1].next_worker == (states[j].next_worker + 1)
                % (states[0].others@.len() as int),
    ensures
        forall|k1: int, k2: int|
            0 <= k1 < states.len() && 0 <= k2 < states.len() && k1 != k2
                ==> #[trigger] states[k1].next_worker_node() != #[trigger] states[k2].next_worker_node(),
        forall|id: NodeId|
            states[0].others@.contains(id) ==> exists|k: int|
                0 <= k < states.len() && #[trigger] states[k].next_worker_node() == Some(id),
{
    let n = states[0].others@.len();
    let w = states[0].next_worker as nat;
    let others = states[0].others@;
    assert forall|k: int| 0 <= k < states.len() implies states[k].next_worker == (w + k) % (n as int)
        && states[k].next_worker < n && #[trigger] states[k].next_worker_node() == Some(
        others[states[k].next_worker as int],
    ) by {
        lemma_positions_advance(states, n, k);
        vstd::arithmetic::div_mod::lemma_mod_bound((w + k) as int, n as int);
        assert(states[k].others == states[0].others);
    }
    assert forall|k1: int, k2: int|
        0 <= k1 < states.len() && 0 <= k2 < states.len() && k1 != k2
            implies #[trigger] states[k1].next_worker_node() != #[trigger] states[k2].next_worker_node() by {
        let p1 = states[k1].next_worker as int;
        let p2 = states[k2].next_worker as int;
        if p1 == p2 {
            lemma_consecutive_residues(w, n, k1 as nat, k2 as nat);
        } else {
            if p1 < p2 {
                assert(others[p1] < others[p2]);
            } else {
                assert(others[p2] < others[p1]);
            }
        }
    }
    assert forall|id: NodeId| others.contains(id) implies exists|k: int|
        0 <= k < states.len() && #[trigger] states[k].next_worker_node() == Some(id) by {
        let j = choose|j: int| 0 <= j < others.len() && others[j] == id;
        let k = lemma_residue_reached(w, n, j as nat);
        assert(states[k as int].next_worker_node() == Some(id));
    }
}

/// A pending election that gets no `Ok` makes `me` the leader when its wait ends,
/// and `me` announces it, even when a `Coordinator` from another node came during
/// the wait.
pub proof fn lemma_unanswered_election_takes_lead(
    a: NodeState,
    b: NodeState,
    c: NodeState,
    ldr: NodeId,
    at: u64,
    acts1: Seq<Action>,
    acts2: Seq<Action>,
)
    requires
        !a.ok_received,
        coordinator_message_post(a, b, ldr, at, acts1),
        election_timeout_post(b, c, acts2),
    ensures
        c.leader == Some(a.me),
        !c.participating,
        announces_leadership(a.me, a.others@, acts2),
{
}

/// One election at a time: a node that has called an election takes part in it,
/// and starting another election meanwhile does nothing.
pub proof fn lemma_one_election_at_a_time(
    a: NodeState,
    b: NodeState,
    acts1: Seq<Action>,
    c: NodeState,
    acts2: Seq<Action>,
)
    requires
        !a.participating,
        higher_nodes(a.others@, a.me).len() > 0,
        start_election_post(a, b, acts1),
        start_election_post(b, c, acts2),
    ensures
        b.participating,
        acts2.len() == 0,
        keeps_election_state(b, c),
{
}

} // verus!
