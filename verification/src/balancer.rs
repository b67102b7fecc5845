use std::collections::HashMap;
use vstd::prelude::*;

use crate::message::NodeId;

verus! {

broadcast use vstd::std_specs::hash::group_hash_axioms;

/// The nodes a balancer may choose from: every configured node but `me`.
pub open spec fn candidate_set(peers: Set<NodeId>, me: NodeId) -> Set<NodeId> {
    peers.remove(me)
}

/// The position of `x` among the members of `s` in ascending order: the number of
/// members of `s` that are smaller than `x`.
pub open spec fn rank(s: Set<NodeId>, x: NodeId) -> nat {
    s.filter(|y: NodeId| y < x).len()
}

pub open spec fn strictly_ascending(s: Seq<NodeId>) -> bool {
    forall|i: int, j: int| 0 <= i < j < s.len() ==> s[i] < s[j]
}

/// In a strictly ascending sequence, the element at index `i` has exactly `i`
/// smaller members.
pub proof fn lemma_rank_of_ascending(s: Seq<NodeId>, i: int)
    requires
        strictly_ascending(s),
        0 <= i < s.len(),
    ensures
        rank(s.to_set(), s[i]) == i,
{
    let smaller = s.to_set().filter(|y: NodeId| y < s[i]);
    let prefix = s.take(i);
    assert forall|y: NodeId| smaller.contains(y) <==> prefix.to_set().contains(y) by {
        if smaller.contains(y) {
            let k = choose|k: int| 0 <= k < s.len() && s[k] == y;
            if k >= i {
                assert(s[i] <= s[k]);
            }
            assert(prefix[k] == y);
        }
        if prefix.to_set().contains(y) {
            let k = choose|k: int| 0 <= k < prefix.len() && prefix[k] == y;
            assert(s[k] == y);
        }
    }
    assert(smaller =~= prefix.to_set());
    assert(prefix.no_duplicates()) by {
        assert forall|a: int, b: int| 0 <= a < prefix.len() && 0 <= b < prefix.len() && a != b
            implies prefix[a] != prefix[b] by {
            if a < b {
                assert(s[a] < s[b]);
            } else {
                assert(s[b] < s[a]);
            }
        }
    }
    prefix.unique_seq_to_set();
}

/// A strictly ascending sequence holds each of its members once.
pub proof fn lemma_ascending_len(s: Seq<NodeId>)
    requires
        strictly_ascending(s),
    ensures
        s.to_set().len() == s.len(),
{
    assert(s.no_duplicates()) by {
        assert forall|a: int, b: int| 0 <= a < s.len() && 0 <= b < s.len() && a != b
            implies s[a] != s[b] by {
            if a < b {
                assert(s[a] < s[b]);
            } else {
                assert(s[b] < s[a]);
            }
        }
    }
    s.unique_seq_to_set();
}

/// Inserts `x` into a strictly ascending vector that does not hold it yet.
fn insert_ascending(v: &mut Vec<NodeId>, x: NodeId)
    requires
        strictly_ascending(old(v)@),
        !old(v)@.contains(x),
    ensures
        strictly_ascending(final(v)@),
        final(v)@.to_set() == old(v)@.to_set().insert(x),
{
    let mut pos: usize = 0;
    while pos < v.len() && v[pos] < x
        invariant
            pos <= v.len(),
            forall|k: int| 0 <= k < pos ==> v@[k] < x,
        decreases v.len() - pos,
    {
        pos = pos + 1;
    }
    let ghost before = v@;
    v.insert(pos, x);
    proof {
        assert forall|k: int| pos <= k < before.len() implies x < before[k] by {
            assert(before[pos as int] >= x);
            assert(before[pos as int] != x);
            if k > pos {
                assert(before[pos as int] < before[k]);
            }
        }
        assert forall|a: int, b: int| 0 <= a < b < v@.len() implies v@[a] < v@[b] by {
            if b < pos {
            } else if a < pos && b == pos {
            } else if a < pos {
                assert(v@[b] == before[b - 1]);
            } else if a == pos {
                assert(v@[b] == before[b - 1]);
            } else {
                assert(v@[a] == before[a - 1]);
                assert(v@[b] == before[b - 1]);
            }
        }
        assert forall|y: NodeId| v@.to_set().contains(y) <==> before.to_set().insert(x).contains(y) by {
            if v@.to_set().contains(y) {
                let k = choose|k: int| 0 <= k < v@.len() && v@[k] == y;
                if k < pos {
                    assert(before[k] == y);
                } else if k > pos {
                    assert(before[k - 1] == y);
                }
            }
            if before.to_set().contains(y) && y != x {
                let k = choose|k: int| 0 <= k < before.len() && before[k] == y;
                if k < pos {
                    assert(v@[k] == y);
                } else {
                    assert(v@[k + 1] == y);
                }
            }
            if y == x {
                assert(v@[pos as int] == x);
            }
        }
        assert(v@.to_set() =~= before.to_set().insert(x));
    }
}

/// The identifiers of `peers` other than `me`, in ascending order.
pub fn sorted_candidates<A>(peers: &HashMap<NodeId, A>, me: NodeId) -> (res: Vec<NodeId>)
    ensures
        strictly_ascending(res@),
        res@.to_set() == candidate_set(peers@.dom(), me),
        res@.len() == candidate_set(peers@.dom(), me).len(),
{
    let mut res: Vec<NodeId> = Vec::new();
    for id in it: peers.keys()
        invariant
            strictly_ascending(res@),
            it.seq().unref().to_set() == peers@.dom(),
            it.seq().no_duplicates(),
            forall|y: NodeId|
                res@.to_set().contains(y) <==> (exists|k: int|
                    0 <= k < it.index() && *it.seq()[k] == y && y != me),
            it.index() == it.seq().len() ==> res@.to_set() == candidate_set(peers@.dom(), me),
    {
        let ghost idx = it.index();
        if *id != me {
            assert(!res@.contains(*id)) by {
                if res@.contains(*id) {
                    assert(res@.to_set().contains(*id));
                    let k = choose|k: int| 0 <= k < idx && *it.seq()[k] == *id;
                    assert(it.seq()[k] == it.seq()[idx]);
                }
            }
            let ghost before = res@;
            insert_ascending(&mut res, *id);
            assert forall|y: NodeId|
                res@.to_set().contains(y) <==> (exists|k: int|
                    0 <= k < idx + 1 && *it.seq()[k] == y && y != me) by {
                if res@.to_set().contains(y) && y != *id {
                    assert(before.to_set().contains(y));
                }
                if y == *id {
                    assert(*it.seq()[idx] == y);
                }
            }
        } else {
            assert forall|y: NodeId|
                res@.to_set().contains(y) <==> (exists|k: int|
                    0 <= k < idx + 1 && *it.seq()[k] == y && y != me) by {
                if exists|k: int| 0 <= k < idx + 1 && *it.seq()[k] == y && y != me {
                    let k = choose|k: int| 0 <= k < idx + 1 && *it.seq()[k] == y && y != me;
                    if k == idx {
                        assert(y == me);
                    }
                }
            }
        }
        assert(idx + 1 == it.seq().len() ==> res@.to_set() =~= candidate_set(peers@.dom(), me)) by {
            if idx + 1 == it.seq().len() {
                assert forall|y: NodeId| res@.to_set().contains(y) <==> candidate_set(peers@.dom(), me).contains(y) by {
                    let keys = it.seq().unref();
                    if candidate_set(peers@.dom(), me).contains(y) {
                        assert(keys.to_set().contains(y));
                        let k = choose|k: int| 0 <= k < keys.len() && keys[k] == y;
                        assert(*it.seq()[k] == y);
                    }
                    if res@.to_set().contains(y) {
                        let k = choose|k: int| 0 <= k < idx + 1 && *it.seq()[k] == y && y != me;
                        assert(keys[k] == y);
                        assert(keys.to_set().contains(y));
                    }
                }
                assert(res@.to_set() =~= candidate_set(peers@.dom(), me));
            }
        }
    }
    proof {
        lemma_ascending_len(res@);
    }
    res
}

/// Ranks order the candidates: every candidate has a rank below their number, and a
/// smaller identifier has a smaller rank.
pub proof fn lemma_rank_order(s: Set<NodeId>, a: NodeId, b: NodeId)
    requires
        s.finite(),
        s.contains(a),
        s.contains(b),
    ensures
        rank(s, a) < s.len(),
        a < b ==> rank(s, a) < rank(s, b),
{
    let fa = s.filter(|y: NodeId| y < a);
    let fb = s.filter(|y: NodeId| y < b);
    assert(fa.subset_of(s.remove(a)));
    vstd::set_lib::lemma_len_subset(fa, s.remove(a));
    if a < b {
        assert(fa.insert(a).subset_of(fb));
        vstd::set_lib::lemma_len_subset(fa.insert(a), fb);
    }
}

pub(crate) proof fn lemma_consecutive_residues(t: nat, n: nat, k1: nat, k2: nat)
    requires
        n > 0,
        k1 < n,
        k2 < n,
        (t + k1) % n == (t + k2) % n,
    ensures
        k1 == k2,
{
    let x1 = (t + k1) as int;
    let x2 = (t + k2) as int;
    let d = n as int;
    vstd::arithmetic::div_mod::lemma_fundamental_div_mod(x1, d);
    vstd::arithmetic::div_mod::lemma_fundamental_div_mod(x2, d);
    let q1 = x1 / d;
    let q2 = x2 / d;
    assert(d * (q1 - q2) == k1 - k2) by (nonlinear_arith)
        requires
            x1 == d * q1 + x1 % d,
            x2 == d * q2 + x2 % d,
            x1 % d == x2 % d,
            x1 - x2 == k1 - k2,
    ;
    if q1 > q2 {
        assert(d * (q1 - q2) >= d) by (nonlinear_arith)
            requires
                q1 - q2 >= 1,
                d > 0,
        ;
    } else if q1 < q2 {
        assert(d * (q2 - q1) >= d) by (nonlinear_arith)
            requires
                q2 - q1 >= 1,
                d > 0,
        ;
        assert(d * (q1 - q2) == -(d * (q2 - q1))) by (nonlinear_arith);
    }
}

pub(crate) proof fn lemma_residue_reached(t: nat, n: nat, r: nat) -> (k: nat)
    requires
        n > 0,
        r < n,
    ensures
        k < n,
        (t + k) % n == r,
{
    let d = n as int;
    vstd::arithmetic::div_mod::lemma_fundamental_div_mod(t as int, d);
    let q = (t as int) / d;
    let rem = (t as int) % d;
    assert(0 <= rem < d);
    if r >= rem {
        let k = (r - rem) as nat;
        assert((t + k) as int == q * d + r) by (nonlinear_arith)
            requires
                t == d * q + rem,
                k == r - rem,
        ;
        vstd::arithmetic::div_mod::lemma_fundamental_div_mod_converse_mod((t + k) as int, d, q, r as int);
        k
    } else {
        let k = (r + n - rem) as nat;
        assert((t + k) as int == (q + 1) * d + r) by (nonlinear_arith)
            requires
                t == d * q + rem,
                k == r + d - rem,
        ;
        vstd::arithmetic::div_mod::lemma_fundamental_div_mod_converse_mod(
            (t + k) as int,
            d,
            q + 1,
            r as int,
        );
        k
    }
}

/// The candidate position that a ticket names when there are `n` candidates.
pub open spec fn slot(ticket: nat, n: nat) -> nat {
    ticket % n
}

/// Round-robin fairness: among any `n` consecutive tickets, where `n` is the number
/// of candidates, every candidate is named by exactly one ticket.
pub proof fn lemma_round_robin_fair(cands: Set<NodeId>, t: nat)
    requires
        cands.finite(),
        cands.len() > 0,
    ensures
        forall|id: NodeId|
            cands.contains(id) ==> exists|tk: nat|
                t <= tk < t + cands.len() && rank(cands, id) == #[trigger] slot(tk, cands.len()),
        forall|tk1: nat, tk2: nat|
            t <= tk1 < t + cands.len() && t <= tk2 < t + cands.len() && tk1 != tk2
                ==> #[trigger] slot(tk1, cands.len()) != #[trigger] slot(tk2, cands.len()),
{
    let n = cands.len();
    assert forall|id: NodeId| cands.contains(id) implies exists|tk: nat|
        t <= tk < t + n && rank(cands, id) == #[trigger] slot(tk, n) by {
        lemma_rank_order(cands, id, id);
        let k = lemma_residue_reached(t, n, rank(cands, id));
        assert(slot(t + k, n) == rank(cands, id));
    }
    assert forall|tk1: nat, tk2: nat|
        t <= tk1 < t + n && t <= tk2 < t + n && tk1 != tk2
            implies #[trigger] slot(tk1, n) != #[trigger] slot(tk2, n) by {
        if slot(tk1, n) == slot(tk2, n) {
            lemma_consecutive_residues(t, n, (tk1 - t) as nat, (tk2 - t) as nat);
        }
    }
}

/// Round-robin peer selection.
///
/// The candidates are the configured nodes other than the caller, in ascending
/// order; each call takes the next ticket from the counter and returns the
/// candidate at position `ticket % candidates`.
pub struct RoundRobin {
    counter: usize,
}

impl View for RoundRobin {
    type V = usize;

    /// The ticket that the next successful `pick` uses.
    closed spec fn view(&self) -> usize {
        self.counter
    }
}

/// The ticket after `t`: the counter wraps to zero after `usize::MAX`.
pub open spec fn next_ticket(t: usize) -> usize {
    if t == usize::MAX {
        0
    } else {
        (t + 1) as usize
    }
}

impl RoundRobin {
    pub fn new() -> (rr: Self)
        ensures
            rr@ == 0,
    {
        RoundRobin { counter: 0 }
    }

    /// Picks the next peer, other than `me`, in round-robin order.
    ///
    /// Returns `None`, and takes no ticket, when `peers` names no node but `me`.
    pub fn pick<A>(&mut self, peers: &HashMap<NodeId, A>, me: NodeId) -> (res: Option<NodeId>)
        ensures
            ({
                let cands = candidate_set(peers@.dom(), me);
                &&& cands.len() == 0 ==> res is None && final(self)@ == old(self)@
                &&& cands.len() > 0 ==> {
                    &&& res matches Some(id)
                    &&& cands.contains(id)
                    &&& rank(cands, id) == slot(old(self)@ as nat, cands.len())
                    &&& final(self)@ == next_ticket(old(self)@)
                }
            }),
    {
        let candidates = sorted_candidates(peers, me);
        if candidates.len() == 0 {
            return None;
        }
        let n = candidates.len();
        let prev = self.counter;
        self.counter = prev.wrapping_add(1);
        let idx = prev % n;
        let chosen = candidates[idx];
        proof {
            lemma_rank_of_ascending(candidates@, idx as int);
            assert(candidates@.to_set().contains(chosen));
        }
        Some(chosen)
    }
}

/// The number of requests recorded for `id`; a node that has none recorded counts as 0.
pub open spec fn load_of(loads: Map<NodeId, usize>, id: NodeId) -> nat {
    if loads.contains_key(id) {
        loads[id] as nat
    } else {
        0
    }
}

/// The loads after one more request was recorded for `id`.
pub open spec fn recorded(loads: Map<NodeId, usize>, id: NodeId) -> Map<NodeId, usize> {
    loads.insert(id, (load_of(loads, id) + 1) as usize)
}

/// `a` comes before `b` in the least-load order: a smaller load, or the same load
/// and a smaller identifier.
pub open spec fn less_loaded(loads: Map<NodeId, usize>, a: NodeId, b: NodeId) -> bool {
    load_of(loads, a) < load_of(loads, b) || (load_of(loads, a) == load_of(loads, b) && a < b)
}

/// Least-load peer selection: tracks how many requests each node was given and
/// picks the candidate with the fewest, the smallest identifier among equals.
pub struct LeastLoad {
    loads: HashMap<NodeId, usize>,
}

impl View for LeastLoad {
    type V = Map<NodeId, usize>;

    closed spec fn view(&self) -> Map<NodeId, usize> {
        self.loads@
    }
}

impl LeastLoad {
    pub fn new() -> (lb: Self)
        ensures
            lb@ == Map::<NodeId, usize>::empty(),
    {
        LeastLoad { loads: HashMap::new() }
    }

    fn recorded_load(&self, id: NodeId) -> (res: usize)
        ensures
            res == load_of(self@, id),
    {
        match self.loads.get(&id) {
            Some(l) => *l,
            None => 0,
        }
    }

    /// Picks the peer, other than `me`, with the least recorded load; among
    /// peers with equal load, the one with the smallest identifier.
    ///
    /// Returns `None` when `peers` names no node but `me`.
    pub fn pick<A>(&self, peers: &HashMap<NodeId, A>, me: NodeId) -> (res: Option<NodeId>)
        ensures
            ({
                let cands = candidate_set(peers@.dom(), me);
                &&& res is None <==> cands.len() == 0
                &&& res matches Some(id) ==> least_loaded_in(self@, cands, id)
            }),
    {
        let candidates = sorted_candidates(peers, me);
        if candidates.len() == 0 {
            return None;
        }
        let mut best = candidates[0];
        let mut best_load = self.recorded_load(best);
        let mut i: usize = 1;
        assert(candidates@.subrange(0, 1)[0] == best);
        while i < candidates.len()
            invariant
                1 <= i <= candidates@.len(),
                strictly_ascending(candidates@),
                best_load == load_of(self@, best),
                candidates@.subrange(0, i as int).contains(best),
                forall|k: int|
                    0 <= k < i && candidates@[k] != best ==> less_loaded(self@, best, candidates@[k]),
            decreases candidates.len() - i,
        {
            let c = candidates[i];
            let l = self.recorded_load(c);
            let ghost old_best = best;
            if l < best_load {
                best = c;
                best_load = l;
                assert forall|k: int| 0 <= k < i + 1 && candidates@[k] != best implies less_loaded(
                    self@,
                    best,
                    candidates@[k],
                ) by {
                    if candidates@[k] != old_best {
                        assert(less_loaded(self@, old_best, candidates@[k]));
                    }
                }
            }
            assert(candidates@.subrange(0, i + 1).contains(best)) by {
                if best == c {
                    assert(candidates@.subrange(0, i + 1)[i as int] == c);
                } else {
                    let k = choose|k: int| 0 <= k < i && candidates@.subrange(0, i as int)[k] == best;
                    assert(candidates@.subrange(0, i + 1)[k] == best);
                }
            }
            assert forall|k: int| 0 <= k < i + 1 && candidates@[k] != best implies less_loaded(
                self@,
                best,
                candidates@[k],
            ) by {
                if k == i && best != c {
                    let j = choose|j: int| 0 <= j < i && candidates@.subrange(0, i as int)[j] == best;
                    assert(candidates@[j] < candidates@[k]);
                }
            }
            i = i + 1;
        }
        proof {
            assert(candidates@.subrange(0, i as int) =~= candidates@);
            assert forall|other: NodeId|
                candidate_set(peers@.dom(), me).contains(other) && other != best implies less_loaded(
                self@,
                best,
                other,
            ) by {
                assert(candidates@.to_set().contains(other));
                let k = choose|k: int| 0 <= k < candidates@.len() && candidates@[k] == other;
            }
            assert(candidates@.to_set().contains(best));
        }
        Some(best)
    }

    /// Records that one more request was assigned to `node_id`.
    pub fn record_request(&mut self, node_id: NodeId)
        requires
            load_of(old(self)@, node_id) < usize::MAX,
        ensures
            final(self)@ == recorded(old(self)@, node_id),
    {
        let count = self.loads.entry(node_id).or_insert(0);
        *count += 1;
    }

    /// A copy of the recorded loads.
    pub fn get_loads(&self) -> (res: HashMap<NodeId, usize>)
        ensures
            res@ == self@,
    {
        self.loads.clone()
    }

    /// Sets the recorded load of `node_id` to zero.
    pub fn reset_node_load(&mut self, node_id: NodeId)
        ensures
            final(self)@ == old(self)@.insert(node_id, 0),
    {
        self.loads.insert(node_id, 0);
    }

    /// Forgets every recorded load.
    pub fn reset_all_loads(&mut self)
        ensures
            final(self)@ == Map::<NodeId, usize>::empty(),
    {
        self.loads.clear();
    }
}

/// Least-load tie-breaking: when every candidate carries the same load (for
/// instance when none has any recorded), the least-load choice is the smallest
/// candidate.
pub proof fn lemma_equal_loads_pick_smallest(loads: Map<NodeId, usize>, cands: Set<NodeId>, id: NodeId)
    requires
        cands.contains(id),
        forall|d: NodeId| cands.contains(d) ==> load_of(loads, d) == load_of(loads, id),
        forall|other: NodeId| cands.contains(other) && other != id ==> less_loaded(loads, id, other),
    ensures
        forall|other: NodeId| cands.contains(other) ==> id <= other,
{
}

/// `c` is the least-load choice among `cands`.
pub open spec fn least_loaded_in(loads: Map<NodeId, usize>, cands: Set<NodeId>, c: NodeId) -> bool {
    &&& cands.contains(c)
    &&& forall|other: NodeId| cands.contains(other) && other != c ==> less_loaded(loads, c, other)
}

/// Recording a request for a node that was not chosen never changes the choice.
pub proof fn lemma_load_elsewhere_keeps_choice(loads: Map<NodeId, usize>, cands: Set<NodeId>, c: NodeId, x: NodeId)
    requires
        least_loaded_in(loads, cands, c),
        x != c,
        load_of(loads, x) < usize::MAX,
    ensures
        least_loaded_in(recorded(loads, x), cands, c),
{
    let after = recorded(loads, x);
    assert(load_of(after, c) == load_of(loads, c));
    assert forall|other: NodeId| cands.contains(other) && other != c implies less_loaded(after, c, other) by {
        assert(less_loaded(loads, c, other));
        if other != x {
            assert(load_of(after, other) == load_of(loads, other));
        }
    }
}

/// The order in which requests are recorded does not matter.
pub proof fn lemma_record_commutes(loads: Map<NodeId, usize>, a: NodeId, b: NodeId)
    requires
        load_of(loads, a) + 2 <= usize::MAX,
        load_of(loads, b) + 2 <= usize::MAX,
    ensures
        recorded(recorded(loads, a), b) == recorded(recorded(loads, b), a),
{
    assert(recorded(recorded(loads, a), b) =~= recorded(recorded(loads, b), a));
}

/// The loads of least-load balancing when every choice is recorded: `low` for
/// every candidate, plus one for the `done` smallest.
pub open spec fn staircase(loads: Map<NodeId, usize>, cands: Set<NodeId>, low: nat, done: nat) -> bool {
    forall|d: NodeId|
        cands.contains(d) ==> load_of(loads, d) == if rank(cands, d) < done { low + 1 } else { low }
}

/// With every choice recorded, least-load balancing goes round the candidates in
/// ascending order, like round-robin: from a staircase of `done` steps, the choice
/// is the candidate of rank `done`, and recording it gives the staircase of
/// `done + 1` steps (or, once all are one higher, of no step).
pub proof fn lemma_least_load_goes_round(
    loads: Map<NodeId, usize>,
    cands: Set<NodeId>,
    low: nat,
    done: nat,
    c: NodeId,
)
    requires
        cands.finite(),
        done < cands.len(),
        staircase(loads, cands, low, done),
        cands.contains(c),
        rank(cands, c) == done,
        low + 1 < usize::MAX,
    ensures
        least_loaded_in(loads, cands, c),
        done + 1 < cands.len() ==> staircase(recorded(loads, c), cands, low, done + 1),
        done + 1 == cands.len() ==> staircase(recorded(loads, c), cands, low + 1, 0),
{
    assert forall|other: NodeId| cands.contains(other) && other != c implies less_loaded(loads, c, other) by {
        lemma_rank_order(cands, c, other);
        lemma_rank_order(cands, other, c);
    }
    let after = recorded(loads, c);
    assert forall|d: NodeId| cands.contains(d) implies load_of(after, d) == if rank(cands, d) < done + 1 {
        low + 1
    } else {
        low
    } by {
        lemma_rank_order(cands, d, c);
        lemma_rank_order(cands, c, d);
    }
    if done + 1 == cands.len() {
        assert forall|d: NodeId| cands.contains(d) implies load_of(after, d) == if rank(cands, d) < 0 {
            low + 2
        } else {
            low + 1
        } by {
            lemma_rank_order(cands, d, d);
        }
    }
}

/// `n` successive round-robin choices, where each takes the next ticket without
/// wrapping, name every candidate exactly once.
pub proof fn lemma_round_robin_picks_each_once(cands: Set<NodeId>, tickets: Seq<usize>, picks: Seq<NodeId>)
    requires
        cands.finite(),
        cands.len() > 0,
        tickets.len() == cands.len(),
        picks.len() == cands.len(),
        tickets[0] + cands.len() <= usize::MAX + 1,
        forall|k: int|
            0 <= k < picks.len() ==> cands.contains(#[trigger] picks[k]) && rank(cands, picks[k]) == slot(
                tickets[k] as nat,
                cands.len(),
            ),
        forall|k: int| 0 <= k < tickets.len() - 1 ==> #[trigger] tickets[k + 1] == next_ticket(tickets[k]),
    ensures
        forall|k1: int, k2: int|
            0 <= k1 < picks.len() && 0 <= k2 < picks.len() && k1 != k2 ==> #[trigger] picks[k1] != #[trigger] picks[k2],
        forall|id: NodeId| cands.contains(id) ==> exists|k: int| 0 <= k < picks.len() && #[trigger] picks[k] == id,
{
    let n = cands.len();
    let t = tickets[0] as nat;
    assert forall|k: int| 0 <= k < tickets.len() implies #[trigger] tickets[k] == t + k by {
        lemma_tickets_advance(tickets, k);
    }
    lemma_round_robin_fair(cands, t);
    assert forall|k1: int, k2: int|
        0 <= k1 < picks.len() && 0 <= k2 < picks.len() && k1 != k2 implies #[trigger] picks[k1] != #[trigger] picks[k2] by {
        assert(tickets[k1] == t + k1 && tickets[k2] == t + k2);
        assert(slot((t + k1) as nat, n) != slot((t + k2) as nat, n));
    }
    assert forall|id: NodeId| cands.contains(id) implies exists|k: int| 0 <= k < picks.len() && #[trigger] picks[k] == id by {
        let tk = choose|tk: nat| t <= tk < t + n && rank(cands, id) == #[trigger] slot(tk, n);
        let k = tk - t;
        assert(tickets[k] == tk);
        let p = picks[k];
        assert(rank(cands, p) == rank(cands, id));
        lemma_rank_order(cands, p, id);
        lemma_rank_order(cands, id, p);
    }
}

proof fn lemma_tickets_advance(tickets: Seq<usize>, k: int)
    requires
        0 <= k < tickets.len(),
        tickets[0] + tickets.len() <= usize::MAX + 1,
        forall|j: int| 0 <= j < tickets.len() - 1 ==> #[trigger] tickets[j + 1] == next_ticket(tickets[j]),
    ensures
        tickets[k] == tickets[0] + k,
    decreases k,
{
    if k > 0 {
        lemma_tickets_advance(tickets, k - 1);
        let j = k - 1;
        assert(tickets[j + 1] == next_ticket(tickets[j]));
    }
}

/// Some candidate has rank `r`.
pub open spec fn has_rank(s: Set<NodeId>, r: nat) -> bool {
    exists|a: NodeId| s.contains(a) && rank(s, a) == r
}

/// Every position below the number of candidates is some candidate's rank.
pub proof fn lemma_rank_onto(s: Set<NodeId>)
    requires
        s.finite(),
    ensures
        forall|r: nat| r < s.len() ==> #[trigger] has_rank(s, r),
{
    let f = |x: NodeId| rank(s, x) as int;
    let image = s.map(f);
    assert(vstd::relations::injective_on(f, s)) by {
        assert forall|a: NodeId, b: NodeId| s.contains(a) && s.contains(b) && #[trigger] f(a) == #[trigger] f(b)
            implies a == b by {
            lemma_rank_order(s, a, b);
            lemma_rank_order(s, b, a);
        }
    }
    vstd::set_lib::lemma_map_size(s, image, f);
    vstd::set_lib::lemma_int_range(0, s.len() as int);
    assert(image.subset_of(vstd::set_lib::set_int_range(0, s.len() as int))) by {
        assert forall|r: int| image.contains(r) implies vstd::set_lib::set_int_range(0, s.len() as int).contains(r) by {
            let a = choose|a: NodeId| s.contains(a) && f(a) == r;
            lemma_rank_order(s, a, a);
        }
    }
    vstd::set_lib::lemma_subset_equality(image, vstd::set_lib::set_int_range(0, s.len() as int));
    assert forall|r: nat| r < s.len() implies #[trigger] has_rank(s, r) by {
        assert(vstd::set_lib::set_int_range(0, s.len() as int).contains(r as int));
        assert(image.contains(r as int));
        let a = choose|a: NodeId| s.contains(a) && f(a) == r as int;
        assert(rank(s, a) == r);
    }
}

proof fn lemma_div_mod_step(k: nat, n: nat)
    requires
        n > 0,
    ensures
        k % n + 1 < n ==> (k + 1) % n == k % n + 1 && (k + 1) / n == k / n,
        k % n + 1 == n ==> (k + 1) % n == 0 && (k + 1) / n == k / n + 1,
{
    let d = n as int;
    vstd::arithmetic::div_mod::lemma_fundamental_div_mod(k as int, d);
    let q = (k as int) / d;
    let r = (k as int) % d;
    if r + 1 < d {
        assert((k + 1) as int == q * d + (r + 1)) by (nonlinear_arith)
            requires
                k == d * q + r,
        ;
        vstd::arithmetic::div_mod::lemma_fundamental_div_mod_converse((k + 1) as int, d, q, r + 1);
    } else {
        assert((k + 1) as int == (q + 1) * d + 0) by (nonlinear_arith)
            requires
                k == d * q + r,
                r + 1 == d,
        ;
        vstd::arithmetic::div_mod::lemma_fundamental_div_mod_converse((k + 1) as int, d, q + 1, 0);
    }
}

proof fn lemma_least_load_staircase(
    cands: Set<NodeId>,
    loads: Seq<Map<NodeId, usize>>,
    picks: Seq<NodeId>,
    k: nat,
)
    requires
        cands.finite(),
        cands.len() > 0,
        loads.len() == picks.len() + 1,
        picks.len() + 2 < usize::MAX,
        staircase(loads[0], cands, 0, 0),
        forall|j: int|
            0 <= j < picks.len() ==> least_loaded_in(loads[j], cands, #[trigger] picks[j]) && loads[j + 1]
                == recorded(loads[j], picks[j]),
        k < loads.len(),
    ensures
        staircase(loads[k as int], cands, k / cands.len(), k % cands.len()),
        k < picks.len() ==> rank(cands, picks[k as int]) == k % cands.len(),
    decreases k,
{
    let n = cands.len();
    if k > 0 {
        lemma_least_load_staircase(cands, loads, picks, (k - 1) as nat);
        let j = (k - 1) as nat;
        lemma_div_mod_step(j, n);
        vstd::arithmetic::div_mod::lemma_mod_bound(j as int, n as int);
        lemma_rank_onto(cands);
        assert(has_rank(cands, j % n));
        let c = choose|c: NodeId| cands.contains(c) && rank(cands, c) == j % n;
        assert(j / n <= j) by {
            vstd::arithmetic::div_mod::lemma_div_is_ordered_by_denominator(j as int, 1, n as int);
        }
        lemma_least_load_goes_round(loads[j as int], cands, j / n, j % n, c);
        assert(least_loaded_in(loads[j as int], cands, picks[j as int]));
        if picks[j as int] != c {
            assert(less_loaded(loads[j as int], c, picks[j as int]));
            assert(less_loaded(loads[j as int], picks[j as int], c));
        }
        assert(loads[j as int + 1] == recorded(loads[j as int], picks[j as int]));
    }
    if k < picks.len() {
        vstd::arithmetic::div_mod::lemma_mod_bound(k as int, n as int);
        lemma_rank_onto(cands);
        assert(has_rank(cands, k % n));
        let c = choose|c: NodeId| cands.contains(c) && rank(cands, c) == k % n;
        assert(k / n <= k) by {
            vstd::arithmetic::div_mod::lemma_div_is_ordered_by_denominator(k as int, 1, n as int);
        }
        lemma_least_load_goes_round(loads[k as int], cands, k / n, k % n, c);
        assert(least_loaded_in(loads[k as int], cands, picks[k as int]));
        if picks[k as int] != c {
            assert(less_loaded(loads[k as int], c, picks[k as int]));
            assert(less_loaded(loads[k as int], picks[k as int], c));
        }
    }
}

/// Least-load with every choice recorded, from no recorded load: the `k`-th choice
/// (counting from 0) is the candidate of rank `k % n`, as round-robin chooses.
pub proof fn lemma_least_load_kth_pick(cands: Set<NodeId>, loads: Seq<Map<NodeId, usize>>, picks: Seq<NodeId>)
    requires
        cands.finite(),
        cands.len() > 0,
        loads.len() == picks.len() + 1,
        picks.len() + 2 < usize::MAX,
        loads[0] == Map::<NodeId, usize>::empty(),
        forall|j: int|
            0 <= j < picks.len() ==> least_loaded_in(loads[j], cands, #[trigger] picks[j]) && loads[j + 1]
                == recorded(loads[j], picks[j]),
    ensures
        forall|k: int| 0 <= k < picks.len() ==> rank(cands, #[trigger] picks[k]) == k % (cands.len() as int),
{
    assert(staircase(loads[0], cands, 0, 0));
    assert forall|k: int| 0 <= k < picks.len() implies rank(cands, #[trigger] picks[k]) == k % (
    cands.len() as int) by {
        lemma_least_load_staircase(cands, loads, picks, k as nat);
    }
}

/// Round-robin from a new balancer (ticket 0): with the same `n` candidates
/// throughout, the `k`-th successful choice (counting from 0) is the candidate of
/// rank `k % n`.
pub proof fn lemma_round_robin_kth_pick(cands: Set<NodeId>, tickets: Seq<usize>, picks: Seq<NodeId>)
    requires
        cands.finite(),
        cands.len() > 0,
        tickets.len() == picks.len(),
        tickets.len() <= usize::MAX,
        tickets.len() > 0 ==> tickets[0] == 0,
        forall|k: int|
            0 <= k < picks.len() ==> cands.contains(#[trigger] picks[k]) && rank(cands, picks[k]) == slot(
                tickets[k] as nat,
                cands.len(),
            ),
        forall|k: int| 0 <= k < tickets.len() - 1 ==> #[trigger] tickets[k + 1] == next_ticket(tickets[k]),
    ensures
        forall|k: int| 0 <= k < picks.len() ==> rank(cands, #[trigger] picks[k]) == k % (cands.len() as int),
{
    assert forall|k: int| 0 <= k < picks.len() implies rank(cands, #[trigger] picks[k]) == k % (
    cands.len() as int) by {
        lemma_tickets_advance(tickets, k);
    }
}

} // verus!
