use vstd::prelude::*;

verus! {

/// A client route: the request identifier and the address of the client that
/// sent the request.
pub struct Route {
    pub req_id: String,
    pub addr: String,
}

/// The table the leader keeps of where to send each request's answer: request
/// identifier to client address, each identifier at most once.
pub struct RouteTable {
    routes: Vec<Route>,
}

/// The routes as a map from request identifier to address.
pub open spec fn routes_map(s: Seq<Route>) -> Map<Seq<char>, Seq<char>>
    decreases s.len(),
{
    if s.len() == 0 {
        Map::empty()
    } else {
        routes_map(s.drop_last()).insert(s.last().req_id@, s.last().addr@)
    }
}

/// No request identifier occurs twice.
pub open spec fn distinct_ids(s: Seq<Route>) -> bool {
    forall|i: int, j: int| 0 <= i < j < s.len() ==> s[i].req_id@ != s[j].req_id@
}

proof fn lemma_routes_map_lookup(s: Seq<Route>, k: Seq<char>)
    requires
        distinct_ids(s),
    ensures
        routes_map(s).contains_key(k) <==> exists|i: int| 0 <= i < s.len() && s[i].req_id@ == k,
        forall|i: int| 0 <= i < s.len() && s[i].req_id@ == k ==> routes_map(s)[k] == s[i].addr@,
    decreases s.len(),
{
    if s.len() > 0 {
        let p = s.drop_last();
        lemma_routes_map_lookup(p, k);
        assert forall|i: int| 0 <= i < s.len() && s[i].req_id@ == k implies routes_map(s)[k] == s[i].addr@ by {
            if i < s.len() - 1 {
                assert(p[i] == s[i]);
            }
        }
        if routes_map(s).contains_key(k) && k != s.last().req_id@ {
            let i = choose|i: int| 0 <= i < p.len() && p[i].req_id@ == k;
            assert(s[i] == p[i]);
        }
        if exists|i: int| 0 <= i < s.len() && s[i].req_id@ == k {
            let i = choose|i: int| 0 <= i < s.len() && s[i].req_id@ == k;
            if i < s.len() - 1 {
                assert(p[i] == s[i]);
            }
        }
    }
}

proof fn lemma_routes_map_ext(s: Seq<Route>, m: Map<Seq<char>, Seq<char>>)
    requires
        distinct_ids(s),
        forall|k: Seq<char>| m.contains_key(k) <==> exists|i: int| 0 <= i < s.len() && s[i].req_id@ == k,
        forall|i: int| 0 <= i < s.len() ==> m[s[i].req_id@] == s[i].addr@,
    ensures
        routes_map(s) == m,
{
    assert forall|k: Seq<char>| routes_map(s).contains_key(k) <==> m.contains_key(k) by {
        lemma_routes_map_lookup(s, k);
    }
    assert forall|k: Seq<char>| routes_map(s).contains_key(k) implies routes_map(s)[k] == m[k] by {
        lemma_routes_map_lookup(s, k);
        let i = choose|i: int| 0 <= i < s.len() && s[i].req_id@ == k;
    }
    assert(routes_map(s) =~= m);
}

impl View for RouteTable {
    type V = Map<Seq<char>, Seq<char>>;

    closed spec fn view(&self) -> Map<Seq<char>, Seq<char>> {
        routes_map(self.routes@)
    }
}

impl RouteTable {
    pub closed spec fn wf(&self) -> bool {
        distinct_ids(self.routes@)
    }

    pub fn new() -> (t: Self)
        ensures
            t.wf(),
            t@ == Map::<Seq<char>, Seq<char>>::empty(),
    {
        RouteTable { routes: Vec::new() }
    }

    fn position(&self, req_id: &String) -> (res: Option<usize>)
        requires
            self.wf(),
        ensures
            match res {
                Some(i) => i < self.routes@.len() && self.routes@[i as int].req_id@ == req_id@,
                None => forall|i: int| 0 <= i < self.routes@.len() ==> self.routes@[i].req_id@ != req_id@,
            },
    {
        let mut i: usize = 0;
        while i < self.routes.len()
            invariant
                i <= self.routes@.len(),
                forall|k: int| 0 <= k < i ==> self.routes@[k].req_id@ != req_id@,
            decreases self.routes.len() - i,
        {
            if self.routes[i].req_id == *req_id {
                return Some(i);
            }
            i = i + 1;
        }
        None
    }

    /// The address recorded for `req_id`.
    pub fn get(&self, req_id: &String) -> (res: Option<String>)
        requires
            self.wf(),
        ensures
            match res {
                Some(a) => self@.contains_key(req_id@) && a@ == self@[req_id@],
                None => !self@.contains_key(req_id@),
            },
    {
        proof {
            lemma_routes_map_lookup(self.routes@, req_id@);
        }
        match self.position(req_id) {
            Some(i) => Some(self.routes[i].addr.clone()),
            None => None,
        }
    }

    /// Records `addr` for `req_id`, replacing an earlier address.
    pub fn insert(&mut self, req_id: String, addr: String)
        requires
            old(self).wf(),
        ensures
            final(self).wf(),
            final(self)@ == old(self)@.insert(req_id@, addr@),
    {
        let ghost old_routes = self.routes@;
        let ghost key = req_id@;
        let ghost value = addr@;
        proof {
            lemma_routes_map_lookup(old_routes, key);
        }
        match self.position(&req_id) {
            Some(i) => {
                self.routes.set(i, Route { req_id, addr });
                proof {
                    let s = self.routes@;
                    assert(distinct_ids(s)) by {
                        assert forall|a: int, b: int| 0 <= a < b < s.len() implies s[a].req_id@ != s[b].req_id@ by {
                            assert(old_routes[a].req_id@ != old_routes[b].req_id@);
                        }
                    }
                    let m = routes_map(old_routes).insert(key, value);
                    assert forall|k: Seq<char>| m.contains_key(k) <==> exists|j: int| 0 <= j < s.len() && s[j].req_id@ == k by {
                        lemma_routes_map_lookup(old_routes, k);
                        if exists|j: int| 0 <= j < old_routes.len() && old_routes[j].req_id@ == k {
                            let j = choose|j: int| 0 <= j < old_routes.len() && old_routes[j].req_id@ == k;
                            assert(s[j].req_id@ == k);
                        }
                        if exists|j: int| 0 <= j < s.len() && s[j].req_id@ == k {
                            let j = choose|j: int| 0 <= j < s.len() && s[j].req_id@ == k;
                            if j != i {
                                assert(old_routes[j].req_id@ == k);
                            }
                        }
                    }
                    assert forall|j: int| 0 <= j < s.len() implies m[s[j].req_id@] == s[j].addr@ by {
                        lemma_routes_map_lookup(old_routes, s[j].req_id@);
                        if j != i {
                            assert(old_routes[j] == s[j]);
                        }
                    }
                    lemma_routes_map_ext(s, m);
                }
            },
            None => {
                self.routes.push(Route { req_id, addr });
                proof {
                    let s = self.routes@;
                    assert(s.drop_last() =~= old_routes);
                    assert(distinct_ids(s)) by {
                        assert forall|a: int, b: int| 0 <= a < b < s.len() implies s[a].req_id@ != s[b].req_id@ by {
                            if b < s.len() - 1 {
                                assert(old_routes[a].req_id@ != old_routes[b].req_id@);
                            } else {
                                assert(s[a] == old_routes[a]);
                            }
                        }
                    }
                }
            },
        }
    }

    /// Forgets the route of `req_id`, if any.
    pub fn remove(&mut self, req_id: &String)
        requires
            old(self).wf(),
        ensures
            final(self).wf(),
            final(self)@ == old(self)@.remove(req_id@),
    {
        let ghost old_routes = self.routes@;
        match self.position(req_id) {
            Some(i) => {
                let _gone = self.routes.remove(i);
                proof {
                    let s = self.routes@;
                    assert forall|j: int| 0 <= j < s.len() implies s[j] == old_routes[if j < i { j } else { j + 1 }] by {}
                    assert(distinct_ids(s)) by {
                        assert forall|a: int, b: int| 0 <= a < b < s.len() implies s[a].req_id@ != s[b].req_id@ by {
                            let oa = if a < i { a } else { a + 1 };
                            let ob = if b < i { b } else { b + 1 };
                            assert(s[a] == old_routes[oa]);
                            assert(s[b] == old_routes[ob]);
                            assert(old_routes[oa].req_id@ != old_routes[ob].req_id@);
                        }
                    }
                    let m = routes_map(old_routes).remove(req_id@);
                    assert forall|k: Seq<char>| m.contains_key(k) <==> exists|j: int| 0 <= j < s.len() && s[j].req_id@ == k by {
                        lemma_routes_map_lookup(old_routes, k);
                        if m.contains_key(k) {
                            let j = choose|j: int| 0 <= j < old_routes.len() && old_routes[j].req_id@ == k;
                            assert(j != i);
                            let sj = if j < i { j } else { j - 1 };
                            assert(s[sj] == old_routes[j]);
                        }
                        if exists|j: int| 0 <= j < s.len() && s[j].req_id@ == k {
                            let j = choose|j: int| 0 <= j < s.len() && s[j].req_id@ == k;
                            let oj = if j < i { j } else { j + 1 };
                            assert(s[j] == old_routes[oj]);
                            assert(oj != i);
                        }
                    }
                    assert forall|j: int| 0 <= j < s.len() implies m[s[j].req_id@] == s[j].addr@ by {
                        let oj = if j < i { j } else { j + 1 };
                        assert(s[j] == old_routes[oj]);
                        lemma_routes_map_lookup(old_routes, s[j].req_id@);
                        assert(old_routes[oj].req_id@ != old_routes[i as int].req_id@);
                    }
                    lemma_routes_map_ext(s, m);
                }
            },
            None => {
                proof {
                    lemma_routes_map_lookup(old_routes, req_id@);
                    assert(routes_map(old_routes).remove(req_id@) =~= routes_map(old_routes));
                }
            },
        }
    }
}

} // verus!
