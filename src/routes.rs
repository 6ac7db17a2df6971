use vstd::prelude::*;

use crate::ipv4::{parse_ip4, spec_parse_ip4, Ip4};
use crate::signaling::ServiceDecl;
use crate::text::str_eq;

verus! {

broadcast use vstd::seq_lib::group_seq_properties;

/// Whether `v` holds `ip`.
pub fn contains_ip(v: &Vec<Ip4>, ip: Ip4) -> (r: bool)
    ensures
        r == v@.contains(ip),
{
    let mut i: usize = 0;
    while i < v.len()
        invariant
            i <= v@.len(),
            forall|k: int| 0 <= k < i ==> v@[k] != ip,
        decreases v@.len() - i,
    {
        if v[i] == ip {
            return true;
        }
        i = i + 1;
    }
    false
}

/// The addresses that `services` advertises, in order, leaving out those
/// that `me` advertises itself, the node's own address `my_ip`, and text
/// that is not a dotted-decimal address.
pub open spec fn advertised(services: Seq<(String, ServiceDecl)>, me: Seq<char>, my_ip: Ip4) -> Seq<Ip4>
    decreases services.len(),
{
    if services.len() == 0 {
        Seq::empty()
    } else {
        let pre = advertised(services.drop_last(), me, my_ip);
        let (peer, decl) = services.last();
        match spec_parse_ip4(decl.ip@) {
            Some(ip) => if peer@ != me && ip != my_ip {
                pre.push(ip)
            } else {
                pre
            },
            None => pre,
        }
    }
}

/// The route mapping that `services` gives: each advertised address other
/// than `my_ip` goes to the last peer other than `me` that advertised it.
pub open spec fn routes_of(services: Seq<(String, ServiceDecl)>, me: Seq<char>, my_ip: Ip4) -> Map<
    Ip4,
    Seq<char>,
>
    decreases services.len(),
{
    if services.len() == 0 {
        Map::empty()
    } else {
        let pre = routes_of(services.drop_last(), me, my_ip);
        let (peer, decl) = services.last();
        match spec_parse_ip4(decl.ip@) {
            Some(ip) => if peer@ != me && ip != my_ip {
                pre.insert(ip, peer@)
            } else {
                pre
            },
            None => pre,
        }
    }
}

/// After a service update the route mapping has one entry for each address
/// advertised by another peer, none for the node's own address, and none
/// that points at the node itself.
pub proof fn lemma_routes_cover_advertised(services: Seq<(String, ServiceDecl)>, me: Seq<char>, my_ip: Ip4)
    ensures
        routes_of(services, me, my_ip).dom() == advertised(services, me, my_ip).to_set(),
        !routes_of(services, me, my_ip).contains_key(my_ip),
        forall|ip: Ip4| #[trigger]
            routes_of(services, me, my_ip).contains_key(ip) ==> routes_of(services, me, my_ip)[ip] != me,
    decreases services.len(),
{
    if services.len() > 0 {
        let pre = services.drop_last();
        lemma_routes_cover_advertised(pre, me, my_ip);
        let (peer, decl) = services.last();
        match spec_parse_ip4(decl.ip@) {
            Some(ip) => if peer@ != me && ip != my_ip {
                assert(advertised(services, me, my_ip).to_set() =~= advertised(pre, me, my_ip).to_set().insert(ip)) by {
                    advertised(pre, me, my_ip).lemma_push_to_set_commute(ip);
                }
                assert(routes_of(services, me, my_ip).dom() =~= routes_of(pre, me, my_ip).dom().insert(ip));
            },
            None => {},
        }
    }
}

pub proof fn lemma_push_contains<A>(s: Seq<A>, x: A)
    ensures
        forall|y: A| #[trigger] s.push(x).contains(y) <==> s.contains(y) || y == x,
        !s.contains(x) && s.no_duplicates() ==> s.push(x).no_duplicates(),
{
    assert forall|y: A| #[trigger] s.push(x).contains(y) <==> s.contains(y) || y == x by {
        if s.push(x).contains(y) && y != x {
            let k = choose|k: int| 0 <= k < s.push(x).len() && s.push(x)[k] == y;
            assert(s[k] == y);
        }
        if s.contains(y) {
            let k = choose|k: int| 0 <= k < s.len() && s[k] == y;
            assert(s.push(x)[k] == y);
        }
        if y == x {
            assert(s.push(x)[s.len() as int] == y);
        }
    }
}

pub proof fn lemma_prefix_push<A>(s: Seq<A>, i: int)
    requires
        0 <= i < s.len(),
    ensures
        s.subrange(0, i + 1) == s.subrange(0, i).push(s[i]),
{
    assert(s.subrange(0, i + 1) =~= s.subrange(0, i).push(s[i]));
}

proof fn lemma_prefix_fresh<A>(s: Seq<A>, i: int)
    requires
        0 <= i < s.len(),
        s.no_duplicates(),
    ensures
        !s.subrange(0, i).contains(s[i]),
{
    if s.subrange(0, i).contains(s[i]) {
        let k = choose|k: int| 0 <= k < i && s.subrange(0, i)[k] == s[i];
        assert(s[k] == s[i]);
    }
}

/// Which peer routes each advertised address; one entry per address.
pub struct RouteTable {
    entries: Vec<(Ip4, String)>,
}

impl View for RouteTable {
    type V = Map<Ip4, Seq<char>>;

    closed spec fn view(&self) -> Map<Ip4, Seq<char>> {
        Map::new(
            |ip: Ip4| exists|i: int| 0 <= i < self.entries@.len() && self.entries@[i].0 == ip,
            |ip: Ip4| self.entries@[choose|i: int| 0 <= i < self.entries@.len() && self.entries@[i].0 == ip].1@,
        )
    }
}

impl RouteTable {
    pub closed spec fn wf(&self) -> bool {
        forall|i: int, j: int|
            0 <= i < j < self.entries@.len() ==> #[trigger] self.entries@[i].0 != #[trigger] self.entries@[j].0
    }

    proof fn lemma_view_at(&self, i: int)
        requires
            self.wf(),
            0 <= i < self.entries@.len(),
        ensures
            self@.contains_key(self.entries@[i].0),
            self@[self.entries@[i].0] == self.entries@[i].1@,
    {
        let ip = self.entries@[i].0;
        let k = choose|k: int| 0 <= k < self.entries@.len() && self.entries@[k].0 == ip;
        if k < i {
            assert(self.entries@[k].0 != self.entries@[i].0);
        } else if k > i {
            assert(self.entries@[i].0 != self.entries@[k].0);
        }
    }

    pub fn new() -> (r: RouteTable)
        ensures
            r.wf(),
            r@ == Map::<Ip4, Seq<char>>::empty(),
    {
        let r = RouteTable { entries: Vec::new() };
        assert(r@ =~= Map::<Ip4, Seq<char>>::empty());
        r
    }

    fn index_of(&self, ip: Ip4) -> (r: Option<usize>)
        requires
            self.wf(),
        ensures
            r matches Some(i) ==> i < self.entries@.len() && self.entries@[i as int].0 == ip,
            r is None ==> !self@.contains_key(ip),
    {
        let mut i: usize = 0;
        while i < self.entries.len()
            invariant
                i <= self.entries@.len(),
                forall|k: int| 0 <= k < i ==> self.entries@[k].0 != ip,
            decreases self.entries@.len() - i,
        {
            if self.entries[i].0 == ip {
                return Some(i);
            }
            i = i + 1;
        }
        None
    }

    /// The peer that routes `ip`, if any.
    pub fn get(&self, ip: Ip4) -> (r: Option<&String>)
        requires
            self.wf(),
        ensures
            r matches Some(p) ==> self@.contains_key(ip) && p@ == self@[ip],
            r is None ==> !self@.contains_key(ip),
    {
        match self.index_of(ip) {
            Some(i) => {
                proof {
                    self.lemma_view_at(i as int);
                }
                Some(&self.entries[i].1)
            },
            None => None,
        }
    }

    /// Routes `ip` through `peer`, replacing an earlier entry for `ip`.
    pub fn insert(&mut self, ip: Ip4, peer: String)
        requires
            old(self).wf(),
        ensures
            final(self).wf(),
            final(self)@ == old(self)@.insert(ip, peer@),
    {
        let ghost p = peer@;
        match self.index_of(ip) {
            Some(i) => {
                self.entries.set(i, (ip, peer));
                proof {
                    assert forall|a: int, b: int| 0 <= a < b < self.entries@.len() implies #[trigger] self.entries@[a].0
                        != #[trigger] self.entries@[b].0 by {
                        assert(old(self).entries@[a].0 != old(self).entries@[b].0);
                    }
                    assert forall|k: Ip4| #[trigger] self@.contains_key(k) == old(self)@.insert(ip, p).contains_key(k) by {
                        if self@.contains_key(k) {
                            let j = choose|j: int| 0 <= j < self.entries@.len() && self.entries@[j].0 == k;
                            assert(old(self).entries@[j].0 == k);
                        }
                        if old(self)@.contains_key(k) {
                            let j = choose|j: int| 0 <= j < old(self).entries@.len() && old(self).entries@[j].0 == k;
                            assert(self.entries@[j].0 == k);
                        }
                        if k == ip {
                            assert(self.entries@[i as int].0 == k);
                        }
                    }
                    assert forall|k: Ip4| #[trigger] self@.contains_key(k) implies self@[k] == old(self)@.insert(ip, p)[k] by {
                        let j = choose|j: int| 0 <= j < self.entries@.len() && self.entries@[j].0 == k;
                        self.lemma_view_at(j);
                        if j != i {
                            old(self).lemma_view_at(j);
                        }
                    }
                    assert(self@ =~= old(self)@.insert(ip, p));
                }
            },
            None => {
                self.entries.push((ip, peer));
                proof {
                    let n = old(self).entries@.len() as int;
                    assert forall|a: int, b: int| 0 <= a < b < self.entries@.len() implies #[trigger] self.entries@[a].0
                        != #[trigger] self.entries@[b].0 by {
                        if b < n {
                            assert(old(self).entries@[a].0 != old(self).entries@[b].0);
                        } else {
                            assert(self.entries@[a] == old(self).entries@[a]);
                        }
                    }
                    assert forall|k: Ip4| #[trigger] self@.contains_key(k) == old(self)@.insert(ip, p).contains_key(k) by {
                        if self@.contains_key(k) {
                            let j = choose|j: int| 0 <= j < self.entries@.len() && self.entries@[j].0 == k;
                            if j < n {
                                assert(old(self).entries@[j].0 == k);
                            }
                        }
                        if old(self)@.contains_key(k) {
                            let j = choose|j: int| 0 <= j < old(self).entries@.len() && old(self).entries@[j].0 == k;
                            assert(self.entries@[j].0 == k);
                        }
                        if k == ip {
                            assert(self.entries@[n].0 == k);
                        }
                    }
                    assert forall|k: Ip4| #[trigger] self@.contains_key(k) implies self@[k] == old(self)@.insert(ip, p)[k] by {
                        let j = choose|j: int| 0 <= j < self.entries@.len() && self.entries@[j].0 == k;
                        self.lemma_view_at(j);
                        if j < n {
                            old(self).lemma_view_at(j);
                        }
                    }
                    assert(self@ =~= old(self)@.insert(ip, p));
                }
            },
        }
    }

    /// A copy of the table, for sharing with the SOCKS5 bridge.
    pub fn duplicate(&self) -> (r: RouteTable)
        requires
            self.wf(),
        ensures
            r.wf(),
            r@ == self@,
    {
        let mut entries: Vec<(Ip4, String)> = Vec::new();
        let mut i: usize = 0;
        while i < self.entries.len()
            invariant
                i <= self.entries@.len(),
                entries@.len() == i,
                forall|k: int| 0 <= k < i ==> entries@[k].0 == self.entries@[k].0 && entries@[k].1@ == self.entries@[k].1@,
            decreases self.entries@.len() - i,
        {
            let e = (self.entries[i].0, self.entries[i].1.clone());
            entries.push(e);
            i = i + 1;
        }
        let r = RouteTable { entries };
        proof {
            assert forall|a: int, b: int| 0 <= a < b < r.entries@.len() implies #[trigger] r.entries@[a].0
                != #[trigger] r.entries@[b].0 by {
                assert(self.entries@[a].0 != self.entries@[b].0);
            }
            assert forall|k: Ip4| #[trigger] r@.contains_key(k) == self@.contains_key(k) by {
                if r@.contains_key(k) {
                    let j = choose|j: int| 0 <= j < r.entries@.len() && r.entries@[j].0 == k;
                    assert(self.entries@[j].0 == k);
                }
                if self@.contains_key(k) {
                    let j = choose|j: int| 0 <= j < self.entries@.len() && self.entries@[j].0 == k;
                    assert(r.entries@[j].0 == k);
                }
            }
            assert forall|k: Ip4| #[trigger] r@.contains_key(k) implies r@[k] == self@[k] by {
                let j = choose|j: int| 0 <= j < r.entries@.len() && r.entries@[j].0 == k;
                r.lemma_view_at(j);
                self.lemma_view_at(j);
            }
            assert(r@ =~= self@);
        }
        r
    }
}

/// Rebuilds the route mapping from a service update, and lists the addresses
/// whose host routes should exist.
pub fn build_routes(services: &Vec<(String, ServiceDecl)>, my_id: &str, my_ip: Ip4) -> (r: (RouteTable, Vec<Ip4>))
    ensures
        r.0.wf(),
        r.0@ == routes_of(services@, my_id@, my_ip),
        r.1@ == advertised(services@, my_id@, my_ip),
{
    let mut table = RouteTable::new();
    let mut ips: Vec<Ip4> = Vec::new();
    let mut i: usize = 0;
    while i < services.len()
        invariant
            i <= services@.len(),
            table.wf(),
            table@ == routes_of(services@.subrange(0, i as int), my_id@, my_ip),
            ips@ == advertised(services@.subrange(0, i as int), my_id@, my_ip),
        decreases services@.len() - i,
    {
        let (peer, decl) = &services[i];
        proof {
            assert(services@.subrange(0, i + 1).drop_last() =~= services@.subrange(0, i as int));
        }
        match parse_ip4(decl.ip.as_str()) {
            Some(ip) => {
                if !str_eq(peer.as_str(), my_id) && ip != my_ip {
                    table.insert(ip, peer.clone());
                    ips.push(ip);
                }
            },
            None => {},
        }
        i = i + 1;
    }
    proof {
        assert(services@.subrange(0, services@.len() as int) =~= services@);
    }
    (table, ips)
}

/// Changes to the host's routing table: host routes to remove, then host
/// routes to add.
pub struct RoutePlan {
    pub remove: Vec<Ip4>,
    pub add: Vec<Ip4>,
}

/// Keeps the host routes for advertised addresses in step with the route
/// mapping, and remembers them for removal at shutdown.
pub struct RouteManager {
    added_routes: Vec<Ip4>,
    local_vpn_ip: String,
}

impl RouteManager {
    /// The host routes in place, in the order they were added.
    pub closed spec fn applied(&self) -> Seq<Ip4> {
        self.added_routes@
    }

    pub open spec fn wf(&self) -> bool {
        self.applied().no_duplicates()
    }

    /// The node's own overlay address, which the host routes point at.
    pub closed spec fn local_ip(&self) -> String {
        self.local_vpn_ip
    }

    pub fn local_vpn_ip(&self) -> (r: &String)
        ensures
            *r == self.local_ip(),
    {
        &self.local_vpn_ip
    }

    pub fn new(local_vpn_ip: String) -> (r: RouteManager)
        ensures
            r.wf(),
            r.applied() == Seq::<Ip4>::empty(),
            r.local_ip() == local_vpn_ip,
    {
        RouteManager { added_routes: Vec::new(), local_vpn_ip }
    }

    /// Makes the applied set equal to `new_targets`. Returns the routes to
    /// remove (applied but no longer wanted) and the routes to add (wanted but
    /// not yet applied), each once.
    pub fn update_routes(&mut self, new_targets: &Vec<Ip4>) -> (plan: RoutePlan)
        requires
            old(self).wf(),
        ensures
            final(self).wf(),
            final(self).local_ip() == old(self).local_ip(),
            final(self).applied().to_set() == new_targets@.to_set(),
            plan.remove@.no_duplicates(),
            plan.add@.no_duplicates(),
            forall|ip: Ip4|
                #![trigger plan.remove@.contains(ip)]
                #![trigger old(self).applied().contains(ip)]
                plan.remove@.contains(ip) <==> old(self).applied().contains(ip) && !new_targets@.contains(ip),
            forall|ip: Ip4|
                #![trigger plan.add@.contains(ip)]
                #![trigger new_targets@.contains(ip)]
                plan.add@.contains(ip) <==> new_targets@.contains(ip) && !old(self).applied().contains(ip),
    {
        let ghost before = self.added_routes@;
        let mut remove: Vec<Ip4> = Vec::new();
        let mut kept: Vec<Ip4> = Vec::new();
        let mut i: usize = 0;
        while i < self.added_routes.len()
            invariant
                i <= before.len(),
                self.added_routes@ == before,
                before.no_duplicates(),
                kept@.no_duplicates(),
                remove@.no_duplicates(),
                forall|ip: Ip4| kept@.contains(ip) <==> before.subrange(0, i as int).contains(ip) && new_targets@.contains(ip),
                forall|ip: Ip4| remove@.contains(ip) <==> before.subrange(0, i as int).contains(ip) && !new_targets@.contains(ip),
            decreases before.len() - i,
        {
            let ip = self.added_routes[i];
            proof {
                lemma_prefix_push(before, i as int);
                lemma_prefix_fresh(before, i as int);
                lemma_push_contains(before.subrange(0, i as int), ip);
                lemma_push_contains(kept@, ip);
                lemma_push_contains(remove@, ip);
            }
            if contains_ip(new_targets, ip) {
                kept.push(ip);
            } else {
                remove.push(ip);
            }
            i = i + 1;
        }
        proof {
            assert(before.subrange(0, i as int) =~= before);
            assert(new_targets@.subrange(0, 0) =~= Seq::<Ip4>::empty());
        }
        self.added_routes = kept;
        let mut add: Vec<Ip4> = Vec::new();
        let mut j: usize = 0;
        while j < new_targets.len()
            invariant
                j <= new_targets@.len(),
                self.added_routes@.no_duplicates(),
                add@.no_duplicates(),
                forall|ip: Ip4| #![trigger add@.contains(ip)] add@.contains(ip) <==> new_targets@.subrange(0, j as int).contains(ip) && !before.contains(ip),
                forall|ip: Ip4| #![trigger self.added_routes@.contains(ip)]
                    self.added_routes@.contains(ip) <==> new_targets@.contains(ip) && (before.contains(ip)
                        || new_targets@.subrange(0, j as int).contains(ip)),
                self.local_vpn_ip == old(self).local_vpn_ip,
            decreases new_targets@.len() - j,
        {
            let ip = new_targets[j];
            let ghost add0 = add@;
            let ghost ar0 = self.added_routes@;
            let ghost p0 = new_targets@.subrange(0, j as int);
            proof {
                lemma_prefix_push(new_targets@, j as int);
                lemma_push_contains(p0, ip);
                lemma_push_contains(ar0, ip);
                lemma_push_contains(add0, ip);
                assert(new_targets@.contains(ip));
            }
            let fresh = !contains_ip(&self.added_routes, ip);
            if fresh {
                add.push(ip);
                self.added_routes.push(ip);
            }
            proof {
                let p1 = new_targets@.subrange(0, j + 1);
                assert(p1 == p0.push(ip));
                if fresh {
                    assert(!before.contains(ip));
                    assert(!p0.contains(ip));
                    assert(!add0.contains(ip));
                    assert(add@ == add0.push(ip));
                    assert(self.added_routes@ == ar0.push(ip));
                } else {
                    assert(add@ == add0);
                    assert(self.added_routes@ == ar0);
                    assert(ar0.contains(ip));
                    if !before.contains(ip) {
                        assert(p0.contains(ip));
                        assert(add0.contains(ip));
                    }
                }
                assert forall|x: Ip4| add@.contains(x) <==> p1.contains(x) && !before.contains(x) by {
                    assert(p1.contains(x) <==> p0.contains(x) || x == ip);
                    assert(add0.contains(x) <==> p0.contains(x) && !before.contains(x));
                }
                assert forall|x: Ip4|
                    self.added_routes@.contains(x) <==> new_targets@.contains(x) && (before.contains(x) || p1.contains(x)) by {
                    assert(p1.contains(x) <==> p0.contains(x) || x == ip);
                    assert(ar0.contains(x) <==> new_targets@.contains(x) && (before.contains(x) || p0.contains(x)));
                }
            }
            j = j + 1;
        }
        proof {
            assert(new_targets@.subrange(0, j as int) =~= new_targets@);
            assert(self.added_routes@.to_set() =~= new_targets@.to_set());
        }
        RoutePlan { remove, add }
    }

    /// Forgets a route that the host refused to add.
    pub fn route_add_failed(&mut self, ip: Ip4)
        requires
            old(self).wf(),
        ensures
            final(self).wf(),
            final(self).local_ip() == old(self).local_ip(),
            final(self).applied().to_set() == old(self).applied().to_set().remove(ip),
    {
        let ghost before = self.added_routes@;
        let mut kept: Vec<Ip4> = Vec::new();
        let mut i: usize = 0;
        while i < self.added_routes.len()
            invariant
                i <= before.len(),
                self.added_routes@ == before,
                before.no_duplicates(),
                kept@.no_duplicates(),
                forall|x: Ip4| kept@.contains(x) <==> x != ip && before.subrange(0, i as int).contains(x),
            decreases before.len() - i,
        {
            let x = self.added_routes[i];
            proof {
                lemma_prefix_push(before, i as int);
                lemma_prefix_fresh(before, i as int);
                lemma_push_contains(before.subrange(0, i as int), x);
                lemma_push_contains(kept@, x);
            }
            if x != ip {
                kept.push(x);
            }
            i = i + 1;
        }
        proof {
            assert(before.subrange(0, i as int) =~= before);
        }
        self.added_routes = kept;
        assert(self.added_routes@.to_set() =~= old(self).applied().to_set().remove(ip));
    }

    /// Removes every recorded route: returns them, in the order they were
    /// added, for removal from the host, and leaves nothing recorded.
    pub fn cleanup(&mut self) -> (removed: Vec<Ip4>)
        requires
            old(self).wf(),
        ensures
            final(self).wf(),
            final(self).applied() == Seq::<Ip4>::empty(),
            final(self).local_ip() == old(self).local_ip(),
            removed@ == old(self).applied(),
    {
        let mut removed: Vec<Ip4> = Vec::new();
        std::mem::swap(&mut removed, &mut self.added_routes);
        removed
    }
}

} // verus!
