use vstd::prelude::*;

use crate::ipv4::{dotted, Ip4};
use crate::text::str_eq;

verus! {

/// How frames for a peer currently travel.
#[derive(Clone, Copy, Debug, PartialEq, Eq, Structural)]
pub enum RouteStatus {
    /// Through the rendezvous service.
    Relay,
    /// Over a direct encrypted session.
    Direct,
}

/// What the node knows of another member of its group.
#[derive(Clone, Debug)]
pub struct PeerInfo {
    pub id: String,
    pub ip: String,
    pub public_addr: Option<String>,
    pub p2p_port: u16,
    pub name: String,
    pub os: Option<String>,
    pub version: Option<String>,
    pub device_type: Option<String>,
    pub is_gateway: bool,
    pub connected_at: Option<u64>,
    pub route_status: RouteStatus,
}

/// Events of the direct-peer transport.
#[derive(Clone, Debug)]
pub enum P2PEvent {
    Connected(String),
    Disconnected(String),
}

pub fn copy_opt_string(o: &Option<String>) -> (r: Option<String>)
    ensures
        r == *o,
{
    match o {
        Some(s) => Some(s.clone()),
        None => None,
    }
}

impl PeerInfo {
    /// A field-by-field copy.
    pub fn duplicate(&self) -> (r: PeerInfo)
        ensures
            r == *self,
    {
        PeerInfo {
            id: self.id.clone(),
            ip: self.ip.clone(),
            public_addr: copy_opt_string(&self.public_addr),
            p2p_port: self.p2p_port,
            name: self.name.clone(),
            os: copy_opt_string(&self.os),
            version: copy_opt_string(&self.version),
            device_type: copy_opt_string(&self.device_type),
            is_gateway: self.is_gateway,
            connected_at: self.connected_at,
            route_status: self.route_status,
        }
    }

    pub open spec fn with_status(self, st: RouteStatus) -> PeerInfo {
        PeerInfo { route_status: st, ..self }
    }
}

/// The peer mapping after `info` joins: a known peer keeps its route
/// status, a new one starts on the relay.
pub open spec fn spec_joined(m: Map<Seq<char>, PeerInfo>, info: PeerInfo) -> Map<Seq<char>, PeerInfo> {
    m.insert(
        info.id@,
        info.with_status(
            if m.contains_key(info.id@) {
                m[info.id@].route_status
            } else {
                RouteStatus::Relay
            },
        ),
    )
}

/// A membership message from the rendezvous service.
pub enum MembershipEvent {
    Joined(PeerInfo),
    Left(String),
}

pub open spec fn event_id(e: MembershipEvent) -> Seq<char> {
    match e {
        MembershipEvent::Joined(info) => info.id@,
        MembershipEvent::Left(id) => id@,
    }
}

/// The effect of one event on the peer mapping, as `PeerTable::on_joined`
/// and `PeerTable::on_left` perform it.
pub open spec fn apply_membership(m: Map<Seq<char>, PeerInfo>, e: MembershipEvent) -> Map<
    Seq<char>,
    PeerInfo,
> {
    match e {
        MembershipEvent::Joined(info) => spec_joined(m, info),
        MembershipEvent::Left(id) => m.remove(id@),
    }
}

pub open spec fn replay_membership(events: Seq<MembershipEvent>) -> Map<Seq<char>, PeerInfo>
    decreases events.len(),
{
    if events.len() == 0 {
        Map::empty()
    } else {
        apply_membership(replay_membership(events.drop_last()), events.last())
    }
}

/// Event `i` is a join of `id` and no later event concerns `id`.
pub open spec fn is_last_join(events: Seq<MembershipEvent>, id: Seq<char>, i: int) -> bool {
    &&& 0 <= i < events.len()
    &&& events[i] is Joined
    &&& event_id(events[i]) == id
    &&& forall|j: int| i < j < events.len() ==> event_id(#[trigger] events[j]) != id
}

/// Whatever the order of joins and leaves, starting from no peers, a peer is
/// in the mapping exactly when the last event that names it was a join, and
/// its entry is then that join's record (route status aside).
pub proof fn lemma_membership(events: Seq<MembershipEvent>, id: Seq<char>)
    ensures
        replay_membership(events).contains_key(id) <==> exists|i: int| is_last_join(events, id, i),
        forall|i: int| #[trigger]
            is_last_join(events, id, i) ==> replay_membership(events)[id] == events[i]->Joined_0.with_status(
                replay_membership(events)[id].route_status,
            ),
    decreases events.len(),
{
    if events.len() > 0 {
        let pre = events.drop_last();
        let n = events.len() - 1;
        let e = events.last();
        lemma_membership(pre, id);
        assert(replay_membership(events) == apply_membership(replay_membership(pre), e));
        if event_id(e) == id {
            if e is Joined {
                assert(is_last_join(events, id, n));
                assert forall|i: int| #[trigger] is_last_join(events, id, i) implies i == n by {
                    if i < n {
                        assert(event_id(events[n]) != id);
                    }
                }
            } else {
                assert forall|i: int| !#[trigger] is_last_join(events, id, i) by {
                    if is_last_join(events, id, i) && i < n {
                        assert(event_id(events[n]) != id);
                    }
                }
            }
        } else {
            assert(replay_membership(events).contains_key(id) == replay_membership(pre).contains_key(id));
            assert forall|i: int| #[trigger] is_last_join(events, id, i) <==> is_last_join(pre, id, i) by {
                if is_last_join(pre, id, i) {
                    assert forall|j: int| i < j < events.len() implies event_id(#[trigger] events[j]) != id by {
                        if j < n {
                            assert(events[j] == pre[j]);
                        }
                    }
                }
                if is_last_join(events, id, i) {
                    assert(i != n);
                    assert forall|j: int| i < j < pre.len() implies event_id(#[trigger] pre[j]) != id by {
                        assert(events[j] == pre[j]);
                    }
                }
            }
            if exists|i: int| is_last_join(pre, id, i) {
                let i = choose|i: int| is_last_join(pre, id, i);
                assert(is_last_join(events, id, i));
            }
            if exists|i: int| is_last_join(events, id, i) {
                let i = choose|i: int| is_last_join(events, id, i);
                assert(is_last_join(pre, id, i));
            }
        }
    }
}

/// `list` holds each entry of the mapping `m` exactly once.
pub open spec fn is_listing(list: Seq<PeerInfo>, m: Map<Seq<char>, PeerInfo>) -> bool {
    &&& list.len() == m.dom().len()
    &&& forall|i: int| 0 <= i < list.len() ==> m.contains_key(#[trigger] list[i].id@) && m[list[i].id@] == list[i]
    &&& forall|id: Seq<char>| #[trigger] m.contains_key(id) ==> exists|i: int| 0 <= i < list.len() && list[i].id@ == id
}

/// The peers of the node, one entry per id.
pub struct PeerTable {
    entries: Vec<PeerInfo>,
}

impl View for PeerTable {
    type V = Map<Seq<char>, PeerInfo>;

    closed spec fn view(&self) -> Map<Seq<char>, PeerInfo> {
        Map::new(
            |id: Seq<char>| exists|i: int| 0 <= i < self.entries@.len() && self.entries@[i].id@ == id,
            |id: Seq<char>|
                self.entries@[choose|i: int| 0 <= i < self.entries@.len() && self.entries@[i].id@ == id],
        )
    }
}

impl PeerTable {
    pub closed spec fn wf(&self) -> bool {
        forall|i: int, j: int|
            0 <= i < j < self.entries@.len() ==> #[trigger] self.entries@[i].id@
                != #[trigger] self.entries@[j].id@
    }

    proof fn lemma_view_at(&self, i: int)
        requires
            self.wf(),
            0 <= i < self.entries@.len(),
        ensures
            self@.contains_key(self.entries@[i].id@),
            self@[self.entries@[i].id@] == self.entries@[i],
    {
        let id = self.entries@[i].id@;
        let k = choose|k: int| 0 <= k < self.entries@.len() && self.entries@[k].id@ == id;
        if k != i {
            if k < i {
                assert(self.entries@[k].id@ != self.entries@[i].id@);
            } else {
                assert(self.entries@[i].id@ != self.entries@[k].id@);
            }
        }
    }

    proof fn lemma_dom_len(&self)
        requires
            self.wf(),
        ensures
            self.entries@.len() == self@.dom().len(),
        decreases self.entries@.len(),
    {
        let ids = self.entries@.map_values(|p: PeerInfo| p.id@);
        assert(ids.no_duplicates()) by {
            assert forall|i: int, j: int| 0 <= i < ids.len() && 0 <= j < ids.len() && i != j implies ids[i]
                != ids[j] by {
                if i < j {
                    assert(self.entries@[i].id@ != self.entries@[j].id@);
                } else {
                    assert(self.entries@[j].id@ != self.entries@[i].id@);
                }
            }
        }
        ids.unique_seq_to_set();
        assert(ids.to_set() =~= self@.dom()) by {
            assert forall|id: Seq<char>| ids.to_set().contains(id) implies self@.dom().contains(id) by {
                let i = choose|i: int| 0 <= i < ids.len() && ids[i] == id;
                assert(self.entries@[i].id@ == id);
            }
            assert forall|id: Seq<char>| self@.dom().contains(id) implies ids.to_set().contains(id) by {
                let i = choose|i: int| 0 <= i < self.entries@.len() && self.entries@[i].id@ == id;
                assert(ids[i] == id);
            }
        }
    }

    pub fn new() -> (r: PeerTable)
        ensures
            r.wf(),
            r@ == Map::<Seq<char>, PeerInfo>::empty(),
    {
        let r = PeerTable { entries: Vec::new() };
        assert(r@ =~= Map::<Seq<char>, PeerInfo>::empty());
        r
    }

    pub fn len(&self) -> (r: usize)
        requires
            self.wf(),
        ensures
            r == self@.dom().len(),
    {
        proof {
            self.lemma_dom_len();
        }
        self.entries.len()
    }

    fn index_of(&self, id: &str) -> (r: Option<usize>)
        requires
            self.wf(),
        ensures
            r matches Some(i) ==> i < self.entries@.len() && self.entries@[i as int].id@ == id@,
            r is None ==> !self@.contains_key(id@),
    {
        let mut i: usize = 0;
        while i < self.entries.len()
            invariant
                i <= self.entries@.len(),
                forall|k: int| 0 <= k < i ==> self.entries@[k].id@ != id@,
            decreases self.entries@.len() - i,
        {
            if str_eq(self.entries[i].id.as_str(), id) {
                return Some(i);
            }
            i = i + 1;
        }
        None
    }

    /// The entry of peer `id`, if any.
    pub fn get(&self, id: &str) -> (r: Option<&PeerInfo>)
        requires
            self.wf(),
        ensures
            r matches Some(p) ==> self@.contains_key(id@) && *p == self@[id@],
            r is None ==> !self@.contains_key(id@),
    {
        match self.index_of(id) {
            Some(i) => {
                proof {
                    self.lemma_view_at(i as int);
                }
                Some(&self.entries[i])
            },
            None => None,
        }
    }

    /// Records that peer `info.id` joined. A peer already known keeps its
    /// route status; a new one starts on the relay.
    pub fn on_joined(&mut self, info: PeerInfo)
        requires
            old(self).wf(),
        ensures
            final(self).wf(),
            final(self)@ == spec_joined(old(self)@, info),
    {
        let ghost id = info.id@;
        match self.index_of(info.id.as_str()) {
            Some(i) => {
                proof {
                    self.lemma_view_at(i as int);
                }
                let st = self.entries[i].route_status;
                let entry = PeerInfo { route_status: st, ..info };
                self.entries.set(i, entry);
                proof {
                    self.lemma_after_set(old(self), i as int);
                }
            },
            None => {
                let entry = PeerInfo { route_status: RouteStatus::Relay, ..info };
                self.entries.push(entry);
                proof {
                    self.lemma_after_push(old(self));
                }
            },
        }
    }

    proof fn lemma_after_set(&self, before: &PeerTable, i: int)
        requires
            before.wf(),
            0 <= i < before.entries@.len(),
            self.entries@ == before.entries@.update(i, self.entries@[i]),
            self.entries@[i].id@ == before.entries@[i].id@,
        ensures
            self.wf(),
            self@ == before@.insert(self.entries@[i].id@, self.entries@[i]),
    {
        let id = self.entries@[i].id@;
        assert forall|a: int, b: int| 0 <= a < b < self.entries@.len() implies #[trigger] self.entries@[a].id@
            != #[trigger] self.entries@[b].id@ by {
            assert(before.entries@[a].id@ != before.entries@[b].id@);
        }
        assert forall|k: Seq<char>| #[trigger] self@.contains_key(k) == before@.insert(id, self.entries@[i]).contains_key(k) by {
            if self@.contains_key(k) {
                let j = choose|j: int| 0 <= j < self.entries@.len() && self.entries@[j].id@ == k;
                assert(before.entries@[j].id@ == k);
            }
            if before@.contains_key(k) {
                let j = choose|j: int| 0 <= j < before.entries@.len() && before.entries@[j].id@ == k;
                assert(self.entries@[j].id@ == k);
            }
        }
        assert forall|k: Seq<char>| #[trigger] self@.contains_key(k) implies self@[k] == before@.insert(id, self.entries@[i])[k] by {
            let j = choose|j: int| 0 <= j < self.entries@.len() && self.entries@[j].id@ == k;
            self.lemma_view_at(j);
            if j != i {
                before.lemma_view_at(j);
            }
        }
        assert(self@ =~= before@.insert(id, self.entries@[i]));
    }

    proof fn lemma_after_push(&self, before: &PeerTable)
        requires
            before.wf(),
            self.entries@ == before.entries@.push(self.entries@.last()),
            !before@.contains_key(self.entries@.last().id@),
        ensures
            self.wf(),
            self@ == before@.insert(self.entries@.last().id@, self.entries@.last()),
    {
        let n = before.entries@.len() as int;
        let e = self.entries@.last();
        assert forall|a: int, b: int| 0 <= a < b < self.entries@.len() implies #[trigger] self.entries@[a].id@
            != #[trigger] self.entries@[b].id@ by {
            if b < n {
                assert(before.entries@[a].id@ != before.entries@[b].id@);
            } else {
                assert(self.entries@[a] == before.entries@[a]);
            }
        }
        assert forall|k: Seq<char>| #[trigger] self@.contains_key(k) == before@.insert(e.id@, e).contains_key(k) by {
            if self@.contains_key(k) {
                let j = choose|j: int| 0 <= j < self.entries@.len() && self.entries@[j].id@ == k;
                if j < n {
                    assert(before.entries@[j].id@ == k);
                }
            }
            if before@.contains_key(k) {
                let j = choose|j: int| 0 <= j < before.entries@.len() && before.entries@[j].id@ == k;
                assert(self.entries@[j].id@ == k);
            }
        }
        assert forall|k: Seq<char>| #[trigger] self@.contains_key(k) implies self@[k] == before@.insert(e.id@, e)[k] by {
            let j = choose|j: int| 0 <= j < self.entries@.len() && self.entries@[j].id@ == k;
            self.lemma_view_at(j);
            if j < n {
                before.lemma_view_at(j);
            }
        }
        assert(self@ =~= before@.insert(e.id@, e));
    }
    /// Records that peer `id` left. Returns whether it was known.
    pub fn on_left(&mut self, id: &str) -> (r: bool)
        requires
            old(self).wf(),
        ensures
            final(self).wf(),
            r == old(self)@.contains_key(id@),
            final(self)@ == old(self)@.remove(id@),
    {
        match self.index_of(id) {
            Some(i) => {
                proof {
                    self.lemma_view_at(i as int);
                }
                self.entries.remove(i);
                proof {
                    self.lemma_after_remove(old(self), i as int);
                }
                true
            },
            None => {
                assert(self@ =~= old(self)@.remove(id@));
                false
            },
        }
    }

    proof fn lemma_after_remove(&self, before: &PeerTable, i: int)
        requires
            before.wf(),
            0 <= i < before.entries@.len(),
            self.entries@ == before.entries@.remove(i),
        ensures
            self.wf(),
            self@ == before@.remove(before.entries@[i].id@),
    {
        let id = before.entries@[i].id@;
        assert forall|a: int, b: int| 0 <= a < b < self.entries@.len() implies #[trigger] self.entries@[a].id@
            != #[trigger] self.entries@[b].id@ by {
            let a0 = if a < i { a } else { a + 1 };
            let b0 = if b < i { b } else { b + 1 };
            assert(before.entries@[a0].id@ != before.entries@[b0].id@);
        }
        assert forall|k: Seq<char>| #[trigger] self@.contains_key(k) == before@.remove(id).contains_key(k) by {
            if self@.contains_key(k) {
                let j = choose|j: int| 0 <= j < self.entries@.len() && self.entries@[j].id@ == k;
                let j0 = if j < i { j } else { j + 1 };
                assert(before.entries@[j0].id@ == k);
                if k == id {
                    if j0 < i {
                        assert(before.entries@[j0].id@ != before.entries@[i].id@);
                    } else {
                        assert(before.entries@[i].id@ != before.entries@[j0].id@);
                    }
                }
            }
            if before@.remove(id).contains_key(k) {
                let j = choose|j: int| 0 <= j < before.entries@.len() && before.entries@[j].id@ == k;
                assert(j != i);
                let j1 = if j < i { j } else { j - 1 };
                assert(self.entries@[j1].id@ == k);
            }
        }
        assert forall|k: Seq<char>| #[trigger] self@.contains_key(k) implies self@[k] == before@.remove(id)[k] by {
            let j = choose|j: int| 0 <= j < self.entries@.len() && self.entries@[j].id@ == k;
            self.lemma_view_at(j);
            let j0 = if j < i { j } else { j + 1 };
            before.lemma_view_at(j0);
        }
        assert(self@ =~= before@.remove(id));
    }

    /// Sets the route status of peer `id`, if it is known. Returns whether it was.
    pub fn set_status(&mut self, id: &str, st: RouteStatus) -> (r: bool)
        requires
            old(self).wf(),
        ensures
            final(self).wf(),
            r == old(self)@.contains_key(id@),
            r ==> final(self)@ == old(self)@.insert(id@, old(self)@[id@].with_status(st)),
            !r ==> final(self)@ == old(self)@,
    {
        match self.index_of(id) {
            Some(i) => {
                proof {
                    self.lemma_view_at(i as int);
                }
                let mut entry = self.entries[i].duplicate();
                entry.route_status = st;
                self.entries.set(i, entry);
                proof {
                    self.lemma_after_set(old(self), i as int);
                }
                true
            },
            None => false,
        }
    }

    /// A peer whose overlay address is `ip`, if there is one.
    pub fn find_by_ip(&self, ip: Ip4) -> (r: Option<&PeerInfo>)
        requires
            self.wf(),
        ensures
            r matches Some(p) ==> self@.contains_key(p.id@) && self@[p.id@] == *p && p.ip@ == dotted(ip),
            r is None ==> forall|id: Seq<char>| #[trigger] self@.contains_key(id) ==> self@[id].ip@ != dotted(ip),
    {
        let text = ip.to_text();
        let mut i: usize = 0;
        while i < self.entries.len()
            invariant
                self.wf(),
                i <= self.entries@.len(),
                text@ == dotted(ip),
                forall|k: int| 0 <= k < i ==> self.entries@[k].ip@ != dotted(ip),
            decreases self.entries@.len() - i,
        {
            if str_eq(self.entries[i].ip.as_str(), text.as_str()) {
                proof {
                    self.lemma_view_at(i as int);
                }
                return Some(&self.entries[i]);
            }
            i = i + 1;
        }
        proof {
            assert forall|id: Seq<char>| #[trigger] self@.contains_key(id) implies self@[id].ip@ != dotted(ip) by {
                let j = choose|j: int| 0 <= j < self.entries@.len() && self.entries@[j].id@ == id;
                self.lemma_view_at(j);
            }
        }
        None
    }

    /// Every entry, for publishing to the embedder.
    pub fn snapshot(&self) -> (r: Vec<PeerInfo>)
        requires
            self.wf(),
        ensures
            is_listing(r@, self@),
    {
        let mut out: Vec<PeerInfo> = Vec::new();
        let mut i: usize = 0;
        while i < self.entries.len()
            invariant
                i <= self.entries@.len(),
                out@ == self.entries@.subrange(0, i as int),
            decreases self.entries@.len() - i,
        {
            out.push(self.entries[i].duplicate());
            i = i + 1;
            assert(out@ =~= self.entries@.subrange(0, i as int));
        }
        assert(out@ =~= self.entries@);
        proof {
            assert forall|i: int| 0 <= i < out@.len() implies self@.contains_key(#[trigger] out@[i].id@) && self@[out@[i].id@]
                == out@[i] by {
                self.lemma_view_at(i);
            }
            self.lemma_dom_len();
        }
        out
    }
}


} // verus!
