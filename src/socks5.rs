use vstd::prelude::*;

use crate::ipv4::{
    digit_char, digit_str, dotted, is_digit, lemma_dotted_chars, parse_ip4, spec_parse_ip4, Ip4,
};
use crate::packet::be16;
use crate::routes::RouteTable;

verus! {

pub const SOCKS_VERSION: u8 = 5;

pub const CMD_CONNECT: u8 = 1;

pub const ATYP_IPV4: u8 = 1;

pub const ATYP_DOMAIN: u8 = 3;

/// The only authentication method offered: none.
pub const METHOD_NO_AUTH: u8 = 0;

pub const REPLY_SUCCEEDED: u8 = 0;

pub const REPLY_NETWORK_UNREACHABLE: u8 = 3;

pub const REPLY_HOST_UNREACHABLE: u8 = 4;

/// What the bridge hears about one of its tunneled streams.
#[derive(Debug)]
pub enum SocksMsg {
    /// The target side answered the connect request.
    Connected(bool),
    /// Payload from the target side.
    Data(Vec<u8>),
    /// The target side closed the stream.
    Closed,
}

/// Why a client's request was refused.
#[derive(Clone, Copy, Debug, PartialEq, Eq, Structural)]
pub enum SocksError {
    NotSocks5,
    UnsupportedCommand,
    UnsupportedAddressType,
    /// A domain name that is not a literal IPv4 address.
    DomainNotIpv4,
}

/// How the request names its target.
#[derive(Clone, Copy, Debug, PartialEq, Eq, Structural)]
pub enum AddrType {
    Ipv4,
    Domain,
}

/// Checks the greeting's first two bytes (version, number of methods).
/// Returns the number of method bytes that follow.
pub fn check_greeting(head: [u8; 2]) -> (r: Result<usize, SocksError>)
    ensures
        head[0] == SOCKS_VERSION ==> r == Ok::<usize, SocksError>(head[1] as usize),
        head[0] != SOCKS_VERSION ==> r == Err::<usize, SocksError>(SocksError::NotSocks5),
{
    if head[0] != SOCKS_VERSION {
        Err(SocksError::NotSocks5)
    } else {
        Ok(head[1] as usize)
    }
}

/// The answer to a greeting: version 5, no authentication.
pub fn greeting_reply() -> (r: [u8; 2])
    ensures
        r@ == seq![SOCKS_VERSION, METHOD_NO_AUTH],
{
    let r = [SOCKS_VERSION, METHOD_NO_AUTH];
    assert(r@ =~= seq![SOCKS_VERSION, METHOD_NO_AUTH]);
    r
}

/// Checks a request's first four bytes (version, command, reserved,
/// address type): only CONNECT, to an IPv4 address or a domain name.
pub fn parse_request_head(head: [u8; 4]) -> (r: Result<AddrType, SocksError>)
    ensures
        head[1] != CMD_CONNECT ==> r == Err::<AddrType, SocksError>(SocksError::UnsupportedCommand),
        head[1] == CMD_CONNECT && head[3] == ATYP_IPV4 ==> r == Ok::<AddrType, SocksError>(AddrType::Ipv4),
        head[1] == CMD_CONNECT && head[3] == ATYP_DOMAIN ==> r == Ok::<AddrType, SocksError>(AddrType::Domain),
        head[1] == CMD_CONNECT && head[3] != ATYP_IPV4 && head[3] != ATYP_DOMAIN ==> r == Err::<
            AddrType,
            SocksError,
        >(SocksError::UnsupportedAddressType),
{
    if head[1] != CMD_CONNECT {
        Err(SocksError::UnsupportedCommand)
    } else if head[3] == ATYP_IPV4 {
        Ok(AddrType::Ipv4)
    } else if head[3] == ATYP_DOMAIN {
        Ok(AddrType::Domain)
    } else {
        Err(SocksError::UnsupportedAddressType)
    }
}

/// The target of an IPv4 request: the address and its text.
pub fn target_from_octets(o: [u8; 4]) -> (r: (Ip4, String))
    ensures
        r.0 == (Ip4 { a: o[0], b: o[1], c: o[2], d: o[3] }),
        r.1@ == dotted(r.0),
{
    let ip = Ip4::from_octets(o);
    (ip, ip.to_text())
}

/// Bytes read as characters one for one.
pub open spec fn latin1(b: Seq<u8>) -> Seq<char> {
    b.map_values(|x: u8| x as char)
}

/// The target of a domain request, which must be the text of an IPv4
/// address: the address and its text.
pub fn target_from_domain(host: &[u8]) -> (r: Result<(Ip4, String), SocksError>)
    ensures
        match spec_parse_ip4(latin1(host@)) {
            Some(ip) => r matches Ok((ip2, text)) && ip2 == ip && text@ == dotted(ip),
            None => r == Err::<(Ip4, String), SocksError>(SocksError::DomainNotIpv4),
        },
{
    let dot = ".";
    proof {
        reveal_strlit(".");
    }
    let mut s = String::new();
    let mut i: usize = 0;
    while i < host.len()
        invariant
            i <= host@.len(),
            dot@ == seq!['.'],
            s@ == latin1(host@.subrange(0, i as int)),
        decreases host@.len() - i,
    {
        let b = host[i];
        if b >= 48 && b <= 57 {
            s.append(digit_str(b - 48));
            proof {
                assert(digit_char((b - 48) as int) == b as char);
            }
        } else if b == 46 {
            s.append(dot);
        } else {
            proof {
                let t = latin1(host@);
                assert(t[i as int] == b as char);
                assert(!is_digit(t[i as int]) && t[i as int] != '.');
                assert forall|ip: Ip4| t != dotted(ip) by {
                    lemma_dotted_chars(ip);
                    if t == dotted(ip) {
                        assert(is_digit(dotted(ip)[i as int]) || dotted(ip)[i as int] == '.');
                    }
                }
            }
            return Err(SocksError::DomainNotIpv4);
        }
        proof {
            assert(latin1(host@.subrange(0, i + 1)) =~= latin1(host@.subrange(0, i as int)).push(b as char));
        }
        i = i + 1;
    }
    proof {
        assert(host@.subrange(0, i as int) =~= host@);
    }
    match parse_ip4(s.as_str()) {
        Some(ip) => Ok((ip, s)),
        None => Err(SocksError::DomainNotIpv4),
    }
}

/// The port of a request, sent big-endian.
pub fn port_of(b: [u8; 2]) -> (r: u16)
    ensures
        r == be16(b[0], b[1]),
{
    (b[0] as u16) * 256 + (b[1] as u16)
}

/// A reply with the given code and a zeroed IPv4 bound address.
pub fn reply(code: u8) -> (r: [u8; 10])
    ensures
        r@ == seq![SOCKS_VERSION, code, 0u8, ATYP_IPV4, 0u8, 0u8, 0u8, 0u8, 0u8, 0u8],
{
    let r = [SOCKS_VERSION, code, 0, ATYP_IPV4, 0, 0, 0, 0, 0, 0];
    assert(r@ =~= seq![SOCKS_VERSION, code, 0u8, ATYP_IPV4, 0u8, 0u8, 0u8, 0u8, 0u8, 0u8]);
    r
}

/// The reply to the client once the target side answered: success only for
/// a positive `Connected`.
pub fn connect_reply(answer: &SocksMsg) -> (r: u8)
    ensures
        r == if answer matches SocksMsg::Connected(true) {
            REPLY_SUCCEEDED
        } else {
            REPLY_HOST_UNREACHABLE
        },
{
    match answer {
        SocksMsg::Connected(true) => REPLY_SUCCEEDED,
        _ => REPLY_HOST_UNREACHABLE,
    }
}

/// The SOCKS5 bridge's own state: the stream-id counter and, for each open
/// tunneled stream, the messages that arrived for it and were not taken yet.
pub struct Socks5Server {
    next_stream_id: u32,
    streams: Vec<(u32, Vec<SocksMsg>)>,
    /// Everything that arrived for each stream, in arrival order.
    arrived: Ghost<Map<u32, Seq<SocksMsg>>>,
    /// Everything taken from each stream, in the order taken.
    taken: Ghost<Map<u32, Seq<SocksMsg>>>,
}

impl Socks5Server {
    pub closed spec fn wf(&self) -> bool {
        &&& forall|i: int, j: int|
            0 <= i < j < self.streams@.len() ==> #[trigger] self.streams@[i].0 != #[trigger] self.streams@[j].0
        &&& forall|i: int|
            0 <= i < self.streams@.len() ==> {
                let (id, q) = #[trigger] self.streams@[i];
                &&& id <= self.next_stream_id
                &&& self.arrived@.contains_key(id)
                &&& self.taken@.contains_key(id)
                &&& self.arrived@[id] == self.taken@[id] + q@
            }
    }

    /// The last stream id handed out.
    pub closed spec fn last_id(&self) -> u32 {
        self.next_stream_id
    }

    /// Whether stream `id` is open.
    pub closed spec fn is_open(&self, id: u32) -> bool {
        exists|i: int| 0 <= i < self.streams@.len() && self.streams@[i].0 == id
    }

    /// The messages of stream `id` not taken yet.
    pub closed spec fn pending(&self, id: u32) -> Seq<SocksMsg> {
        self.streams@[choose|i: int| 0 <= i < self.streams@.len() && self.streams@[i].0 == id].1@
    }

    /// Everything that arrived for stream `id`.
    pub closed spec fn arrived(&self, id: u32) -> Seq<SocksMsg> {
        self.arrived@[id]
    }

    /// Everything taken from stream `id`.
    pub closed spec fn taken(&self, id: u32) -> Seq<SocksMsg> {
        self.taken@[id]
    }

    proof fn lemma_at(&self, i: int)
        requires
            self.wf(),
            0 <= i < self.streams@.len(),
        ensures
            self.is_open(self.streams@[i].0),
            self.pending(self.streams@[i].0) == self.streams@[i].1@,
    {
        let id = self.streams@[i].0;
        let k = choose|k: int| 0 <= k < self.streams@.len() && self.streams@[k].0 == id;
        if k < i {
            assert(self.streams@[k].0 != self.streams@[i].0);
        } else if k > i {
            assert(self.streams@[i].0 != self.streams@[k].0);
        }
    }

    /// Messages reach the client of a stream in the order they arrived: what
    /// was taken is the start of what arrived, and what is pending is the rest.
    pub proof fn lemma_delivery_in_order(&self, id: u32)
        requires
            self.wf(),
            self.is_open(id),
        ensures
            self.arrived(id) == self.taken(id) + self.pending(id),
            self.taken(id) == self.arrived(id).subrange(0, self.taken(id).len() as int),
    {
        let i = choose|i: int| 0 <= i < self.streams@.len() && self.streams@[i].0 == id;
        self.lemma_at(i);
        assert(self.taken(id) =~= self.arrived(id).subrange(0, self.taken(id).len() as int));
    }

    pub fn new() -> (r: Socks5Server)
        ensures
            r.wf(),
            r.last_id() == 1,
            forall|id: u32| !r.is_open(id),
    {
        Socks5Server { next_stream_id: 1, streams: Vec::new(), arrived: Ghost(Map::empty()), taken: Ghost(Map::empty()) }
    }

    fn index_of(&self, id: u32) -> (r: Option<usize>)
        requires
            self.wf(),
        ensures
            r matches Some(i) ==> i < self.streams@.len() && self.streams@[i as int].0 == id,
            r is None ==> !self.is_open(id),
    {
        let mut i: usize = 0;
        while i < self.streams.len()
            invariant
                i <= self.streams@.len(),
                forall|k: int| 0 <= k < i ==> self.streams@[k].0 != id,
            decreases self.streams@.len() - i,
        {
            if self.streams[i].0 == id {
                return Some(i);
            }
            i = i + 1;
        }
        None
    }

    /// Opens a stream under a fresh id, one above the last handed out.
    /// Returns `None` once the ids are used up.
    pub fn open_stream(&mut self) -> (r: Option<u32>)
        requires
            old(self).wf(),
        ensures
            final(self).wf(),
            old(self).last_id() == u32::MAX ==> r is None && *final(self) == *old(self),
            old(self).last_id() < u32::MAX ==> ({
                &&& r == Some((old(self).last_id() + 1) as u32)
                &&& final(self).last_id() == old(self).last_id() + 1
                &&& !old(self).is_open(r->0)
                &&& final(self).is_open(r->0)
                &&& final(self).pending(r->0) == Seq::<SocksMsg>::empty()
                &&& final(self).arrived(r->0) == Seq::<SocksMsg>::empty()
                &&& forall|id: u32| id != r->0 ==> (final(self).is_open(id) == old(self).is_open(id))
                &&& forall|id: u32| id != r->0 && old(self).is_open(id) ==> final(self).pending(id) == old(self).pending(id)
                    && final(self).arrived(id) == old(self).arrived(id) && final(self).taken(id) == old(self).taken(id)
            }),
    {
        if self.next_stream_id == u32::MAX {
            return None;
        }
        let id = self.next_stream_id + 1;
        self.next_stream_id = id;
        self.streams.push((id, Vec::new()));
        self.arrived = Ghost(self.arrived@.insert(id, Seq::empty()));
        self.taken = Ghost(self.taken@.insert(id, Seq::empty()));
        proof {
            let n = old(self).streams@.len() as int;
            assert forall|i: int| 0 <= i < n implies old(self).streams@[i].0 != id by {
                assert(old(self).streams@[i].0 <= old(self).next_stream_id);
            }
            assert forall|i: int, j: int| 0 <= i < j < self.streams@.len() implies #[trigger] self.streams@[i].0
                != #[trigger] self.streams@[j].0 by {
                if j < n {
                    assert(old(self).streams@[i].0 != old(self).streams@[j].0);
                }
            }
            assert forall|i: int| 0 <= i < self.streams@.len() implies {
                let (sid, q) = #[trigger] self.streams@[i];
                &&& sid <= self.next_stream_id
                &&& self.arrived@.contains_key(sid)
                &&& self.taken@.contains_key(sid)
                &&& self.arrived@[sid] == self.taken@[sid] + q@
            } by {
                if i < n {
                    assert(self.streams@[i] == old(self).streams@[i]);
                } else {
                    assert(self.streams@[i].1@ =~= Seq::<SocksMsg>::empty());
                    assert(Seq::<SocksMsg>::empty() + Seq::<SocksMsg>::empty() =~= Seq::<SocksMsg>::empty());
                }
            }
            self.lemma_at(n);
            assert(!old(self).is_open(id));
            assert forall|sid: u32| sid != id implies (self.is_open(sid) == old(self).is_open(sid)) by {
                if self.is_open(sid) {
                    let i = choose|i: int| 0 <= i < self.streams@.len() && self.streams@[i].0 == sid;
                    assert(old(self).streams@[i].0 == sid);
                }
                if old(self).is_open(sid) {
                    let i = choose|i: int| 0 <= i < old(self).streams@.len() && old(self).streams@[i].0 == sid;
                    assert(self.streams@[i].0 == sid);
                }
            }
            assert forall|sid: u32| sid != id && old(self).is_open(sid) implies self.pending(sid) == old(self).pending(sid) by {
                let i = choose|i: int| 0 <= i < old(self).streams@.len() && old(self).streams@[i].0 == sid;
                old(self).lemma_at(i);
                assert(self.streams@[i] == old(self).streams@[i]);
                self.lemma_at(i);
            }
        }
        Some(id)
    }

    /// Decides a CONNECT to `target`: with a route to it, opens a stream and
    /// returns the routing peer and the stream id; without one, the reply
    /// code is "network unreachable"; with the ids used up, "host unreachable".
    pub fn plan_connect(&mut self, routes: &RouteTable, target: Ip4) -> (r: Result<(String, u32), u8>)
        requires
            old(self).wf(),
            routes.wf(),
        ensures
            final(self).wf(),
            !routes@.contains_key(target) ==> r == Err::<(String, u32), u8>(REPLY_NETWORK_UNREACHABLE) && *final(self)
                == *old(self),
            routes@.contains_key(target) && old(self).last_id() == u32::MAX ==> r == Err::<(String, u32), u8>(
                REPLY_HOST_UNREACHABLE,
            ) && *final(self) == *old(self),
            routes@.contains_key(target) && old(self).last_id() < u32::MAX ==> ({
                &&& r matches Ok((peer, id)) && peer@ == routes@[target] && id == old(self).last_id() + 1
                &&& final(self).last_id() == r->Ok_0.1
                &&& !old(self).is_open(r->Ok_0.1)
                &&& final(self).is_open(r->Ok_0.1)
                &&& final(self).pending(r->Ok_0.1) == Seq::<SocksMsg>::empty()
                &&& final(self).arrived(r->Ok_0.1) == Seq::<SocksMsg>::empty()
                &&& forall|id: u32| id != r->Ok_0.1 ==> (final(self).is_open(id) == old(self).is_open(id))
                &&& forall|id: u32|
                    id != r->Ok_0.1 && old(self).is_open(id) ==> final(self).pending(id) == old(self).pending(id)
                        && final(self).arrived(id) == old(self).arrived(id) && final(self).taken(id) == old(
                        self,
                    ).taken(id)
            }),
    {
        let peer = match routes.get(target) {
            Some(p) => p.clone(),
            None => return Err(REPLY_NETWORK_UNREACHABLE),
        };
        match self.open_stream() {
            Some(id) => Ok((peer, id)),
            None => Err(REPLY_HOST_UNREACHABLE),
        }
    }

    /// A message arrived for stream `id`: it is queued behind the earlier
    /// ones. Returns whether the stream is open (else the message is dropped).
    pub fn on_msg(&mut self, id: u32, msg: SocksMsg) -> (r: bool)
        requires
            old(self).wf(),
        ensures
            final(self).wf(),
            r == old(self).is_open(id),
            final(self).last_id() == old(self).last_id(),
            forall|s: u32| #[trigger] final(self).is_open(s) == old(self).is_open(s),
            r ==> final(self).pending(id) == old(self).pending(id).push(msg) && final(self).arrived(id) == old(
                self,
            ).arrived(id).push(msg) && final(self).taken(id) == old(self).taken(id),
            forall|s: u32| s != id && old(self).is_open(s) ==> final(self).pending(s) == old(self).pending(s)
                && final(self).arrived(s) == old(self).arrived(s) && final(self).taken(s) == old(self).taken(s),
    {
        match self.index_of(id) {
            None => false,
            Some(i) => {
                let ghost m = msg;
                proof {
                    self.lemma_at(i as int);
                }
                let mut entry = (id, Vec::new());
                std::mem::swap(&mut entry, &mut self.streams[i]);
                entry.1.push(msg);
                std::mem::swap(&mut entry, &mut self.streams[i]);
                self.arrived = Ghost(self.arrived@.insert(id, self.arrived@[id].push(m)));
                proof {
                    self.lemma_after_update(old(self), i as int);
                    assert(self.arrived@[id] =~= self.taken@[id] + self.streams@[i as int].1@);
                }
                true
            },
        }
    }

    proof fn lemma_after_update(&self, before: &Socks5Server, i: int)
        requires
            before.wf(),
            0 <= i < before.streams@.len(),
            self.streams@.len() == before.streams@.len(),
            self.streams@[i].0 == before.streams@[i].0,
            forall|k: int| 0 <= k < self.streams@.len() && k != i ==> self.streams@[k] == before.streams@[k],
            self.next_stream_id == before.next_stream_id,
            forall|s: u32| s != before.streams@[i].0 ==> self.arrived@.contains_key(s) == before.arrived@.contains_key(s)
                && self.arrived@[s] == before.arrived@[s],
            forall|s: u32| s != before.streams@[i].0 ==> self.taken@.contains_key(s) == before.taken@.contains_key(s)
                && self.taken@[s] == before.taken@[s],
            self.arrived@.contains_key(before.streams@[i].0),
            self.taken@.contains_key(before.streams@[i].0),
            self.arrived@[before.streams@[i].0] == self.taken@[before.streams@[i].0] + self.streams@[i].1@,
        ensures
            self.wf(),
            forall|s: u32| #[trigger] self.is_open(s) == before.is_open(s),
            self.pending(before.streams@[i].0) == self.streams@[i].1@,
            forall|s: u32| s != before.streams@[i].0 && before.is_open(s) ==> self.pending(s) == before.pending(s),
    {
        let id = before.streams@[i].0;
        assert forall|a: int, b: int| 0 <= a < b < self.streams@.len() implies #[trigger] self.streams@[a].0
            != #[trigger] self.streams@[b].0 by {
            assert(before.streams@[a].0 != before.streams@[b].0);
        }
        assert forall|k: int| 0 <= k < self.streams@.len() implies {
            let (sid, q) = #[trigger] self.streams@[k];
            &&& sid <= self.next_stream_id
            &&& self.arrived@.contains_key(sid)
            &&& self.taken@.contains_key(sid)
            &&& self.arrived@[sid] == self.taken@[sid] + q@
        } by {
            if k != i {
                assert(self.streams@[k] == before.streams@[k]);
                assert(before.streams@[k].0 != id) by {
                    if k < i {
                        assert(before.streams@[k].0 != before.streams@[i].0);
                    } else {
                        assert(before.streams@[i].0 != before.streams@[k].0);
                    }
                }
            } else {
                assert(before.streams@[i].0 <= before.next_stream_id);
            }
        }
        assert forall|s: u32| #[trigger] self.is_open(s) == before.is_open(s) by {
            if self.is_open(s) {
                let k = choose|k: int| 0 <= k < self.streams@.len() && self.streams@[k].0 == s;
                assert(before.streams@[k].0 == s);
            }
            if before.is_open(s) {
                let k = choose|k: int| 0 <= k < before.streams@.len() && before.streams@[k].0 == s;
                assert(self.streams@[k].0 == s);
            }
        }
        self.lemma_at(i);
        assert forall|s: u32| s != id && before.is_open(s) implies self.pending(s) == before.pending(s) by {
            let k = choose|k: int| 0 <= k < before.streams@.len() && before.streams@[k].0 == s;
            before.lemma_at(k);
            self.lemma_at(k);
        }
    }

    /// Takes the oldest pending message of stream `id`, if there is one.
    pub fn take(&mut self, id: u32) -> (r: Option<SocksMsg>)
        requires
            old(self).wf(),
        ensures
            final(self).wf(),
            final(self).last_id() == old(self).last_id(),
            forall|s: u32| #[trigger] final(self).is_open(s) == old(self).is_open(s),
            !old(self).is_open(id) || old(self).pending(id).len() == 0 ==> r is None && final(self).pending(id)
                == old(self).pending(id) && final(self).taken(id) == old(self).taken(id),
            old(self).is_open(id) && old(self).pending(id).len() > 0 ==> r == Some(old(self).pending(id)[0])
                && final(self).pending(id) == old(self).pending(id).drop_first() && final(self).taken(id) == old(
                self,
            ).taken(id).push(old(self).pending(id)[0]),
            old(self).is_open(id) ==> final(self).arrived(id) == old(self).arrived(id),
            forall|s: u32| s != id && old(self).is_open(s) ==> final(self).pending(s) == old(self).pending(s)
                && final(self).arrived(s) == old(self).arrived(s) && final(self).taken(s) == old(self).taken(s),
    {
        match self.index_of(id) {
            None => None,
            Some(i) => {
                proof {
                    self.lemma_at(i as int);
                }
                if self.streams[i].1.len() == 0 {
                    return None;
                }
                let mut entry = (id, Vec::new());
                std::mem::swap(&mut entry, &mut self.streams[i]);
                let m = entry.1.remove(0);
                std::mem::swap(&mut entry, &mut self.streams[i]);
                self.taken = Ghost(self.taken@.insert(id, self.taken@[id].push(m)));
                proof {
                    let q0 = old(self).streams@[i as int].1@;
                    assert(self.streams@[i as int].1@ =~= q0.drop_first());
                    assert(self.arrived@[id] =~= self.taken@[id] + self.streams@[i as int].1@);
                    self.lemma_after_update(old(self), i as int);
                }
                Some(m)
            },
        }
    }

    /// Closes stream `id`; later messages for it are dropped.
    pub fn close_stream(&mut self, id: u32)
        requires
            old(self).wf(),
        ensures
            final(self).wf(),
            final(self).last_id() == old(self).last_id(),
            !final(self).is_open(id),
            forall|s: u32| s != id ==> #[trigger] final(self).is_open(s) == old(self).is_open(s),
            forall|s: u32| s != id && old(self).is_open(s) ==> final(self).pending(s) == old(self).pending(s)
                && final(self).arrived(s) == old(self).arrived(s) && final(self).taken(s) == old(self).taken(s),
    {
        match self.index_of(id) {
            None => {},
            Some(i) => {
                self.streams.remove(i);
                proof {
                    let n = old(self).streams@.len() as int;
                    let ii = i as int;
                    assert forall|k: int| 0 <= k < self.streams@.len() implies #[trigger] self.streams@[k] == old(self).streams@[if k < ii { k } else { k + 1 }] by {}
                    assert forall|a: int, b: int| 0 <= a < b < self.streams@.len() implies #[trigger] self.streams@[a].0
                        != #[trigger] self.streams@[b].0 by {
                        let a0 = if a < ii { a } else { a + 1 };
                        let b0 = if b < ii { b } else { b + 1 };
                        assert(old(self).streams@[a0].0 != old(self).streams@[b0].0);
                    }
                    assert forall|k: int| 0 <= k < self.streams@.len() implies {
                        let (sid, q) = #[trigger] self.streams@[k];
                        &&& sid <= self.next_stream_id
                        &&& self.arrived@.contains_key(sid)
                        &&& self.taken@.contains_key(sid)
                        &&& self.arrived@[sid] == self.taken@[sid] + q@
                    } by {
                        let k0 = if k < ii { k } else { k + 1 };
                        assert(self.streams@[k] == old(self).streams@[k0]);
                    }
                    assert(!self.is_open(id)) by {
                        if self.is_open(id) {
                            let k = choose|k: int| 0 <= k < self.streams@.len() && self.streams@[k].0 == id;
                            let k0 = if k < ii { k } else { k + 1 };
                            assert(old(self).streams@[k0].0 == id);
                            if k0 < ii {
                                assert(old(self).streams@[k0].0 != old(self).streams@[ii].0);
                            } else {
                                assert(old(self).streams@[ii].0 != old(self).streams@[k0].0);
                            }
                        }
                    }
                    assert forall|s: u32| s != id implies #[trigger] self.is_open(s) == old(self).is_open(s) by {
                        if self.is_open(s) {
                            let k = choose|k: int| 0 <= k < self.streams@.len() && self.streams@[k].0 == s;
                            let k0 = if k < ii { k } else { k + 1 };
                            assert(old(self).streams@[k0].0 == s);
                        }
                        if old(self).is_open(s) {
                            let k = choose|k: int| 0 <= k < n && old(self).streams@[k].0 == s;
                            let k1 = if k < ii { k } else { k - 1 };
                            assert(k != ii);
                            assert(self.streams@[k1].0 == s);
                        }
                    }
                    assert forall|s: u32| s != id && old(self).is_open(s) implies self.pending(s) == old(self).pending(s) by {
                        let k = choose|k: int| 0 <= k < n && old(self).streams@[k].0 == s;
                        old(self).lemma_at(k);
                        let k1 = if k < ii { k } else { k - 1 };
                        assert(k != ii);
                        self.lemma_at(k1);
                    }
                }
            },
        }
    }
}

} // verus!
