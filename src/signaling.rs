use vstd::prelude::*;

use crate::codec::{base64_text, encode_base64};
use url::Url;

verus! {

#[verifier::external_type_specification]
#[verifier::external_body]
pub struct ExUrlParseError(url::ParseError);

/// The serialization of text that the `url` crate parses as an absolute URL,
/// or `None` where it does not parse.
pub uninterp spec fn parsed_url(s: Seq<char>) -> Option<Seq<char>>;

/// Text in `application/x-www-form-urlencoded` form.
pub uninterp spec fn form_encoded(s: Seq<char>) -> Seq<char>;

/// Relies on `url::Url::parse` and the parsed URL's serialization
/// (`String::from(url)`): both depend on the text alone.
#[verifier::external_body]
fn serialize_url(s: &str) -> (r: Result<String, url::ParseError>)
    ensures
        match parsed_url(s@) {
            Some(t) => r matches Ok(u) && u@ == t,
            None => r is Err,
        },
{
    Url::parse(s).map(String::from)
}

/// Relies on `url::form_urlencoded::byte_serialize`, the encoding that
/// `Url::query_pairs_mut().append_pair` writes: it depends on the text alone.
#[verifier::external_body]
fn form_encode(s: &str) -> (r: String)
    ensures
        r@ == form_encoded(s@),
{
    url::form_urlencoded::byte_serialize(s.as_bytes()).collect()
}

/// An advertisement that a peer routes traffic for a target.
#[derive(Clone, Debug)]
pub struct ServiceDecl {
    pub ip: String,
    pub port: u16,
    /// `tcp` or `udp`.
    pub protocol: String,
    /// `generic`, `printer`, `discovery`, ...
    pub service_type: String,
    pub description: String,
}

/// The frames of the rendezvous protocol. Binary payloads (`data`) are
/// base64 text with standard padding.
#[derive(Clone, Debug)]
pub enum SignalMessage {
    Join {
        id: String,
        ip: String,
        name: String,
        p2p_port: u16,
        os: Option<String>,
        version: Option<String>,
        device_type: Option<String>,
        is_gateway: bool,
    },
    RegisterServices { id: String, services: Vec<ServiceDecl> },
    ServiceUpdate { services: Vec<(String, ServiceDecl)> },
    PeerJoined {
        id: String,
        ip: String,
        public_addr: Option<String>,
        p2p_port: u16,
        name: String,
        os: Option<String>,
        version: Option<String>,
        device_type: Option<String>,
        is_gateway: bool,
        connected_at: Option<u64>,
    },
    PeerLeft { id: String },
    Offer { target: String, source: String, sdp: String },
    Answer { target: String, source: String, sdp: String },
    Candidate { target: String, source: String, candidate: String },
    Broadcast { source: String, data: String },
    TunPacket { target: String, source: String, data: String },
    TcpConnect { stream_id: u32, target: String, source: String, target_ip: String, target_port: u16 },
    TcpConnected { stream_id: u32, target: String, source: String, success: bool },
    TcpData { stream_id: u32, target: String, source: String, data: String },
    TcpClose { stream_id: u32, target: String, source: String },
}

/// Commands an embedder sends to a running node.
pub enum NodeCommand {
    UpdateServices(Vec<ServiceDecl>),
}

/// Why a rendezvous session could not be prepared.
#[derive(Clone, Copy, Debug, PartialEq, Eq, Structural)]
pub enum SignalError {
    InvalidUrl,
}

/// Text without its trailing slashes.
pub open spec fn trim_slashes(s: Seq<char>) -> Seq<char>
    decreases s.len(),
{
    if s.len() > 0 && s.last() == '/' {
        trim_slashes(s.drop_last())
    } else {
        s
    }
}

/// The rendezvous endpoint for a group: `{server}/wapi/{group}`, with the
/// server's trailing slashes dropped.
pub open spec fn rendezvous_text(server: Seq<char>, group: Seq<char>) -> Seq<char> {
    trim_slashes(server) + "/wapi/"@ + group
}

/// The rendezvous endpoint with the token, when there is one, as the
/// form-encoded query pair `token=...`.
pub open spec fn rendezvous_url_text(server: Seq<char>, group: Seq<char>, token: Option<Seq<char>>) -> Seq<
    char,
> {
    match token {
        Some(t) => rendezvous_text(server, group) + "?token="@ + form_encoded(t),
        None => rendezvous_text(server, group),
    }
}

pub open spec fn opt_view(o: Option<String>) -> Option<Seq<char>> {
    match o {
        Some(s) => Some(s@),
        None => None,
    }
}

pub fn rendezvous_url(server_url: &str, group_id: &str, token: &Option<String>) -> (r: String)
    ensures
        r@ == rendezvous_url_text(server_url@, group_id@, opt_view(*token)),
{
    let mut s = rendezvous_base(server_url, group_id);
    match token {
        Some(t) => {
            s.append("?token=");
            let enc = form_encode(t.as_str());
            s.append(enc.as_str());
        },
        None => {},
    }
    s
}

pub fn rendezvous_base(server_url: &str, group_id: &str) -> (r: String)
    ensures
        r@ == rendezvous_text(server_url@, group_id@),
{
    let mut end = server_url.unicode_len();
    assert(server_url@.subrange(0, end as int) =~= server_url@);
    while end > 0 && server_url.get_char(end - 1) == '/'
        invariant
            end <= server_url@.len(),
            trim_slashes(server_url@.subrange(0, end as int)) == trim_slashes(server_url@),
        decreases end,
    {
        proof {
            assert(server_url@.subrange(0, end as int).drop_last() =~= server_url@.subrange(0, end - 1));
        }
        end = end - 1;
    }
    let trimmed = server_url.substring_char(0, end);
    let mut s = trimmed.to_string();
    let sep = "/wapi/";
    s.append(sep);
    s.append(group_id);
    proof {
        assert(trim_slashes(server_url@.subrange(0, end as int)) == server_url@.subrange(0, end as int));
    }
    s
}

/// The group a node joins: the token when there is one, else `default-group`.
pub fn group_for_token(token: &Option<String>) -> (r: String)
    ensures
        r@ == match token {
            Some(t) => t@,
            None => "default-group"@,
        },
{
    match token {
        Some(t) => t.clone(),
        None => "default-group".to_string(),
    }
}

/// What a node says and where, when it opens its rendezvous session.
pub struct SignalingClient {
    /// The endpoint, as the `url` crate serializes it.
    pub url: String,
    /// The first frame of the session.
    pub join: SignalMessage,
}

impl SignalingClient {
    /// Prepares a session: the endpoint URL for the group (with the token as
    /// query parameter when there is one) and the `Join` frame. Fails when
    /// the endpoint is not a URL.
    pub fn prepare(
        server_url: &str,
        group_id: &str,
        token: Option<String>,
        my_id: String,
        my_ip: String,
        my_name: String,
        p2p_port: u16,
        my_meta: (Option<String>, Option<String>, Option<String>, bool),
    ) -> (r: Result<SignalingClient, SignalError>)
        ensures
            match parsed_url(rendezvous_url_text(server_url@, group_id@, opt_view(token))) {
                Some(u) => r matches Ok(c) && c.url@ == u && c.join == (SignalMessage::Join {
                    id: my_id,
                    ip: my_ip,
                    name: my_name,
                    p2p_port,
                    os: my_meta.0,
                    version: my_meta.1,
                    device_type: my_meta.2,
                    is_gateway: my_meta.3,
                }),
                None => r == Err::<SignalingClient, SignalError>(SignalError::InvalidUrl),
            },
    {
        let text = rendezvous_url(server_url, group_id, &token);
        let url = match serialize_url(text.as_str()) {
            Ok(u) => u,
            Err(_) => return Err(SignalError::InvalidUrl),
        };
        let join = SignalMessage::Join {
            id: my_id,
            ip: my_ip,
            name: my_name,
            p2p_port,
            os: my_meta.0,
            version: my_meta.1,
            device_type: my_meta.2,
            is_gateway: my_meta.3,
        };
        Ok(SignalingClient { url, join })
    }
}

/// A payload segment of tunneled stream `stream_id`, as base64.
pub fn tcp_data_frame(stream_id: u32, target: String, source: String, bytes: &[u8]) -> (r: SignalMessage)
    ensures
        r matches SignalMessage::TcpData { stream_id: s, target: t, source: so, data } && s == stream_id && t
            == target && so == source && data@ == base64_text(bytes@),
{
    let data = encode_base64(bytes);
    SignalMessage::TcpData { stream_id, target, source, data }
}

} // verus!
