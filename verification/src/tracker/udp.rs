//! The tracker protocol over UDP: a connect request and an announce request, and their replies.

use vstd::prelude::*;
use vstd::string::StringExecFns;
use crate::bytes::push_bytes;
use crate::endian::{self, push_be16, push_be32, push_be64, read_be32};
use crate::random::random_u32;
use crate::text::{self, push_number};
use super::response::{self, parse_compact_peers, Answer, TrackerResponse};

verus! {

/// The number with which a connect request starts.
pub const PROTOCOL_ID: u64 = 0x417_2710_1980;

/// The port of a tracker whose address names none.
pub const DEFAULT_PORT: u16 = 80;

/// Why a tracker gives no peers over UDP.
#[derive(Debug, Clone, Copy, PartialEq, Eq)]
pub enum UdpError {
    /// The reply to the connect request has too few bytes.
    ConnectTooShort,
    /// The reply is none to the connect request.
    InvalidConnect,
    /// The reply to the announce request has too few bytes.
    AnnounceTooShort,
    /// The reply is none to the announce request.
    InvalidAnnounce,
}

/// Why there is no address to send to.
#[derive(Debug, Clone, PartialEq, Eq)]
pub enum EndpointError {
    /// The address of the tracker is no URL, for the reason that is given.
    InvalidUrl(String),
    /// The URL names no host.
    NoHost,
}

/// The model of why there is no address to send to.
pub enum BadEndpoint {
    InvalidUrl(Seq<char>),
    NoHost,
}

impl View for EndpointError {
    type V = BadEndpoint;

    open spec fn view(&self) -> BadEndpoint {
        match *self {
            EndpointError::InvalidUrl(reason) => BadEndpoint::InvalidUrl(reason@),
            EndpointError::NoHost => BadEndpoint::NoHost,
        }
    }
}

/// The host and the port that a URL names, or the reason why the text is no URL.
pub uninterp spec fn url_parts(s: Seq<char>) -> Result<
    (Option<Seq<char>>, Option<u16>),
    Seq<char>,
>;

/// `Url::parse` of the crate `url`, with what `host_str` and `port` read of its result, and the
/// text of its error: whether the text is a URL, its host and its port, and the reason why it is
/// none, are functions of the text alone. The contract leaves unsaid which texts are URLs.
#[verifier::external_body]
pub(crate) fn parse_url(s: &str) -> (r: Result<(Option<String>, Option<u16>), String>)
    ensures
        match (r, url_parts(s@)) {
            (Ok((Some(h), p)), Ok((Some(host), port))) => h@ == host && p == port,
            (Ok((None, p)), Ok((None, port))) => p == port,
            (Err(e), Err(reason)) => e@ == reason,
            _ => false,
        },
{
    match url::Url::parse(s) {
        Ok(u) => Ok((u.host_str().map(|h| h.to_owned()), u.port())),
        Err(e) => Err(e.to_string()),
    }
}

/// The address to send to: the host, and the port or else the default one.
pub open spec fn endpoint_text(host: Seq<char>, port: Option<u16>) -> Seq<char> {
    host + ":"@ + text::number_text(
        match port {
            Some(p) => p as nat,
            None => DEFAULT_PORT as nat,
        },
    )
}

/// The address to send to for the parts of a tracker's URL.
pub open spec fn endpoint_of(
    parts: Result<(Option<Seq<char>>, Option<u16>), Seq<char>>,
) -> Result<Seq<char>, BadEndpoint> {
    match parts {
        Err(reason) => Err(BadEndpoint::InvalidUrl(reason)),
        Ok((None, _)) => Err(BadEndpoint::NoHost),
        Ok((Some(host), port)) => Ok(endpoint_text(host, port)),
    }
}

/// The address to send to for the host and the port of a tracker's URL.
pub fn udp_address(host: Option<String>, port: Option<u16>) -> (r: Result<String, EndpointError>)
    ensures
        match host {
            Some(h) => r matches Ok(s) && s@ == endpoint_text(h@, port),
            None => r matches Err(e) && e == EndpointError::NoHost,
        },
{
    let mut address = match host {
        Some(h) => h,
        None => {
            return Err(EndpointError::NoHost);
        },
    };
    let number = match port {
        Some(p) => p,
        None => DEFAULT_PORT,
    };
    address.append(":");
    push_number(&mut address, number as u64);
    Ok(address)
}

/// The address to send to for a tracker's URL.
pub fn udp_endpoint(tracker_url: &str) -> (r: Result<String, EndpointError>)
    ensures
        match (r, endpoint_of(url_parts(tracker_url@))) {
            (Ok(s), Ok(t)) => s@ == t,
            (Err(e), Err(fault)) => e@ == fault,
            _ => false,
        },
{
    match parse_url(tracker_url) {
        Ok((host, port)) => udp_address(host, port),
        Err(reason) => Err(EndpointError::InvalidUrl(reason)),
    }
}

/// The bytes of a connect request.
pub open spec fn connect_bytes(transaction: u32) -> Seq<u8> {
    endian::be64(PROTOCOL_ID) + endian::be32(0) + endian::be32(transaction)
}

/// The connection that the reply to a connect request opens.
pub open spec fn connection_in(s: Seq<u8>, transaction: u32) -> Result<Seq<u8>, UdpError> {
    if s.len() < 16 {
        Err(UdpError::ConnectTooShort)
    } else if endian::be32_at(s, 0) != 0 || endian::be32_at(s, 4) != transaction {
        Err(UdpError::InvalidConnect)
    } else {
        Ok(s.subrange(8, 16))
    }
}

/// The bytes of an announce request. Nothing was downloaded or uploaded yet, no event is reported,
/// and the tracker is to take the sender's address and its own number of peers.
pub open spec fn announce_bytes(
    connection: Seq<u8>,
    transaction: u32,
    info_hash: Seq<u8>,
    peer_id: Seq<u8>,
    left: u64,
    key: u32,
    port: u16,
) -> Seq<u8> {
    connection + endian::be32(1) + endian::be32(transaction) + info_hash + peer_id + endian::be64(0)
        + endian::be64(left) + endian::be64(0) + endian::be32(0) + endian::be32(0) + endian::be32(
        key,
    ) + endian::be32(u32::MAX) + endian::be16(port)
}

/// What the reply to an announce request says. The numbers of leechers and seeders in it do not
/// count.
pub open spec fn announcement_in(s: Seq<u8>, transaction: u32) -> Result<Answer, UdpError> {
    if s.len() < 20 {
        Err(UdpError::AnnounceTooShort)
    } else if endian::be32_at(s, 0) != 1 || endian::be32_at(s, 4) != transaction {
        Err(UdpError::InvalidAnnounce)
    } else {
        Ok(
            Answer {
                interval: endian::be32_at(s, 8) as usize,
                peers: response::compact_peers(s.skip(20)),
            },
        )
    }
}

/// Builds a connect request.
pub fn connect_request(transaction: u32) -> (r: Vec<u8>)
    ensures
        r@ == connect_bytes(transaction),
{
    let mut buf: Vec<u8> = Vec::new();
    push_be64(&mut buf, PROTOCOL_ID);
    push_be32(&mut buf, 0);
    push_be32(&mut buf, transaction);
    assert(buf@ =~= connect_bytes(transaction));
    buf
}

/// Reads the reply to the connect request with the transaction number.
pub fn parse_connect_reply(reply: &[u8], transaction: u32) -> (r: Result<[u8; 8], UdpError>)
    ensures
        match (r, connection_in(reply@, transaction)) {
            (Ok(c), Ok(d)) => c@ == d,
            (Err(e), Err(f)) => e == f,
            _ => false,
        },
{
    if reply.len() < 16 {
        return Err(UdpError::ConnectTooShort);
    }
    if read_be32(reply, 0) != 0 || read_be32(reply, 4) != transaction {
        return Err(UdpError::InvalidConnect);
    }
    let connection: [u8; 8] = [
        reply[8],
        reply[9],
        reply[10],
        reply[11],
        reply[12],
        reply[13],
        reply[14],
        reply[15],
    ];
    assert(connection@ =~= reply@.subrange(8, 16));
    Ok(connection)
}

/// Builds an announce request.
pub fn announce_request(
    connection: &[u8; 8],
    transaction: u32,
    info_hash: &[u8; 20],
    peer_id: &[u8; 20],
    left: usize,
    key: u32,
    port: u16,
) -> (r: Vec<u8>)
    ensures
        r@ == announce_bytes(
            connection@,
            transaction,
            info_hash@,
            peer_id@,
            left as u64,
            key,
            port,
        ),
{
    let mut buf: Vec<u8> = Vec::new();
    push_bytes(&mut buf, connection.as_slice());
    push_be32(&mut buf, 1);
    push_be32(&mut buf, transaction);
    push_bytes(&mut buf, info_hash.as_slice());
    push_bytes(&mut buf, peer_id.as_slice());
    push_be64(&mut buf, 0);
    push_be64(&mut buf, left as u64);
    push_be64(&mut buf, 0);
    push_be32(&mut buf, 0);
    push_be32(&mut buf, 0);
    push_be32(&mut buf, key);
    push_be32(&mut buf, u32::MAX);
    push_be16(&mut buf, port);
    assert(buf@ =~= announce_bytes(
        connection@,
        transaction,
        info_hash@,
        peer_id@,
        left as u64,
        key,
        port,
    ));
    buf
}

/// Reads the reply to the announce request with the transaction number.
pub fn parse_announce_reply(reply: &[u8], transaction: u32) -> (r: Result<
    TrackerResponse,
    UdpError,
>)
    ensures
        match (r, announcement_in(reply@, transaction)) {
            (Ok(response), Ok(answer)) => response@ == answer,
            (Err(e), Err(f)) => e == f,
            _ => false,
        },
{
    if reply.len() < 20 {
        return Err(UdpError::AnnounceTooShort);
    }
    if read_be32(reply, 0) != 1 || read_be32(reply, 4) != transaction {
        return Err(UdpError::InvalidAnnounce);
    }
    let interval = read_be32(reply, 8) as usize;
    let peers = parse_compact_peers(vstd::slice::slice_subrange(reply, 20, reply.len()));
    assert(reply@.subrange(20, reply@.len() as int) =~= reply@.skip(20));
    Ok(TrackerResponse { interval, peers })
}

/// What the tracker is to send next.
#[derive(Debug, Clone, Copy, PartialEq, Eq, Structural)]
pub enum Awaited {
    /// The reply to the connect request with the transaction number.
    Connection { transaction: u32 },
    /// The reply to the announce request with the transaction number.
    Peers { transaction: u32 },
}

/// What to do with a tracker after its reply.
#[derive(Debug, Clone, PartialEq, Eq)]
pub enum UdpStep {
    /// The bytes are to be sent, and the next reply is to be read.
    Send(Vec<u8>),
    /// The tracker has answered.
    Done(TrackerResponse),
}

/// The exchange with one tracker.
pub struct UdpAnnounce {
    info_hash: [u8; 20],
    peer_id: [u8; 20],
    left: usize,
    port: u16,
    awaited: Awaited,
}

/// The model of an exchange.
#[verifier::ext_equal]
pub struct Exchange {
    pub info_hash: Seq<u8>,
    pub peer_id: Seq<u8>,
    pub left: usize,
    pub port: u16,
    pub awaited: Awaited,
}

impl View for UdpAnnounce {
    type V = Exchange;

    closed spec fn view(&self) -> Exchange {
        Exchange {
            info_hash: self.info_hash@,
            peer_id: self.peer_id@,
            left: self.left,
            port: self.port,
            awaited: self.awaited,
        }
    }
}

/// The step after a reply, and the exchange from then on. A reply that is refused changes nothing.
pub open spec fn after_reply(
    before: Exchange,
    reply: Seq<u8>,
    transaction: u32,
    key: u32,
    r: Result<UdpStep, UdpError>,
    after: Exchange,
) -> bool {
    match before.awaited {
        Awaited::Connection { transaction: sent } => match connection_in(reply, sent) {
            Err(e) => r == Err::<UdpStep, UdpError>(e) && after == before,
            Ok(connection) => {
                &&& r matches Ok(UdpStep::Send(request))
                &&& request@ == announce_bytes(
                    connection,
                    transaction,
                    before.info_hash,
                    before.peer_id,
                    before.left as u64,
                    key,
                    before.port,
                )
                &&& after == (Exchange { awaited: Awaited::Peers { transaction }, ..before })
            },
        },
        Awaited::Peers { transaction: sent } => match announcement_in(reply, sent) {
            Err(e) => r == Err::<UdpStep, UdpError>(e) && after == before,
            Ok(answer) => {
                &&& r matches Ok(UdpStep::Done(response))
                &&& response@ == answer
                &&& after == before
            },
        },
    }
}

impl UdpAnnounce {
    /// Starts an exchange, and gives the bytes to send first. The transaction number is given.
    pub fn begin_with(
        info_hash: [u8; 20],
        peer_id: [u8; 20],
        left: usize,
        port: u16,
        transaction: u32,
    ) -> (r: (Self, Vec<u8>))
        ensures
            r.0@ == (Exchange {
                info_hash: info_hash@,
                peer_id: peer_id@,
                left,
                port,
                awaited: Awaited::Connection { transaction },
            }),
            r.1@ == connect_bytes(transaction),
    {
        let exchange = UdpAnnounce {
            info_hash,
            peer_id,
            left,
            port,
            awaited: Awaited::Connection { transaction },
        };
        (exchange, connect_request(transaction))
    }

    /// Starts an exchange with a transaction number by chance, and gives the bytes to send first.
    pub fn begin(info_hash: [u8; 20], peer_id: [u8; 20], left: usize, port: u16) -> (r: (
        Self,
        Vec<u8>,
    ))
        ensures
            r.0@.info_hash == info_hash@,
            r.0@.peer_id == peer_id@,
            r.0@.left == left,
            r.0@.port == port,
            r.0@.awaited matches Awaited::Connection { transaction } && r.1@ == connect_bytes(
                transaction,
            ),
    {
        Self::begin_with(info_hash, peer_id, left, port, random_u32())
    }

    /// What the tracker is to send next.
    pub fn awaited(&self) -> (r: Awaited)
        ensures
            r == self@.awaited,
    {
        self.awaited
    }

    /// Takes in a reply. The transaction number and the key of the announce request are given.
    pub fn receive_with(&mut self, reply: &[u8], transaction: u32, key: u32) -> (r: Result<
        UdpStep,
        UdpError,
    >)
        ensures
            after_reply(old(self)@, reply@, transaction, key, r, final(self)@),
    {
        match self.awaited {
            Awaited::Connection { transaction: sent } => {
                let connection = match parse_connect_reply(reply, sent) {
                    Ok(c) => c,
                    Err(e) => {
                        return Err(e);
                    },
                };
                self.awaited = Awaited::Peers { transaction };
                Ok(
                    UdpStep::Send(
                        announce_request(
                            &connection,
                            transaction,
                            &self.info_hash,
                            &self.peer_id,
                            self.left,
                            key,
                            self.port,
                        ),
                    ),
                )
            },
            Awaited::Peers { transaction: sent } => match parse_announce_reply(reply, sent) {
                Ok(response) => Ok(UdpStep::Done(response)),
                Err(e) => Err(e),
            },
        }
    }

    /// Takes in a reply. The numbers in an announce request that answers it are left to chance.
    pub fn receive(&mut self, reply: &[u8]) -> (r: Result<UdpStep, UdpError>)
        ensures
            exists|transaction: u32, key: u32| #[trigger]
                after_reply(old(self)@, reply@, transaction, key, r, final(self)@),
    {
        self.receive_with(reply, random_u32(), random_u32())
    }
}

/// The requests have the lengths that the protocol gives them.
pub proof fn law_request_lengths(
    connection: Seq<u8>,
    transaction: u32,
    info_hash: Seq<u8>,
    peer_id: Seq<u8>,
    left: u64,
    key: u32,
    port: u16,
)
    requires
        connection.len() == 8,
        info_hash.len() == 20,
        peer_id.len() == 20,
    ensures
        connect_bytes(transaction).len() == 16,
        announce_bytes(connection, transaction, info_hash, peer_id, left, key, port).len() == 98,
{
}

/// A reply is taken for at most one transaction, and never for one of the other kind.
pub proof fn law_reply_is_for_one_request(s: Seq<u8>, mine: u32, other: u32)
    requires
        mine != other,
    ensures
        connection_in(s, mine) is Ok ==> connection_in(s, other) is Err,
        announcement_in(s, mine) is Ok ==> announcement_in(s, other) is Err,
        connection_in(s, mine) is Ok ==> announcement_in(s, mine) is Err,
{
}

/// The connection that a tracker sends back for a transaction is the one that is read.
pub proof fn law_connection_reads_back(connection: Seq<u8>, transaction: u32)
    requires
        connection.len() == 8,
    ensures
        connection_in(endian::be32(0) + endian::be32(transaction) + connection, transaction)
            == Ok::<Seq<u8>, UdpError>(connection),
{
    let s = endian::be32(0) + endian::be32(transaction) + connection;
    endian::law_be32_reads_back(0);
    endian::law_be32_reads_back(transaction);
    assert(s.subrange(8, 16) =~= connection);
}

} // verus!
