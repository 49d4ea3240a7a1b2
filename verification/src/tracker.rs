//! The tracker exchange, minus the network: building announce packets,
//! decoding announce replies, and the compact peer-list format. The actual
//! HTTP and UDP traffic lives outside; this module computes and checks the
//! bytes.

use vstd::prelude::*;

use crate::bencode::{spec_dec, BencodeError};
use crate::bytes::{
    push_u16_be, push_u32_be, push_u64_be, read_u16_be, read_u32_be, read_u64_be, spec_u16_from_be,
    spec_u16_to_be, spec_u32_from_be, spec_u32_to_be, spec_u64_from_be, spec_u64_to_be,
};

verus! {

/// The protocol magic that opens every UDP tracker connect request.
pub const CONNECT_MAGIC: u64 = 0x41727101980;

/// One peer address from a compact peer list: four IPv4 octets and a port.
#[derive(Debug, PartialEq, Eq, Clone, Copy)]
pub struct PeerAddr {
    /// The four address octets.
    pub ip: [u8; 4],
    /// The TCP port.
    pub port: u16,
}

/// Decodes a compact peer list: six bytes per peer, four address octets
/// then a big-endian port; a trailing fragment shorter than six bytes is
/// ignored.
pub fn parse_compact_peers(data: &[u8]) -> (r: Vec<PeerAddr>)
    ensures
        r@.len() == data@.len() / 6,
        forall|k: int|
            0 <= k < r@.len() ==> (#[trigger] r@[k]).ip@ == data@.subrange(6 * k, 6 * k + 4)
                && r@[k].port == spec_u16_from_be(data@[6 * k + 4], data@[6 * k + 5]),
{
    let n = data.len();
    let count = n / 6;
    let mut out: Vec<PeerAddr> = Vec::new();
    let mut k: usize = 0;
    while k < count
        invariant
            n == data@.len(),
            count == n / 6,
            k <= count,
            out@.len() == k,
            forall|t: int|
                0 <= t < k ==> (#[trigger] out@[t]).ip@ == data@.subrange(6 * t, 6 * t + 4)
                    && out@[t].port == spec_u16_from_be(data@[6 * t + 4], data@[6 * t + 5]),
        decreases count - k,
    {
        proof {
            assert(6 * (k + 1) <= n) by (nonlinear_arith)
                requires
                    k < n / 6,
                    n >= 0,
            ;
        }
        let base = 6 * k;
        let ip: [u8; 4] = [data[base], data[base + 1], data[base + 2], data[base + 3]];
        let port = read_u16_be(data, base + 4);
        proof {
            assert(ip@ =~= data@.subrange(6 * k as int, 6 * k as int + 4));
        }
        out.push(PeerAddr { ip, port });
        k = k + 1;
    }
    out
}

/// The 16-byte UDP connect request: the protocol magic, action 0, and the
/// caller's transaction id.
pub fn build_connect_request(transaction_id: u32) -> (r: Vec<u8>)
    ensures
        r@ == spec_u64_to_be(0x41727101980u64) + spec_u32_to_be(0) + spec_u32_to_be(
            transaction_id,
        ),
        r@.len() == 16,
{
    let mut out: Vec<u8> = Vec::new();
    push_u64_be(&mut out, CONNECT_MAGIC);
    push_u32_be(&mut out, 0);
    push_u32_be(&mut out, transaction_id);
    proof {
        assert(out@ =~= spec_u64_to_be(0x41727101980u64) + spec_u32_to_be(0) + spec_u32_to_be(
            transaction_id,
        ));
    }
    out
}

/// Decodes a UDP connect reply: action, transaction id, and the connection
/// id to use in the announce. Fails exactly when the reply is shorter than
/// 16 bytes.
pub fn parse_connect_response(data: &[u8]) -> (r: Option<(u32, u32, u64)>)
    ensures
        r is Some <==> data@.len() >= 16,
        r matches Some(t) ==> t.0 == spec_u32_from_be(data@[0], data@[1], data@[2], data@[3])
            && t.1 == spec_u32_from_be(data@[4], data@[5], data@[6], data@[7]) && t.2
            == spec_u64_from_be(data@.subrange(8, 16)),
{
    if data.len() < 16 {
        return None;
    }
    let action = read_u32_be(data, 0);
    let transaction_id = read_u32_be(data, 4);
    let connection_id = read_u64_be(data, 8);
    Some((action, transaction_id, connection_id))
}

/// The 98-byte UDP announce request: connection id, action 1, transaction
/// id, info-hash, peer id, three zero counters, no event, default IP and
/// key, count -1, and the listen port.
pub fn build_announce_request(
    connection_id: u64,
    transaction_id: u32,
    info_hash: &[u8; 20],
    peer_id: &[u8; 20],
    port: u16,
) -> (r: Vec<u8>)
    ensures
        r@ == spec_u64_to_be(connection_id) + spec_u32_to_be(1) + spec_u32_to_be(transaction_id)
            + info_hash@ + peer_id@ + spec_u64_to_be(0) + spec_u64_to_be(0) + spec_u64_to_be(0)
            + spec_u32_to_be(0) + spec_u32_to_be(0) + spec_u32_to_be(0) + spec_u32_to_be(
            0xFFFFFFFFu32,
        ) + spec_u16_to_be(port),
        r@.len() == 98,
{
    let mut out: Vec<u8> = Vec::new();
    push_u64_be(&mut out, connection_id);
    push_u32_be(&mut out, 1);
    push_u32_be(&mut out, transaction_id);
    crate::bytes::push_bytes(&mut out, info_hash.as_slice());
    crate::bytes::push_bytes(&mut out, peer_id.as_slice());
    push_u64_be(&mut out, 0);
    push_u64_be(&mut out, 0);
    push_u64_be(&mut out, 0);
    push_u32_be(&mut out, 0);
    push_u32_be(&mut out, 0);
    push_u32_be(&mut out, 0);
    push_u32_be(&mut out, 0xFFFFFFFF);
    push_u16_be(&mut out, port);
    proof {
        assert(out@ =~= spec_u64_to_be(connection_id) + spec_u32_to_be(1) + spec_u32_to_be(
            transaction_id,
        ) + info_hash@ + peer_id@ + spec_u64_to_be(0) + spec_u64_to_be(0) + spec_u64_to_be(0)
            + spec_u32_to_be(0) + spec_u32_to_be(0) + spec_u32_to_be(0) + spec_u32_to_be(
            0xFFFFFFFFu32,
        ) + spec_u16_to_be(port));
    }
    out
}

/// Decodes a UDP announce reply: action, transaction id, interval, leecher
/// and seeder counts, then the compact peer list. Fails exactly when the
/// reply is shorter than its 20-byte header.
pub fn parse_announce_response(data: &[u8]) -> (r: Option<(u32, u32, u32, Vec<PeerAddr>)>)
    ensures
        r is Some <==> data@.len() >= 20,
        r matches Some(t) ==> t.0 == spec_u32_from_be(data@[0], data@[1], data@[2], data@[3])
            && t.1 == spec_u32_from_be(data@[4], data@[5], data@[6], data@[7]) && t.2
            == spec_u32_from_be(data@[8], data@[9], data@[10], data@[11]) && t.3@.len() == (
        data@.len() - 20) / 6 && (forall|k: int|
            0 <= k < t.3@.len() ==> (#[trigger] t.3@[k]).ip@ == data@.subrange(
                20 + 6 * k,
                20 + 6 * k + 4,
            ) && t.3@[k].port == spec_u16_from_be(data@[20 + 6 * k + 4], data@[20 + 6 * k + 5])),
{
    if data.len() < 20 {
        return None;
    }
    let action = read_u32_be(data, 0);
    let transaction_id = read_u32_be(data, 4);
    let interval = read_u32_be(data, 8);
    let tail = vstd::slice::slice_subrange(data, 20, data.len());
    let peers = parse_compact_peers(tail);
    proof {
        assert(tail@ == data@.subrange(20, data@.len() as int));
        assert forall|k: int|
            0 <= k < peers@.len() implies (#[trigger] peers@[k]).ip@ == data@.subrange(
                20 + 6 * k,
                20 + 6 * k + 4,
            ) && peers@[k].port == spec_u16_from_be(
            data@[20 + 6 * k + 4],
            data@[20 + 6 * k + 5],
        ) by {
            assert(peers@[k].ip@ == tail@.subrange(6 * k, 6 * k + 4));
            assert(tail@.subrange(6 * k, 6 * k + 4) =~= data@.subrange(20 + 6 * k, 20 + 6 * k + 4));
            assert(tail@[6 * k + 4] == data@[20 + 6 * k + 4]);
            assert(tail@[6 * k + 5] == data@[20 + 6 * k + 5]);
        }
    }
    Some((action, transaction_id, interval, peers))
}

/// One peer of a dictionary-form tracker response: the host exactly as the
/// tracker sent it (a dotted quad or a name), and the port.
#[derive(Debug, PartialEq)]
pub struct Peer {
    /// The host, as raw response bytes.
    pub ip: Vec<u8>,
    /// The TCP port.
    pub port: u16,
}

/// The peer list of a tracker response, in either of its two wire shapes.
#[derive(Debug, PartialEq)]
pub enum Peers {
    /// Compact form: six bytes per peer.
    Binary(Vec<u8>),
    /// Dictionary form: one `ip`/`port` dictionary per peer.
    List(Vec<Peer>),
}

/// A bencoded announce response from an HTTP tracker.
#[derive(Debug, PartialEq)]
pub struct Response {
    /// Seconds to wait before the next announce, when the tracker gives it.
    pub interval: Option<i64>,
    /// The peers in the swarm.
    pub peers: Peers,
}

/// The key `interval` as a vector.
fn key_interval() -> Vec<u8> {
    let mut k: Vec<u8> = Vec::new();
    k.push(105);
    k.push(110);
    k.push(116);
    k.push(101);
    k.push(114);
    k.push(118);
    k.push(97);
    k.push(108);
    k
}

/// The key `peers` as a vector.
fn key_peers() -> Vec<u8> {
    let mut k: Vec<u8> = Vec::new();
    k.push(112);
    k.push(101);
    k.push(101);
    k.push(114);
    k.push(115);
    k
}

/// The key `ip` as a vector.
fn key_ip() -> Vec<u8> {
    let mut k: Vec<u8> = Vec::new();
    k.push(105);
    k.push(112);
    k
}

/// The key `port` as a vector.
fn key_port() -> Vec<u8> {
    let mut k: Vec<u8> = Vec::new();
    k.push(112);
    k.push(111);
    k.push(114);
    k.push(116);
    k
}

/// Parses one `ip`/`port` dictionary of a dictionary-form peer list;
/// unknown keys are skipped.
fn parse_peer_entry(bytes: &[u8], pos: usize) -> (r: Result<(Peer, usize), BencodeError>)
    requires
        pos <= bytes@.len(),
    ensures
        r matches Ok(p) ==> pos < p.1 <= bytes@.len(),
{
    let n = bytes.len();
    if pos >= n || bytes[pos] != 100 {
        return Err(BencodeError::Syntax);
    }
    let k_ip = key_ip();
    let k_port = key_port();
    let mut ip: Option<Vec<u8>> = None;
    let mut port: Option<u16> = None;
    let mut p: usize = pos + 1;
    while p < n
        invariant
            n == bytes@.len(),
            pos < p <= n,
        decreases n - p,
    {
        if bytes[p] == 101 {
            return match (ip, port) {
                (Some(i), Some(pt)) => Ok((Peer { ip: i, port: pt }, p + 1)),
                _ => Err(BencodeError::BadMetainfo),
            };
        }
        let (key, pk) = match crate::bencode::parse_string_val(bytes, p) {
            Ok(x) => x,
            Err(e) => {
                return Err(e);
            }
        };
        if crate::bytes::eq_bytes(key.as_slice(), k_ip.as_slice()) {
            let (v, p2) = match crate::bencode::parse_string_val(bytes, pk) {
                Ok(x) => x,
                Err(e) => {
                    return Err(e);
                }
            };
            ip = Some(v);
            p = p2;
        } else if crate::bytes::eq_bytes(key.as_slice(), k_port.as_slice()) {
            let (v, p2) = match crate::bencode::parse_int_val(bytes, pk) {
                Ok(x) => x,
                Err(e) => {
                    return Err(e);
                }
            };
            if v < 0 || v > 65535 {
                return Err(BencodeError::BadMetainfo);
            }
            port = Some(v as u16);
            p = p2;
        } else {
            let p2 = match crate::bencode::skip_value(bytes, pk) {
                Ok(x) => x,
                Err(e) => {
                    return Err(e);
                }
            };
            p = p2;
        }
    }
    Err(BencodeError::Syntax)
}

/// Parses a bencoded HTTP tracker response: an optional `interval` and the
/// `peers` in compact or dictionary form; other keys are skipped. A compact
/// peer payload is handed back exactly as it stands in the response, as a
/// bencoded string value; what the peer bytes mean is stated by
/// `extract_peers`.
pub fn parse_tracker_response(bytes: &[u8]) -> (r: Result<Response, BencodeError>)
    ensures
        r matches Ok(resp) ==> (match resp.peers {
            Peers::Binary(b) => exists|x: int, y: int|
                0 <= x <= y <= bytes@.len() && crate::bencode::spec_string_at(bytes@, x, y, b@),
            Peers::List(_) => true,
        }),
{
    let n = bytes.len();
    if n == 0 || bytes[0] != 100 {
        return Err(BencodeError::Syntax);
    }
    let k_interval = key_interval();
    let k_peers = key_peers();
    let mut interval: Option<i64> = None;
    let mut peers: Option<Peers> = None;
    let ghost mut bs: int = 0;
    let ghost mut be: int = 0;
    let mut p: usize = 1;
    while p < n
        invariant
            n == bytes@.len(),
            0 < p <= n,
            match peers {
                Some(Peers::Binary(b)) => 0 <= bs <= be <= bytes@.len()
                    && crate::bencode::spec_string_at(bytes@, bs, be, b@),
                _ => true,
            },
        decreases n - p,
    {
        if bytes[p] == 101 {
            return match peers {
                Some(ps) => Ok(Response { interval, peers: ps }),
                None => Err(BencodeError::BadMetainfo),
            };
        }
        let (key, pk) = match crate::bencode::parse_string_val(bytes, p) {
            Ok(x) => x,
            Err(e) => {
                return Err(e);
            }
        };
        if crate::bytes::eq_bytes(key.as_slice(), k_interval.as_slice()) {
            let (v, p2) = match crate::bencode::parse_int_val(bytes, pk) {
                Ok(x) => x,
                Err(e) => {
                    return Err(e);
                }
            };
            interval = Some(v);
            p = p2;
        } else if crate::bytes::eq_bytes(key.as_slice(), k_peers.as_slice()) {
            if pk < n && bytes[pk] == 108 {
                let mut list: Vec<Peer> = Vec::new();
                let mut q: usize = pk + 1;
                let mut closed = false;
                while q < n && !closed
                    invariant
                        n == bytes@.len(),
                        pk < q <= n,
                    decreases n - q,
                {
                    if bytes[q] == 101 {
                        q = q + 1;
                        closed = true;
                    } else {
                        let (peer, q2) = match parse_peer_entry(bytes, q) {
                            Ok(x) => x,
                            Err(e) => {
                                return Err(e);
                            }
                        };
                        list.push(peer);
                        q = q2;
                    }
                }
                if !closed {
                    return Err(BencodeError::Syntax);
                }
                peers = Some(Peers::List(list));
                p = q;
            } else {
                let (v, p2) = match crate::bencode::parse_string_val(bytes, pk) {
                    Ok(x) => x,
                    Err(e) => {
                        return Err(e);
                    }
                };
                proof {
                    bs = pk as int;
                    be = p2 as int;
                }
                peers = Some(Peers::Binary(v));
                p = p2;
            }
        } else {
            let p2 = match crate::bencode::skip_value(bytes, pk) {
                Ok(x) => x,
                Err(e) => {
                    return Err(e);
                }
            };
            p = p2;
        }
    }
    Err(BencodeError::Syntax)
}

/// The ASCII form `a.b.c.d:port` of peer `k` of a compact peer list.
pub open spec fn spec_compact_addr_text(data: Seq<u8>, k: int) -> Seq<u8> {
    spec_dec(data[6 * k] as int) + seq![46u8] + spec_dec(data[6 * k + 1] as int) + seq![46u8]
        + spec_dec(data[6 * k + 2] as int) + seq![46u8] + spec_dec(data[6 * k + 3] as int)
        + seq![58u8] + spec_dec(
        spec_u16_from_be(data[6 * k + 4], data[6 * k + 5]) as int,
    )
}

/// Turns either peer-list shape into `host:port` ASCII addresses, one per
/// peer, in order; a trailing compact fragment shorter than six bytes is
/// dropped.
pub fn extract_peers(peers: &Peers) -> (r: Vec<Vec<u8>>)
    ensures
        match peers {
            Peers::Binary(data) => r@.len() == data@.len() / 6 && (forall|k: int|
                0 <= k < r@.len() ==> (#[trigger] r@[k])@ == spec_compact_addr_text(data@, k)),
            Peers::List(list) => r@.len() == list@.len() && (forall|k: int|
                0 <= k < r@.len() ==> (#[trigger] r@[k])@ == list@[k].ip@ + seq![58u8]
                    + spec_dec(list@[k].port as int)),
        },
{
    let mut out: Vec<Vec<u8>> = Vec::new();
    match peers {
        Peers::Binary(data) => {
            let addrs = parse_compact_peers(data.as_slice());
            let mut k: usize = 0;
            while k < addrs.len()
                invariant
                    addrs@.len() == data@.len() / 6,
                    forall|t: int|
                        0 <= t < addrs@.len() ==> (#[trigger] addrs@[t]).ip@ == data@.subrange(
                            6 * t,
                            6 * t + 4,
                        ) && addrs@[t].port == spec_u16_from_be(
                            data@[6 * t + 4],
                            data@[6 * t + 5],
                        ),
                    k <= addrs@.len(),
                    out@.len() == k,
                    forall|t: int|
                        0 <= t < k ==> (#[trigger] out@[t])@ == spec_compact_addr_text(data@, t),
                decreases addrs@.len() - k,
            {
                let text = format_peer_addr(&addrs[k]);
                proof {
                    assert(addrs@[k as int].ip@[0] == data@[6 * k as int]);
                    assert(addrs@[k as int].ip@[1] == data@[6 * k as int + 1]);
                    assert(addrs@[k as int].ip@[2] == data@[6 * k as int + 2]);
                    assert(addrs@[k as int].ip@[3] == data@[6 * k as int + 3]);
                    assert(text@ =~= spec_compact_addr_text(data@, k as int));
                }
                out.push(text);
                k = k + 1;
            }
        }
        Peers::List(list) => {
            let mut k: usize = 0;
            while k < list.len()
                invariant
                    k <= list@.len(),
                    out@.len() == k,
                    forall|t: int|
                        0 <= t < k ==> (#[trigger] out@[t])@ == list@[t].ip@ + seq![58u8]
                            + spec_dec(list@[t].port as int),
                decreases list@.len() - k,
            {
                let peer = &list[k];
                let mut text: Vec<u8> = Vec::new();
                crate::bytes::push_bytes(&mut text, peer.ip.as_slice());
                text.push(58);
                crate::bencode::push_dec(&mut text, peer.port as u64);
                proof {
                    assert(text@ =~= list@[k as int].ip@ + seq![58u8] + spec_dec(
                        list@[k as int].port as int,
                    ));
                }
                out.push(text);
                k = k + 1;
            }
        }
    }
    out
}

/// The decimal text of one octet of an address.
pub open spec fn spec_dec_octet(b: u8) -> Seq<u8> {
    spec_dec(b as int)
}

/// Renders a peer as `a.b.c.d:port` in ASCII.
pub fn format_peer_addr(p: &PeerAddr) -> (r: Vec<u8>)
    ensures
        r@ == spec_dec_octet(p.ip@[0]) + seq![46u8] + spec_dec_octet(p.ip@[1]) + seq![46u8]
            + spec_dec_octet(p.ip@[2]) + seq![46u8] + spec_dec_octet(p.ip@[3]) + seq![58u8]
            + spec_dec(p.port as int),
{
    let mut out: Vec<u8> = Vec::new();
    crate::bencode::push_dec(&mut out, p.ip[0] as u64);
    out.push(46);
    crate::bencode::push_dec(&mut out, p.ip[1] as u64);
    out.push(46);
    crate::bencode::push_dec(&mut out, p.ip[2] as u64);
    out.push(46);
    crate::bencode::push_dec(&mut out, p.ip[3] as u64);
    out.push(58);
    crate::bencode::push_dec(&mut out, p.port as u64);
    proof {
        assert(out@ =~= spec_dec_octet(p.ip@[0]) + seq![46u8] + spec_dec_octet(p.ip@[1])
            + seq![46u8] + spec_dec_octet(p.ip@[2]) + seq![46u8] + spec_dec_octet(p.ip@[3])
            + seq![58u8] + spec_dec(p.port as int));
    }
    out
}

} // verus!
