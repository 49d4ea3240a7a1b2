//! The 68-byte protocol prologue exchanged right after a TCP connection is
//! established: `[19]["BitTorrent protocol"][8 zero bytes][info_hash][peer_id]`.

use vstd::prelude::*;

verus! {

/// The 19 bytes of the protocol identifier, `"BitTorrent protocol"`.
pub open spec fn spec_protocol_bytes() -> Seq<u8> {
    seq![
        66u8, 105u8, 116u8, 84u8, 111u8, 114u8, 114u8, 101u8, 110u8, 116u8, 32u8, 112u8, 114u8,
        111u8, 116u8, 111u8, 99u8, 111u8, 108u8,
    ]
}

/// The full 68-byte handshake: length byte, protocol identifier, eight
/// reserved zero bytes, the info-hash, then the peer id.
pub open spec fn spec_handshake_bytes(info_hash: Seq<u8>, peer_id: Seq<u8>) -> Seq<u8> {
    seq![19u8] + spec_protocol_bytes() + seq![0u8, 0u8, 0u8, 0u8, 0u8, 0u8, 0u8, 0u8] + info_hash
        + peer_id
}

/// A well-formed handshake is exactly 68 bytes.
pub proof fn lemma_handshake_len(info_hash: Seq<u8>, peer_id: Seq<u8>)
    requires
        info_hash.len() == 20,
        peer_id.len() == 20,
    ensures
        spec_handshake_bytes(info_hash, peer_id).len() == 68,
{
}

/// The first message on a new peer connection.
pub struct Handshake {
    /// The protocol identifier; always `"BitTorrent protocol"` as raw bytes.
    pub protocol_string: Vec<u8>,
    /// SHA-1 of the bencoded info dictionary: identifies the swarm.
    pub info_hash: [u8; 20],
    /// This client's 20-byte identifier.
    pub peer_id: [u8; 20],
}

impl Handshake {
    /// Builds the handshake for one torrent and one local peer id.
    pub fn new(info_hash: [u8; 20], peer_id: [u8; 20]) -> (r: Handshake)
        ensures
            r.protocol_string@ == spec_protocol_bytes(),
            r.info_hash == info_hash,
            r.peer_id == peer_id,
    {
        let mut protocol_string: Vec<u8> = Vec::new();
        protocol_string.push(66);
        protocol_string.push(105);
        protocol_string.push(116);
        protocol_string.push(84);
        protocol_string.push(111);
        protocol_string.push(114);
        protocol_string.push(114);
        protocol_string.push(101);
        protocol_string.push(110);
        protocol_string.push(116);
        protocol_string.push(32);
        protocol_string.push(112);
        protocol_string.push(114);
        protocol_string.push(111);
        protocol_string.push(116);
        protocol_string.push(111);
        protocol_string.push(99);
        protocol_string.push(111);
        protocol_string.push(108);
        proof {
            assert(protocol_string@ =~= spec_protocol_bytes());
        }
        Handshake { protocol_string, info_hash, peer_id }
    }

    /// Serializes the handshake; the result is exactly the 68 wire bytes.
    pub fn as_bytes(&self) -> (r: Vec<u8>)
        requires
            self.protocol_string@ == spec_protocol_bytes(),
        ensures
            r@ == spec_handshake_bytes(self.info_hash@, self.peer_id@),
            r@.len() == 68,
    {
        let mut bytes: Vec<u8> = Vec::new();
        bytes.push(19);
        let mut i: usize = 0;
        while i < self.protocol_string.len()
            invariant
                self.protocol_string@ == spec_protocol_bytes(),
                i <= self.protocol_string@.len(),
                bytes@ == seq![19u8] + self.protocol_string@.take(i as int),
            decreases self.protocol_string@.len() - i,
        {
            bytes.push(self.protocol_string[i]);
            proof {
                assert(bytes@ =~= seq![19u8] + self.protocol_string@.take(i + 1));
            }
            i = i + 1;
        }
        let mut j: usize = 0;
        while j < 8
            invariant
                j <= 8,
                bytes@ == seq![19u8] + spec_protocol_bytes() + Seq::new(j as nat, |k: int| 0u8),
            decreases 8 - j,
        {
            bytes.push(0);
            proof {
                assert(bytes@ =~= seq![19u8] + spec_protocol_bytes()
                    + Seq::new((j + 1) as nat, |k: int| 0u8));
            }
            j = j + 1;
        }
        let mut k: usize = 0;
        while k < 20
            invariant
                k <= 20,
                bytes@ == seq![19u8] + spec_protocol_bytes()
                    + Seq::new(8nat, |t: int| 0u8) + self.info_hash@.take(k as int),
            decreases 20 - k,
        {
            bytes.push(self.info_hash[k]);
            proof {
                assert(bytes@ =~= seq![19u8] + spec_protocol_bytes()
                    + Seq::new(8nat, |t: int| 0u8) + self.info_hash@.take(k + 1));
            }
            k = k + 1;
        }
        let mut p: usize = 0;
        while p < 20
            invariant
                p <= 20,
                bytes@ == seq![19u8] + spec_protocol_bytes() + Seq::new(8nat, |t: int| 0u8)
                    + self.info_hash@ + self.peer_id@.take(p as int),
            decreases 20 - p,
        {
            bytes.push(self.peer_id[p]);
            proof {
                assert(bytes@ =~= seq![19u8] + spec_protocol_bytes()
                    + Seq::new(8nat, |t: int| 0u8) + self.info_hash@ + self.peer_id@.take(p + 1));
            }
            p = p + 1;
        }
        proof {
            assert(Seq::new(8nat, |t: int| 0u8)
                =~= seq![0u8, 0u8, 0u8, 0u8, 0u8, 0u8, 0u8, 0u8]);
            assert(self.info_hash@.take(20) =~= self.info_hash@);
            assert(self.peer_id@.take(20) =~= self.peer_id@);
            assert(bytes@ =~= spec_handshake_bytes(self.info_hash@, self.peer_id@));
        }
        bytes
    }
}

/// True exactly when bytes `[28..48)` of a received 68-byte handshake equal
/// the local info-hash; a mismatch is a fatal connection error.
pub fn handshake_info_hash_matches(reply: &[u8], info_hash: &[u8; 20]) -> (r: bool)
    requires
        reply@.len() == 68,
    ensures
        r == (reply@.subrange(28, 48) == info_hash@),
{
    let mut i: usize = 0;
    while i < 20
        invariant
            i <= 20,
            reply@.len() == 68,
            forall|k: int| 0 <= k < i ==> reply@[28 + k] == info_hash@[k],
        decreases 20 - i,
    {
        if reply[28 + i] != info_hash[i] {
            proof {
                assert(reply@.subrange(28, 48)[i as int] != info_hash@[i as int]);
            }
            return false;
        }
        i = i + 1;
    }
    proof {
        assert(reply@.subrange(28, 48) =~= info_hash@);
    }
    true
}

} // verus!
