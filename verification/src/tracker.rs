use vstd::prelude::*;

use crate::bencode::{dec_digits, dict_find, push_dec_digits, rep, spec_dict_find, spec_parse,
    Bencode, ParsedValue, SpecValue, Value};
use crate::digest::{hex_digit8, hex_nibble};

verus! {

/// Why a tracker exchange failed.
#[derive(Debug, Clone, Copy, PartialEq, Eq, Structural)]
pub enum TrackerError {
    /// The tracker answered outside the 2xx range.
    Http,
    /// The tracker body did not decode to the expected shape.
    Decode,
    /// The tracker answered with an empty peer list.
    NoPeers,
}

/// One peer endpoint: an IPv4 address and a TCP port.
#[derive(Debug, Clone, Copy, PartialEq, Eq)]
pub struct PeerAddr {
    pub ip: [u8; 4],
    pub port: u16,
}

/// Every byte percent-encoded as `%xx`, lowercase hex.
pub open spec fn pct_encoded(s: Seq<u8>) -> Seq<u8>
    decreases s.len(),
{
    if s.len() == 0 {
        Seq::empty()
    } else {
        pct_encoded(s.subrange(0, s.len() - 1)) + seq![
            37u8,
            hex_digit8(s[s.len() - 1] as int / 16),
            hex_digit8(s[s.len() - 1] as int % 16),
        ]
    }
}

/// Append the percent-encoding of `h` to `out`.
fn push_pct(out: &mut Vec<u8>, h: &[u8])
    ensures
        final(out)@ == old(out)@ + pct_encoded(h@),
{
    let mut k: usize = 0;
    proof {
        assert(h@.subrange(0, 0) =~= Seq::<u8>::empty());
        assert(out@ =~= old(out)@ + pct_encoded(h@.subrange(0, 0)));
    }
    while k < h.len()
        invariant
            k <= h@.len(),
            out@ == old(out)@ + pct_encoded(h@.subrange(0, k as int)),
        decreases h@.len() - k,
    {
        let x = h[k];
        out.push(37);
        out.push(hex_nibble(x / 16));
        out.push(hex_nibble(x % 16));
        proof {
            let w = h@.subrange(0, k + 1);
            assert(w.subrange(0, w.len() - 1) =~= h@.subrange(0, k as int));
            assert(w[w.len() - 1] == h@[k as int]);
            assert(out@ =~= old(out)@ + pct_encoded(w));
        }
        k = k + 1;
    }
    proof {
        assert(h@.subrange(0, h@.len() as int) =~= h@);
    }
}

/// The raw bytes of the `peers` key.
pub open spec fn k_peers() -> Seq<u8> {
    seq![112u8, 101u8, 101u8, 114u8, 115u8]
}

pub fn key_peers() -> (r: Vec<u8>)
    ensures
        r@ == k_peers(),
{
    let mut v: Vec<u8> = Vec::new();
    v.push(112);
    v.push(101);
    v.push(101);
    v.push(114);
    v.push(115);
    proof {
        assert(v@ =~= k_peers());
    }
    v
}

/// The literal `info_hash=`.
pub open spec fn q_info_hash_eq() -> Seq<u8> {
    seq![105u8, 110u8, 102u8, 111u8, 95u8, 104u8, 97u8, 115u8, 104u8, 61u8]
}

fn push_info_hash_eq(out: &mut Vec<u8>)
    ensures
        final(out)@ == old(out)@ + q_info_hash_eq(),
{
    out.push(105);
    out.push(110);
    out.push(102);
    out.push(111);
    out.push(95);
    out.push(104);
    out.push(97);
    out.push(115);
    out.push(104);
    out.push(61);
    proof {
        assert(out@ =~= old(out)@ + q_info_hash_eq());
    }
}

/// The literal `&peer_id=`.
pub open spec fn q_amp_peer_id_eq() -> Seq<u8> {
    seq![38u8, 112u8, 101u8, 101u8, 114u8, 95u8, 105u8, 100u8, 61u8]
}

fn push_amp_peer_id_eq(out: &mut Vec<u8>)
    ensures
        final(out)@ == old(out)@ + q_amp_peer_id_eq(),
{
    out.push(38);
    out.push(112);
    out.push(101);
    out.push(101);
    out.push(114);
    out.push(95);
    out.push(105);
    out.push(100);
    out.push(61);
    proof {
        assert(out@ =~= old(out)@ + q_amp_peer_id_eq());
    }
}

/// The literal `&port=`.
pub open spec fn q_amp_port_eq() -> Seq<u8> {
    seq![38u8, 112u8, 111u8, 114u8, 116u8, 61u8]
}

fn push_amp_port_eq(out: &mut Vec<u8>)
    ensures
        final(out)@ == old(out)@ + q_amp_port_eq(),
{
    out.push(38);
    out.push(112);
    out.push(111);
    out.push(114);
    out.push(116);
    out.push(61);
    proof {
        assert(out@ =~= old(out)@ + q_amp_port_eq());
    }
}

/// The literal `&uploaded=`.
pub open spec fn q_amp_uploaded_eq() -> Seq<u8> {
    seq![38u8, 117u8, 112u8, 108u8, 111u8, 97u8, 100u8, 101u8, 100u8, 61u8]
}

fn push_amp_uploaded_eq(out: &mut Vec<u8>)
    ensures
        final(out)@ == old(out)@ + q_amp_uploaded_eq(),
{
    out.push(38);
    out.push(117);
    out.push(112);
    out.push(108);
    out.push(111);
    out.push(97);
    out.push(100);
    out.push(101);
    out.push(100);
    out.push(61);
    proof {
        assert(out@ =~= old(out)@ + q_amp_uploaded_eq());
    }
}

/// The literal `&downloaded=`.
pub open spec fn q_amp_downloaded_eq() -> Seq<u8> {
    seq![38u8, 100u8, 111u8, 119u8, 110u8, 108u8, 111u8, 97u8, 100u8, 101u8, 100u8, 61u8]
}

fn push_amp_downloaded_eq(out: &mut Vec<u8>)
    ensures
        final(out)@ == old(out)@ + q_amp_downloaded_eq(),
{
    out.push(38);
    out.push(100);
    out.push(111);
    out.push(119);
    out.push(110);
    out.push(108);
    out.push(111);
    out.push(97);
    out.push(100);
    out.push(101);
    out.push(100);
    out.push(61);
    proof {
        assert(out@ =~= old(out)@ + q_amp_downloaded_eq());
    }
}

/// The literal `&left=`.
pub open spec fn q_amp_left_eq() -> Seq<u8> {
    seq![38u8, 108u8, 101u8, 102u8, 116u8, 61u8]
}

fn push_amp_left_eq(out: &mut Vec<u8>)
    ensures
        final(out)@ == old(out)@ + q_amp_left_eq(),
{
    out.push(38);
    out.push(108);
    out.push(101);
    out.push(102);
    out.push(116);
    out.push(61);
    proof {
        assert(out@ =~= old(out)@ + q_amp_left_eq());
    }
}

/// The literal `&compact=`.
pub open spec fn q_amp_compact_eq() -> Seq<u8> {
    seq![38u8, 99u8, 111u8, 109u8, 112u8, 97u8, 99u8, 116u8, 61u8]
}

fn push_amp_compact_eq(out: &mut Vec<u8>)
    ensures
        final(out)@ == old(out)@ + q_amp_compact_eq(),
{
    out.push(38);
    out.push(99);
    out.push(111);
    out.push(109);
    out.push(112);
    out.push(97);
    out.push(99);
    out.push(116);
    out.push(61);
    proof {
        assert(out@ =~= old(out)@ + q_amp_compact_eq());
    }
}

/// The query string of the announce request, exactly as it goes on the wire.
pub open spec fn spec_query(
    h: Seq<u8>,
    peer_id: Seq<u8>,
    port: int,
    uploaded: int,
    downloaded: int,
    left: int,
    compact: int,
) -> Seq<u8> {
    q_info_hash_eq() + pct_encoded(h) + q_amp_peer_id_eq() + peer_id + q_amp_port_eq() + dec_digits(
        port,
    ) + q_amp_uploaded_eq() + dec_digits(uploaded) + q_amp_downloaded_eq() + dec_digits(downloaded)
        + q_amp_left_eq() + dec_digits(left) + q_amp_compact_eq() + dec_digits(compact)
}

/// The parameters of one announce request.
pub struct Request {
    pub peer_id: Vec<u8>,
    pub port: u16,
    pub uploaded: u64,
    pub downloaded: u64,
    pub left: u64,
    pub compact: u8,
}

impl Request {
    /// A fresh announce request: nothing transferred yet, compact replies.
    pub fn new(peer_id: Vec<u8>, port: u16, left: u64) -> (r: Request)
        ensures
            r.peer_id == peer_id,
            r.port == port,
            r.uploaded == 0,
            r.downloaded == 0,
            r.left == left,
            r.compact == 1,
    {
        Request { peer_id, port, uploaded: 0, downloaded: 0, left, compact: 1 }
    }

    /// The full query string for this request and an info-hash.
    pub fn query(&self, info_hash: &[u8; 20]) -> (r: Vec<u8>)
        ensures
            r@ == spec_query(
                info_hash@,
                self.peer_id@,
                self.port as int,
                self.uploaded as int,
                self.downloaded as int,
                self.left as int,
                self.compact as int,
            ),
    {
        let mut out: Vec<u8> = Vec::new();
        push_info_hash_eq(&mut out);
        push_pct(&mut out, info_hash.as_slice());
        push_amp_peer_id_eq(&mut out);
        out.extend_from_slice(self.peer_id.as_slice());
        push_amp_port_eq(&mut out);
        push_dec_digits(&mut out, self.port as u64);
        push_amp_uploaded_eq(&mut out);
        push_dec_digits(&mut out, self.uploaded);
        push_amp_downloaded_eq(&mut out);
        push_dec_digits(&mut out, self.downloaded);
        push_amp_left_eq(&mut out);
        push_dec_digits(&mut out, self.left);
        push_amp_compact_eq(&mut out);
        push_dec_digits(&mut out, self.compact as u64);
        proof {
            assert(out@ =~= spec_query(
                info_hash@,
                self.peer_id@,
                self.port as int,
                self.uploaded as int,
                self.downloaded as int,
                self.left as int,
                self.compact as int,
            ));
        }
        out
    }
}

/// The announce URL with its query: `{announce}?{query}`.
pub fn tracker_url(announce: &Vec<u8>, query: &Vec<u8>) -> (r: Vec<u8>)
    ensures
        r@ == announce@ + seq![63u8] + query@,
{
    let mut out: Vec<u8> = Vec::new();
    out.extend_from_slice(announce.as_slice());
    out.push(63);
    out.extend_from_slice(query.as_slice());
    proof {
        assert(out@ =~= announce@ + seq![63u8] + query@);
    }
    out
}

/// Split a compact `peers` blob into endpoints: six bytes each, IPv4 then
/// big-endian port.
pub fn parse_peers(blob: &[u8]) -> (r: Result<Vec<PeerAddr>, TrackerError>)
    ensures
        match r {
            Ok(v) => {
                &&& blob@.len() % 6 == 0
                &&& v@.len() == blob@.len() / 6
                &&& forall|i: int|
                    0 <= i < v@.len() ==> (#[trigger] v@[i]).ip@ == blob@.subrange(6 * i, 6 * i + 4)
                        && v@[i].port == 256 * (blob@[6 * i + 4] as int) + (blob@[6 * i + 5] as int)
            },
            Err(e) => e == TrackerError::Decode && blob@.len() % 6 != 0,
        },
{
    let n = blob.len();
    if n % 6 != 0 {
        return Err(TrackerError::Decode);
    }
    let count = n / 6;
    let mut v: Vec<PeerAddr> = Vec::new();
    let mut i: usize = 0;
    while i < count
        invariant
            i <= count,
            6 * count == blob@.len(),
            blob@.len() <= usize::MAX,
            v@.len() == i,
            forall|j: int|
                0 <= j < i ==> (#[trigger] v@[j]).ip@ == blob@.subrange(6 * j, 6 * j + 4)
                    && v@[j].port == 256 * (blob@[6 * j + 4] as int) + (blob@[6 * j + 5] as int),
        decreases count - i,
    {
        let off = i * 6;
        let ip = [blob[off], blob[off + 1], blob[off + 2], blob[off + 3]];
        let port = (blob[off + 4] as u16) * 256 + (blob[off + 5] as u16);
        let p = PeerAddr { ip, port };
        v.push(p);
        proof {
            assert(p.ip@ =~= blob@.subrange(6 * i as int, 6 * i + 4));
        }
        i = i + 1;
    }
    Ok(v)
}

/// The `peers` byte string of a decoded tracker reply, if it has that shape.
pub open spec fn peers_blob_of(top: SpecValue) -> Option<Seq<u8>> {
    match top {
        SpecValue::Dict(td) => match spec_dict_find(td, k_peers()) {
            Option::Some(SpecValue::Bytes(pb)) => Option::Some(pb),
            _ => Option::None,
        },
        _ => Option::None,
    }
}

/// Decode a tracker reply and return its peer list: the body must be a
/// dictionary whose `peers` entry is a byte string of whole six-byte
/// endpoints, and the list must not be empty.
pub fn parse_tracker_response(bytes: &[u8]) -> (r: Result<Vec<PeerAddr>, TrackerError>)
    ensures
        match r {
            Ok(v) => {
                &&& spec_parse(bytes@) matches ParsedValue::Parsed { v: top, rest }
                &&& peers_blob_of(top) matches Option::Some(pb)
                &&& pb.len() % 6 == 0
                &&& pb.len() > 0
                &&& v@.len() == pb.len() / 6
                &&& forall|i: int|
                    0 <= i < v@.len() ==> (#[trigger] v@[i]).ip@ == pb.subrange(6 * i, 6 * i + 4)
                        && v@[i].port == 256 * (pb[6 * i + 4] as int) + (pb[6 * i + 5] as int)
            },
            Err(e) => match spec_parse(bytes@) {
                ParsedValue::Fail { e: pe } => e == TrackerError::Decode,
                ParsedValue::Parsed { v: top, rest } => match peers_blob_of(top) {
                    Option::None => e == TrackerError::Decode,
                    Option::Some(pb) => if pb.len() == 0 {
                        e == TrackerError::NoPeers
                    } else {
                        e == TrackerError::Decode && pb.len() % 6 != 0
                    },
                },
            },
        },
{
    let mut dec = Bencode::new(bytes);
    let top = match dec.decode() {
        Ok(v) => v,
        Err(_) => {
            return Err(TrackerError::Decode);
        },
    };
    let entries: &Vec<crate::bencode::DictEntry> = match &top {
        Value::Dict(es) => es,
        _ => {
            return Err(TrackerError::Decode);
        },
    };
    let pb: &Vec<u8> = match dict_find(entries, &key_peers()) {
        Some(Value::Bytes(b)) => b,
        _ => {
            return Err(TrackerError::Decode);
        },
    };
    if pb.len() == 0 {
        return Err(TrackerError::NoPeers);
    }
    match parse_peers(pb.as_slice()) {
        Ok(v) => Ok(v),
        Err(e) => Err(e),
    }
}

} // verus!
