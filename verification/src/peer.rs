use vstd::prelude::*;

use crate::digest::{hex_char_val, hex_decode, is_hex_digit_char, sha1_digest, sha1_of};
use crate::torrent::spec_ceil_div;

verus! {

/// Why a peer session failed.
#[derive(Debug, Clone, Copy, PartialEq, Eq, Structural)]
pub enum PeerError {
    /// A malformed handshake frame.
    Protocol,
    /// The remote handshake carries another info-hash.
    InfoHashMismatch,
    /// A message id outside the protocol.
    UnknownMessage,
    /// The stream ended inside a frame.
    Eof,
    /// A `Piece` message that does not answer the outstanding request.
    MismatchedBlock,
    /// A read that did not finish in time.
    Timeout,
}

/// An assembled piece whose SHA-1 does not match the metainfo digest.
#[derive(Debug, Clone, Copy, PartialEq, Eq, Structural)]
pub enum IntegrityError {
    PieceHash,
}

/// The protocol string of the fixed handshake frame.
pub open spec fn protocol_pstr() -> Seq<u8> {
    seq![
        66u8, 105u8, 116u8, 84u8, 111u8, 114u8, 114u8, 101u8, 110u8, 116u8, 32u8, 112u8, 114u8,
        111u8, 116u8, 111u8, 99u8, 111u8, 108u8,
    ]
}

/// The 68-byte handshake frame: pstr length, pstr, reserved, info-hash,
/// peer id.
pub struct Handshake {
    pub pstr: Vec<u8>,
    pub reserved: [u8; 8],
    pub info_hash: [u8; 20],
    pub peer_id: [u8; 20],
}

pub open spec fn spec_handshake_bytes(h: Handshake) -> Seq<u8> {
    seq![h.pstr@.len() as u8] + h.pstr@ + h.reserved@ + h.info_hash@ + h.peer_id@
}

/// Eight bytes of a slice, starting at `off`, as an array.
fn bytes8(src: &[u8], off: usize) -> (r: [u8; 8])
    requires
        off + 8 <= src@.len(),
    ensures
        r@ == src@.subrange(off as int, off + 8),
{
    let r = [
        src[off],
        src[off + 1],
        src[off + 2],
        src[off + 3],
        src[off + 4],
        src[off + 5],
        src[off + 6],
        src[off + 7],
    ];
    proof {
        assert(r@ =~= src@.subrange(off as int, off + 8));
    }
    r
}

/// Twenty bytes of a slice, starting at `off`, as an array.
fn take20(src: &[u8], off: usize) -> (r: [u8; 20])
    requires
        off + 20 <= src@.len(),
    ensures
        r@ == src@.subrange(off as int, off + 20),
{
    let r = [
        src[off],
        src[off + 1],
        src[off + 2],
        src[off + 3],
        src[off + 4],
        src[off + 5],
        src[off + 6],
        src[off + 7],
        src[off + 8],
        src[off + 9],
        src[off + 10],
        src[off + 11],
        src[off + 12],
        src[off + 13],
        src[off + 14],
        src[off + 15],
        src[off + 16],
        src[off + 17],
        src[off + 18],
        src[off + 19],
    ];
    proof {
        assert(r@ =~= src@.subrange(off as int, off + 20));
    }
    r
}

/// Bytewise equality of two 20-byte digests.
pub fn eq20(a: &[u8; 20], b: &[u8; 20]) -> (r: bool)
    ensures
        r == (a@ == b@),
{
    let mut i: usize = 0;
    while i < 20
        invariant
            i <= 20,
            forall|j: int| 0 <= j < i ==> a@[j] == b@[j],
        decreases 20 - i,
    {
        if a[i] != b[i] {
            return false;
        }
        i = i + 1;
    }
    proof {
        assert(a@ =~= b@);
    }
    true
}

impl Handshake {
    /// A frame of the fixed 68-byte shape.
    pub open spec fn wf(&self) -> bool {
        self.pstr@.len() == 19
    }

    /// A handshake with the standard protocol string and zero reserved bytes.
    pub fn from_parts(info_hash: [u8; 20], peer_id: [u8; 20]) -> (h: Handshake)
        ensures
            h.wf(),
            h.pstr@ == protocol_pstr(),
            h.reserved@ == seq![0u8, 0u8, 0u8, 0u8, 0u8, 0u8, 0u8, 0u8],
            h.info_hash == info_hash,
            h.peer_id == peer_id,
    {
        let mut pstr: Vec<u8> = Vec::new();
        pstr.push(66);
        pstr.push(105);
        pstr.push(116);
        pstr.push(84);
        pstr.push(111);
        pstr.push(114);
        pstr.push(114);
        pstr.push(101);
        pstr.push(110);
        pstr.push(116);
        pstr.push(32);
        pstr.push(112);
        pstr.push(114);
        pstr.push(111);
        pstr.push(116);
        pstr.push(111);
        pstr.push(99);
        pstr.push(111);
        pstr.push(108);
        let reserved = [0u8, 0u8, 0u8, 0u8, 0u8, 0u8, 0u8, 0u8];
        proof {
            assert(pstr@ =~= protocol_pstr());
            assert(reserved@ =~= seq![0u8, 0u8, 0u8, 0u8, 0u8, 0u8, 0u8, 0u8]);
        }
        Handshake { pstr, reserved, info_hash, peer_id }
    }

    /// A handshake built from an info-hash given as forty hex digits.
    pub fn new(info_hash_hex: &str, peer_id: [u8; 20]) -> (r: Result<Handshake, PeerError>)
        ensures
            match r {
                Ok(h) => {
                    &&& h.wf()
                    &&& h.pstr@ == protocol_pstr()
                    &&& h.peer_id == peer_id
                    &&& info_hash_hex@.len() == 40
                    &&& forall|i: int|
                        0 <= i < 20 ==> #[trigger] h.info_hash@[i] == hex_char_val(
                            info_hash_hex@[2 * i],
                        ) * 16 + hex_char_val(info_hash_hex@[2 * i + 1])
                },
                Err(e) => {
                    &&& e == PeerError::Protocol
                    &&& (info_hash_hex@.len() != 40 || exists|i: int|
                        0 <= i < info_hash_hex@.len() && !is_hex_digit_char(
                            #[trigger] info_hash_hex@[i],
                        ))
                },
            },
    {
        let decoded = match hex_decode(info_hash_hex) {
            Some(v) => v,
            None => {
                return Err(PeerError::Protocol);
            },
        };
        if decoded.len() != 20 {
            return Err(PeerError::Protocol);
        }
        let info_hash = take20(decoded.as_slice(), 0);
        proof {
            assert(forall|i: int| 0 <= i < 20 ==> info_hash@[i] == decoded@[i]);
        }
        Ok(Self::from_parts(info_hash, peer_id))
    }

    /// The frame on the wire.
    pub fn as_bytes(&self) -> (r: Vec<u8>)
        requires
            self.pstr@.len() < 256,
        ensures
            r@ == spec_handshake_bytes(*self),
    {
        let mut out: Vec<u8> = Vec::new();
        out.push(self.pstr.len() as u8);
        out.extend_from_slice(self.pstr.as_slice());
        out.extend_from_slice(self.reserved.as_slice());
        out.extend_from_slice(self.info_hash.as_slice());
        out.extend_from_slice(self.peer_id.as_slice());
        proof {
            assert(out@ =~= spec_handshake_bytes(*self));
        }
        out
    }

    /// Parse a 68-byte frame. Only the fixed protocol-string length is
    /// accepted; the fields are returned as they stand.
    pub fn from_bytes(bytes: &[u8; 68]) -> (r: Result<Handshake, PeerError>)
        ensures
            match r {
                Ok(h) => {
                    &&& bytes@[0] == 19
                    &&& h.wf()
                    &&& h.pstr@ == bytes@.subrange(1, 20)
                    &&& h.reserved@ == bytes@.subrange(20, 28)
                    &&& h.info_hash@ == bytes@.subrange(28, 48)
                    &&& h.peer_id@ == bytes@.subrange(48, 68)
                },
                Err(e) => {
                    &&& e == PeerError::Protocol
                    &&& bytes@[0] != 19
                },
            },
    {
        let s = bytes.as_slice();
        if s[0] != 19 {
            return Err(PeerError::Protocol);
        }
        let pstr = vstd::slice::slice_to_vec(vstd::slice::slice_subrange(s, 1, 20));
        let reserved = bytes8(s, 20);
        let info_hash = take20(s, 28);
        let peer_id = take20(s, 48);
        Ok(Handshake { pstr, reserved, info_hash, peer_id })
    }
}

/// Handshake symmetry: the 68-byte frame of a well-formed handshake starts
/// with the fixed length byte, and each field reads back from its place, so
/// parsing the built frame returns the handshake unchanged.
pub proof fn lemma_handshake_symmetry(h: Handshake)
    requires
        h.wf(),
    ensures
        spec_handshake_bytes(h).len() == 68,
        spec_handshake_bytes(h)[0] == 19,
        spec_handshake_bytes(h).subrange(1, 20) == h.pstr@,
        spec_handshake_bytes(h).subrange(20, 28) == h.reserved@,
        spec_handshake_bytes(h).subrange(28, 48) == h.info_hash@,
        spec_handshake_bytes(h).subrange(48, 68) == h.peer_id@,
{
    let b = spec_handshake_bytes(h);
    assert(b.subrange(1, 20) =~= h.pstr@);
    assert(b.subrange(20, 28) =~= h.reserved@);
    assert(b.subrange(28, 48) =~= h.info_hash@);
    assert(b.subrange(48, 68) =~= h.peer_id@);
}

/// Check the remote handshake frame against our info-hash and surface the
/// remote peer id.
pub fn check_handshake(reply: &[u8; 68], ours: &[u8; 20]) -> (r: Result<[u8; 20], PeerError>)
    ensures
        match r {
            Ok(pid) => {
                &&& reply@[0] == 19
                &&& reply@.subrange(28, 48) == ours@
                &&& pid@ == reply@.subrange(48, 68)
            },
            Err(e) => {
                &&& (e == PeerError::Protocol <==> reply@[0] != 19)
                &&& (e == PeerError::InfoHashMismatch <==> (reply@[0] == 19 && reply@.subrange(
                    28,
                    48,
                ) != ours@))
                &&& (e == PeerError::Protocol || e == PeerError::InfoHashMismatch)
            },
        },
{
    let h = match Handshake::from_bytes(reply) {
        Ok(h) => h,
        Err(e) => {
            return Err(e);
        },
    };
    if !eq20(&h.info_hash, ours) {
        return Err(PeerError::InfoHashMismatch);
    }
    Ok(h.peer_id)
}

/// The typed peer-wire messages.
#[derive(Debug, Clone, Copy, PartialEq, Eq, Structural)]
pub enum MessageId {
    Choke,
    Unchoke,
    Interested,
    NotInterested,
    Have,
    Bitfield,
    Request,
    Piece,
    Cancel,
}

/// The wire byte of a message id.
pub open spec fn id_byte(m: MessageId) -> u8 {
    match m {
        MessageId::Choke => 0,
        MessageId::Unchoke => 1,
        MessageId::Interested => 2,
        MessageId::NotInterested => 3,
        MessageId::Have => 4,
        MessageId::Bitfield => 5,
        MessageId::Request => 6,
        MessageId::Piece => 7,
        MessageId::Cancel => 8,
    }
}

impl MessageId {
    pub fn as_byte(self) -> (r: u8)
        ensures
            r == id_byte(self),
    {
        match self {
            MessageId::Choke => 0,
            MessageId::Unchoke => 1,
            MessageId::Interested => 2,
            MessageId::NotInterested => 3,
            MessageId::Have => 4,
            MessageId::Bitfield => 5,
            MessageId::Request => 6,
            MessageId::Piece => 7,
            MessageId::Cancel => 8,
        }
    }

    /// The message id of a wire byte; ids outside the protocol are refused.
    pub fn from_byte(b: u8) -> (r: Result<MessageId, PeerError>)
        ensures
            match r {
                Ok(m) => id_byte(m) == b,
                Err(e) => e == PeerError::UnknownMessage && b > 8,
            },
    {
        match b {
            0 => Ok(MessageId::Choke),
            1 => Ok(MessageId::Unchoke),
            2 => Ok(MessageId::Interested),
            3 => Ok(MessageId::NotInterested),
            4 => Ok(MessageId::Have),
            5 => Ok(MessageId::Bitfield),
            6 => Ok(MessageId::Request),
            7 => Ok(MessageId::Piece),
            8 => Ok(MessageId::Cancel),
            _ => Err(PeerError::UnknownMessage),
        }
    }
}

/// The four big-endian bytes of a 32-bit value.
pub open spec fn u32_be(n: int) -> Seq<u8> {
    seq![
        (n / 0x1000000 % 256) as u8,
        (n / 0x10000 % 256) as u8,
        (n / 0x100 % 256) as u8,
        (n % 256) as u8,
    ]
}

/// Append the four big-endian bytes of `n` to `out`.
pub fn push_u32_be(out: &mut Vec<u8>, n: u32)
    ensures
        final(out)@ == old(out)@ + u32_be(n as int),
{
    out.push((n / 0x1000000 % 256) as u8);
    out.push((n / 0x10000 % 256) as u8);
    out.push((n / 0x100 % 256) as u8);
    out.push((n % 256) as u8);
    proof {
        assert(out@ =~= old(out)@ + u32_be(n as int));
    }
}

/// The 32-bit value of four big-endian bytes.
pub fn read_u32_be(b: &[u8; 4]) -> (r: u32)
    ensures
        r as int == (b@[0] as int) * 0x1000000 + (b@[1] as int) * 0x10000 + (b@[2] as int) * 0x100
            + (b@[3] as int),
{
    (b[0] as u32) * 0x1000000 + (b[1] as u32) * 0x10000 + (b[2] as u32) * 0x100 + (b[3] as u32)
}

/// The big-endian 32-bit value at offset `off` of a byte sequence.
pub open spec fn be32_at(s: Seq<u8>, off: int) -> int {
    (s[off] as int) * 0x1000000 + (s[off + 1] as int) * 0x10000 + (s[off + 2] as int) * 0x100 + (s[
        off + 3
    ] as int)
}

/// Split a `Piece` payload into its piece index, block offset and block
/// bytes; a payload without the two leading words is a protocol violation.
pub fn parse_piece_payload(payload: &[u8]) -> (r: Result<(u32, u32, Vec<u8>), PeerError>)
    ensures
        match r {
            Ok(t) => {
                &&& payload@.len() >= 8
                &&& t.0 as int == be32_at(payload@, 0)
                &&& t.1 as int == be32_at(payload@, 4)
                &&& t.2@ == payload@.subrange(8, payload@.len() as int)
            },
            Err(e) => e == PeerError::Protocol && payload@.len() < 8,
        },
{
    if payload.len() < 8 {
        return Err(PeerError::Protocol);
    }
    let index = (payload[0] as u32) * 0x1000000 + (payload[1] as u32) * 0x10000 + (payload[2]
        as u32) * 0x100 + (payload[3] as u32);
    let begin = (payload[4] as u32) * 0x1000000 + (payload[5] as u32) * 0x10000 + (payload[6]
        as u32) * 0x100 + (payload[7] as u32);
    let block = vstd::slice::slice_to_vec(
        vstd::slice::slice_subrange(payload, 8, payload.len()),
    );
    Ok((index, begin, block))
}

/// One length-prefixed peer message: its id and its payload.
pub struct Message {
    pub length: u32,
    pub id: MessageId,
    pub payload: Vec<u8>,
}

impl Message {
    /// The length field counts the id byte and the payload.
    pub open spec fn wf(&self) -> bool {
        self.length == self.payload@.len() + 1
    }

    pub fn new(id: MessageId, payload: Vec<u8>) -> (m: Message)
        requires
            payload@.len() + 1 <= u32::MAX,
        ensures
            m.id == id,
            m.payload == payload,
            m.wf(),
    {
        let length = payload.len() as u32 + 1;
        Message { length, id, payload }
    }

    pub fn interested() -> (m: Message)
        ensures
            m.id == MessageId::Interested,
            m.payload@ == Seq::<u8>::empty(),
            m.wf(),
    {
        let v: Vec<u8> = Vec::new();
        Self::new(MessageId::Interested, v)
    }

    /// The whole frame: big-endian length, id byte, payload.
    pub fn as_bytes(&self) -> (r: Vec<u8>)
        requires
            self.wf(),
        ensures
            r@ == u32_be(self.length as int) + seq![id_byte(self.id)] + self.payload@,
    {
        let mut out: Vec<u8> = Vec::new();
        push_u32_be(&mut out, self.length);
        out.push(self.id.as_byte());
        out.extend_from_slice(self.payload.as_slice());
        proof {
            assert(out@ =~= u32_be(self.length as int) + seq![id_byte(self.id)] + self.payload@);
        }
        out
    }

    /// Parse a frame body (the bytes after the length prefix). An empty body
    /// is a keep-alive and carries no message; an unknown id closes the
    /// session.
    pub fn from_bytes(body: &[u8]) -> (r: Result<Option<Message>, PeerError>)
        requires
            body@.len() <= u32::MAX,
        ensures
            match r {
                Ok(m) => match m {
                    Option::None => body@.len() == 0,
                    Option::Some(msg) => {
                        &&& body@.len() >= 1
                        &&& id_byte(msg.id) == body@[0]
                        &&& msg.payload@ == body@.subrange(1, body@.len() as int)
                        &&& msg.wf()
                    },
                },
                Err(e) => e == PeerError::UnknownMessage && body@.len() >= 1 && body@[0] > 8,
            },
    {
        if body.len() == 0 {
            return Ok(None);
        }
        let id = match MessageId::from_byte(body[0]) {
            Ok(id) => id,
            Err(e) => {
                return Err(e);
            },
        };
        let payload = vstd::slice::slice_to_vec(
            vstd::slice::slice_subrange(body, 1, body.len()),
        );
        Ok(Some(Message::new(id, payload)))
    }
}

/// The size of piece `i`: a full piece length, except the remainder for the
/// final piece.
pub open spec fn spec_piece_size(i: int, length: int, piece_length: int) -> int {
    if length - i * piece_length < piece_length {
        length - i * piece_length
    } else {
        piece_length
    }
}

/// The length of block `k` of a piece of `ps` bytes.
pub open spec fn spec_block_len(k: int, ps: int) -> int {
    if ps - k * 16384 < 16384 {
        ps - k * 16384
    } else {
        16384
    }
}

pub open spec fn sum_block_lens(nb: int, ps: int) -> int
    decreases nb,
{
    if nb <= 0 {
        0
    } else {
        sum_block_lens(nb - 1, ps) + spec_block_len(nb - 1, ps)
    }
}

pub open spec fn sum_piece_sizes(n: int, length: int, piece_length: int) -> int
    decreases n,
{
    if n <= 0 {
        0
    } else {
        sum_piece_sizes(n - 1, length, piece_length) + spec_piece_size(n - 1, length, piece_length)
    }
}

proof fn lemma_sum_full_blocks(m: int, ps: int)
    requires
        0 <= m,
        forall|k: int| 0 <= k < m ==> #[trigger] spec_block_len(k, ps) == 16384,
    ensures
        sum_block_lens(m, ps) == m * 16384,
    decreases m,
{
    if m > 0 {
        lemma_sum_full_blocks(m - 1, ps);
    }
}

/// The blocks of one piece tile it exactly: each is at most the block size,
/// every block but the last is exactly the block size, and their lengths sum
/// to the piece size.
pub proof fn lemma_blocks_cover_piece(ps: int)
    requires
        ps >= 1,
    ensures
        sum_block_lens(spec_ceil_div(ps, 16384), ps) == ps,
        forall|k: int| 0 <= k < spec_ceil_div(ps, 16384) ==> 1 <= #[trigger] spec_block_len(k, ps) <= 16384,
        forall|k: int| 0 <= k < spec_ceil_div(ps, 16384) - 1 ==> #[trigger] spec_block_len(k, ps) == 16384,
{
    let n = spec_ceil_div(ps, 16384);
    assert((n - 1) * 16384 < ps <= n * 16384);
    assert forall|k: int| 0 <= k < n - 1 implies #[trigger] spec_block_len(k, ps) == 16384 by {
        assert(k * 16384 + 16384 <= (n - 1) * 16384);
    }
    assert forall|k: int| 0 <= k < n implies 1 <= #[trigger] spec_block_len(k, ps) <= 16384 by {
        assert(k * 16384 <= (n - 1) * 16384);
    }
    lemma_sum_full_blocks(n - 1, ps);
    assert(sum_block_lens(n, ps) == (n - 1) * 16384 + spec_block_len(n - 1, ps));
}

proof fn lemma_sum_full_pieces(m: int, length: int, piece_length: int)
    requires
        0 <= m,
        forall|i: int| 0 <= i < m ==> #[trigger] spec_piece_size(i, length, piece_length)
            == piece_length,
    ensures
        sum_piece_sizes(m, length, piece_length) == m * piece_length,
    decreases m,
{
    if m > 0 {
        lemma_sum_full_pieces(m - 1, length, piece_length);
        assert((m - 1) * piece_length + piece_length == m * piece_length) by (nonlinear_arith);
    } else {
        assert(m * piece_length == 0) by (nonlinear_arith)
            requires
                m == 0,
        ;
    }
}

/// The pieces tile the download exactly: each is positive and at most the
/// piece length, every piece but the last is exactly the piece length, and
/// their sizes sum to the total length.
pub proof fn lemma_pieces_cover_length(length: int, piece_length: int)
    requires
        length >= 1,
        piece_length >= 1,
    ensures
        sum_piece_sizes(spec_ceil_div(length, piece_length), length, piece_length) == length,
        forall|i: int|
            0 <= i < spec_ceil_div(length, piece_length) ==> 1 <= #[trigger] spec_piece_size(
                i,
                length,
                piece_length,
            ) <= piece_length,
        forall|i: int|
            0 <= i < spec_ceil_div(length, piece_length) - 1 ==> #[trigger] spec_piece_size(
                i,
                length,
                piece_length,
            ) == piece_length,
{
    let p = piece_length;
    let n = spec_ceil_div(length, p);
    assert((n - 1) * p < length <= n * p) by (nonlinear_arith)
        requires
            length >= 1,
            p >= 1,
            n == (length + p - 1) / p,
    ;
    assert forall|i: int| 0 <= i < n - 1 implies #[trigger] spec_piece_size(i, length, p) == p by {
        assert(i * p + p <= (n - 1) * p) by (nonlinear_arith)
            requires
                i + 1 <= n - 1,
                p >= 1,
        ;
    }
    assert forall|i: int| 0 <= i < n implies 1 <= #[trigger] spec_piece_size(i, length, p) <= p by {
        assert(i * p <= (n - 1) * p) by (nonlinear_arith)
            requires
                i <= n - 1,
                p >= 1,
        ;
    }
    assert(n >= 1) by (nonlinear_arith)
        requires
            length >= 1,
            p >= 1,
            n == (length + p - 1) / p,
    ;
    lemma_sum_full_pieces(n - 1, length, p);
    assert(sum_piece_sizes(n, length, p) == (n - 1) * p + spec_piece_size(n - 1, length, p));
    assert((n - 1) * p + p == n * p) by (nonlinear_arith);
}

/// Block layout when the block size divides the piece length: every block of
/// every piece but the last block of the last piece is exactly the block
/// size, so only that final block may be shorter.
pub proof fn lemma_only_final_block_short(length: int, piece_length: int, i: int, k: int)
    requires
        length >= 1,
        piece_length >= 1,
        piece_length % 16384 == 0,
        0 <= i < spec_ceil_div(length, piece_length),
        0 <= k < spec_ceil_div(spec_piece_size(i, length, piece_length), 16384),
        !(i == spec_ceil_div(length, piece_length) - 1 && k == spec_ceil_div(
            spec_piece_size(i, length, piece_length),
            16384,
        ) - 1),
    ensures
        spec_block_len(k, spec_piece_size(i, length, piece_length)) == 16384,
{
    let n = spec_ceil_div(length, piece_length);
    let ps = spec_piece_size(i, length, piece_length);
    lemma_pieces_cover_length(length, piece_length);
    lemma_blocks_cover_piece(ps);
    if i < n - 1 {
        assert(ps == piece_length);
        let nb = spec_ceil_div(ps, 16384);
        if k == nb - 1 {
            assert(ps % 16384 == 0);
            assert(nb * 16384 == ps) by (nonlinear_arith)
                requires
                    ps >= 1,
                    ps % 16384 == 0,
                    nb == (ps + 16383) / 16384,
            ;
            assert(ps - (nb - 1) * 16384 == 16384);
        }
    }
}

/// The size of piece `i`.
pub fn piece_size(i: u32, length: u64, piece_length: u32) -> (r: u32)
    requires
        length >= 1,
        piece_length >= 1,
        (i as int) < spec_ceil_div(length as int, piece_length as int),
    ensures
        r == spec_piece_size(i as int, length as int, piece_length as int),
        1 <= r <= piece_length,
{
    proof {
        lemma_pieces_cover_length(length as int, piece_length as int);
        assert(1 <= spec_piece_size(i as int, length as int, piece_length as int));
        assert((i as int) * (piece_length as int) < 0x10000000000000000int) by (nonlinear_arith)
            requires
                0 <= i as int <= 0xFFFFFFFFint,
                0 <= piece_length as int <= 0xFFFFFFFFint,
        ;
    }
    let start128 = (i as u128) * (piece_length as u128);
    let start = start128 as u64;
    let rem = length - start;
    if rem < piece_length as u64 {
        rem as u32
    } else {
        piece_length
    }
}

/// How many blocks a piece of `ps` bytes takes.
pub fn num_blocks(ps: u32) -> (r: u32)
    requires
        ps >= 1,
    ensures
        r == spec_ceil_div(ps as int, 16384),
{
    let r = ((ps as u64) + 16383) / 16384;
    r as u32
}

/// The length of block `k` of a piece of `ps` bytes.
pub fn block_len(k: u32, ps: u32) -> (r: u32)
    requires
        ps >= 1,
        (k as int) < spec_ceil_div(ps as int, 16384),
    ensures
        r == spec_block_len(k as int, ps as int),
        1 <= r <= 16384,
{
    proof {
        lemma_blocks_cover_piece(ps as int);
    }
    let start = k * 16384;
    let rem = ps - start;
    if rem < 16384 {
        rem
    } else {
        16384
    }
}

/// The in-flight piece: its index, its expected size, and the bytes received
/// so far, appended in order.
pub struct PieceProgress {
    pub index: u32,
    pub piece_size: u32,
    pub buf: Vec<u8>,
}

impl PieceProgress {
    pub open spec fn wf(&self) -> bool {
        &&& self.piece_size >= 1
        &&& self.buf@.len() <= self.piece_size
    }

    /// All blocks are in.
    pub open spec fn complete(&self) -> bool {
        self.buf@.len() == self.piece_size
    }

    pub fn new(index: u32, piece_size: u32) -> (r: PieceProgress)
        requires
            piece_size >= 1,
        ensures
            r.wf(),
            r.index == index,
            r.piece_size == piece_size,
            r.buf@ == Seq::<u8>::empty(),
    {
        PieceProgress { index, piece_size, buf: Vec::new() }
    }

    /// The next request to send: the piece index, the offset one past the
    /// bytes received, and the full block size or the remainder.
    pub fn next_request(&self) -> (r: (u32, u32, u32))
        requires
            self.wf(),
            !self.complete(),
        ensures
            r.0 == self.index,
            r.1 == self.buf@.len(),
            r.2 == (if self.piece_size - self.buf@.len() < 16384 {
                self.piece_size - self.buf@.len()
            } else {
                16384
            }),
    {
        let begin = self.buf.len() as u32;
        let rem = self.piece_size - begin;
        let len = if rem < 16384 {
            rem
        } else {
            16384
        };
        (self.index, begin, len)
    }

    /// The `Request` message for the next block.
    pub fn request_message(&self) -> (m: Message)
        requires
            self.wf(),
            !self.complete(),
        ensures
            m.wf(),
            m.id == MessageId::Request,
            m.payload@ == u32_be(self.index as int) + u32_be(self.buf@.len() as int) + u32_be(
                (if self.piece_size - self.buf@.len() < 16384 {
                    self.piece_size - self.buf@.len()
                } else {
                    16384
                }) as int,
            ),
    {
        let (index, begin, len) = self.next_request();
        let mut payload: Vec<u8> = Vec::new();
        push_u32_be(&mut payload, index);
        push_u32_be(&mut payload, begin);
        push_u32_be(&mut payload, len);
        proof {
            assert(payload@ =~= u32_be(index as int) + u32_be(begin as int) + u32_be(len as int));
        }
        Message::new(MessageId::Request, payload)
    }

    /// Take one `Piece` payload. It must answer the outstanding request: same
    /// piece, the offset right after what is buffered, and exactly the
    /// requested block length; anything else is a mismatched block and leaves
    /// the buffer unchanged.
    pub fn accept_block(&mut self, index: u32, begin: u32, data: &[u8]) -> (r: Result<
        bool,
        PeerError,
    >)
        requires
            old(self).wf(),
            !old(self).complete(),
        ensures
            final(self).wf(),
            final(self).index == old(self).index,
            final(self).piece_size == old(self).piece_size,
            match r {
                Ok(done) => {
                    &&& index == old(self).index
                    &&& begin == old(self).buf@.len()
                    &&& data@.len() == (if old(self).piece_size - old(self).buf@.len() < 16384 {
                        old(self).piece_size - old(self).buf@.len()
                    } else {
                        16384
                    })
                    &&& final(self).buf@ == old(self).buf@ + data@
                    &&& done == final(self).complete()
                },
                Err(e) => {
                    &&& e == PeerError::MismatchedBlock
                    &&& *final(self) == *old(self)
                    &&& !(index == old(self).index && begin == old(self).buf@.len() && data@.len()
                        == (if old(self).piece_size - old(self).buf@.len() < 16384 {
                        old(self).piece_size - old(self).buf@.len()
                    } else {
                        16384
                    }))
                },
            },
    {
        let (want_index, want_begin, want_len) = self.next_request();
        if index != want_index || begin != want_begin || data.len() != want_len as usize {
            return Err(PeerError::MismatchedBlock);
        }
        self.buf.extend_from_slice(data);
        Ok(self.buf.len() == self.piece_size as usize)
    }

    /// Hash the assembled piece and hand the bytes out only when the digest
    /// matches the metainfo.
    pub fn finish(self, expected: &[u8; 20]) -> (r: Result<Vec<u8>, IntegrityError>)
        requires
            self.wf(),
            self.complete(),
        ensures
            match r {
                Ok(b) => {
                    &&& b@ == self.buf@
                    &&& sha1_of(self.buf@) == expected@
                },
                Err(e) => {
                    &&& e == IntegrityError::PieceHash
                    &&& sha1_of(self.buf@) != expected@
                },
            },
    {
        let digest = sha1_digest(self.buf.as_slice());
        if !eq20(&digest, expected) {
            return Err(IntegrityError::PieceHash);
        }
        Ok(self.buf)
    }
}

/// The states of one peer session, from the fresh connection to the closed
/// socket.
#[derive(Debug, Clone, Copy, PartialEq, Eq, Structural)]
pub enum SessionState {
    Connected,
    HandshakeDone,
    AwaitBitfield,
    Interested,
    Unchoked,
    Downloading,
    Closed,
}

/// What receiving a control message does to the session state: the first
/// bitfield moves the session towards interest, an unchoke releases requests,
/// a choke pauses them until the next unchoke, and everything else is
/// accepted without a state change. A closed session stays closed.
pub open spec fn spec_on_message(s: SessionState, id: MessageId) -> SessionState {
    if s == SessionState::Closed {
        SessionState::Closed
    } else {
        match id {
            MessageId::Choke => SessionState::Interested,
            MessageId::Unchoke => if s == SessionState::Interested {
                SessionState::Unchoked
            } else {
                s
            },
            MessageId::Bitfield => if s == SessionState::HandshakeDone {
                SessionState::AwaitBitfield
            } else {
                s
            },
            _ => s,
        }
    }
}

/// One peer session's control state.
pub struct Session {
    pub state: SessionState,
}

impl Session {
    pub fn new() -> (s: Session)
        ensures
            s.state == SessionState::Connected,
    {
        Session { state: SessionState::Connected }
    }

    /// The handshake was exchanged and the info-hash matched.
    pub fn on_handshake_verified(&mut self)
        requires
            old(self).state == SessionState::Connected,
        ensures
            final(self).state == SessionState::HandshakeDone,
    {
        self.state = SessionState::HandshakeDone;
    }

    /// A control message arrived.
    pub fn on_message(&mut self, id: MessageId)
        ensures
            final(self).state == spec_on_message(old(self).state, id),
    {
        if self.state == SessionState::Closed {
            return ;
        }
        match id {
            MessageId::Choke => {
                self.state = SessionState::Interested;
            },
            MessageId::Unchoke => {
                if self.state == SessionState::Interested {
                    self.state = SessionState::Unchoked;
                }
            },
            MessageId::Bitfield => {
                if self.state == SessionState::HandshakeDone {
                    self.state = SessionState::AwaitBitfield;
                }
            },
            _ => {},
        }
    }

    /// Our `Interested` went out after the bitfield.
    pub fn on_sent_interested(&mut self)
        requires
            old(self).state == SessionState::AwaitBitfield,
        ensures
            final(self).state == SessionState::Interested,
    {
        self.state = SessionState::Interested;
    }

    /// A piece download begins.
    pub fn start_piece(&mut self)
        requires
            old(self).state == SessionState::Unchoked,
        ensures
            final(self).state == SessionState::Downloading,
    {
        self.state = SessionState::Downloading;
    }

    /// The piece completed and verified; ready for the next one.
    pub fn on_piece_complete(&mut self)
        requires
            old(self).state == SessionState::Downloading,
        ensures
            final(self).state == SessionState::Unchoked,
    {
        self.state = SessionState::Unchoked;
    }

    /// An error or the end of the stream closes the session.
    pub fn close(&mut self)
        ensures
            final(self).state == SessionState::Closed,
    {
        self.state = SessionState::Closed;
    }
}

} // verus!
