use vstd::prelude::*;

use crate::bencode::{
    clone_value, dict_find, rep, spec_dict_find, spec_encode, spec_parse, Bencode, FormatError,
    ParsedValue, SpecValue, Value,
};
use crate::bencode::lemma_parse_encode;
use crate::bencode::canonical;
use crate::digest::{hex_encode, hex_str_of, sha1_digest, sha1_of};
use crate::utf8::{is_utf8, utf8_check};

verus! {

/// Ceiling division for non-negative operands.
pub open spec fn spec_ceil_div(a: int, b: int) -> int {
    (a + b - 1) / b
}

/// The typed fields projected from the `info` dictionary of a metainfo file.
pub struct Info {
    pub length: usize,
    pub name: Vec<u8>,
    pub piece_length: usize,
    pub pieces: Vec<[u8; 20]>,
}

/// A parsed metainfo file: the announce URL, the projected info fields, and
/// the decoded info dictionary from which the info-hash is computed.
pub struct Torrent {
    pub announce: Vec<u8>,
    pub info: Info,
    pub info_dict: Value,
}

/// The schema of the `info` dictionary: UTF-8 name, positive length that fits
/// the machine, positive piece length that fits the wire's 32 bits, and a
/// pieces blob of whole 20-byte digests, one per piece.
pub open spec fn info_fields_ok(iv: SpecValue) -> bool {
    &&& iv matches SpecValue::Dict(d)
    &&& (spec_dict_find(d, k_name()) matches Option::Some(nv) && nv matches
        SpecValue::Bytes(nm) && is_utf8(nm))
    &&& (spec_dict_find(d, k_length()) matches Option::Some(lv) && lv matches
        SpecValue::Int(len_v) && 1 <= len_v <= usize::MAX && (spec_dict_find(
        d,
        k_piece_length(),
    ) matches Option::Some(pv) && pv matches SpecValue::Int(pl) && 1 <= pl <= u32::MAX && pl
        <= usize::MAX && (spec_dict_find(d, k_pieces()) matches Option::Some(bv) && bv
        matches SpecValue::Bytes(pb) && pb.len() >= 20 && pb.len() % 20 == 0 && pb.len() / 20
        <= u32::MAX && pb.len() / 20 == spec_ceil_div(len_v, pl))))
}

/// The schema of the whole metainfo: a dictionary with a UTF-8 `announce`
/// byte string and an `info` dictionary of the shape above.
pub open spec fn meta_fields_ok(top: SpecValue) -> bool {
    &&& top matches SpecValue::Dict(td)
    &&& (spec_dict_find(td, k_announce()) matches Option::Some(av) && av matches
        SpecValue::Bytes(a) && is_utf8(a))
    &&& (spec_dict_find(td, k_info()) matches Option::Some(iv) && info_fields_ok(iv))
}

/// The raw bytes of the `announce` key.
pub open spec fn k_announce() -> Seq<u8> {
    seq![97u8, 110u8, 110u8, 111u8, 117u8, 110u8, 99u8, 101u8]
}

pub fn key_announce() -> (r: Vec<u8>)
    ensures
        r@ == k_announce(),
{
    let mut v: Vec<u8> = Vec::new();
    v.push(97);
    v.push(110);
    v.push(110);
    v.push(111);
    v.push(117);
    v.push(110);
    v.push(99);
    v.push(101);
    proof {
        assert(v@ =~= k_announce());
    }
    v
}

/// The raw bytes of the `info` key.
pub open spec fn k_info() -> Seq<u8> {
    seq![105u8, 110u8, 102u8, 111u8]
}

pub fn key_info() -> (r: Vec<u8>)
    ensures
        r@ == k_info(),
{
    let mut v: Vec<u8> = Vec::new();
    v.push(105);
    v.push(110);
    v.push(102);
    v.push(111);
    proof {
        assert(v@ =~= k_info());
    }
    v
}

/// The raw bytes of the `name` key.
pub open spec fn k_name() -> Seq<u8> {
    seq![110u8, 97u8, 109u8, 101u8]
}

pub fn key_name() -> (r: Vec<u8>)
    ensures
        r@ == k_name(),
{
    let mut v: Vec<u8> = Vec::new();
    v.push(110);
    v.push(97);
    v.push(109);
    v.push(101);
    proof {
        assert(v@ =~= k_name());
    }
    v
}

/// The raw bytes of the `length` key.
pub open spec fn k_length() -> Seq<u8> {
    seq![108u8, 101u8, 110u8, 103u8, 116u8, 104u8]
}

pub fn key_length() -> (r: Vec<u8>)
    ensures
        r@ == k_length(),
{
    let mut v: Vec<u8> = Vec::new();
    v.push(108);
    v.push(101);
    v.push(110);
    v.push(103);
    v.push(116);
    v.push(104);
    proof {
        assert(v@ =~= k_length());
    }
    v
}

/// The raw bytes of the `piece length` key.
pub open spec fn k_piece_length() -> Seq<u8> {
    seq![112u8, 105u8, 101u8, 99u8, 101u8, 32u8, 108u8, 101u8, 110u8, 103u8, 116u8, 104u8]
}

pub fn key_piece_length() -> (r: Vec<u8>)
    ensures
        r@ == k_piece_length(),
{
    let mut v: Vec<u8> = Vec::new();
    v.push(112);
    v.push(105);
    v.push(101);
    v.push(99);
    v.push(101);
    v.push(32);
    v.push(108);
    v.push(101);
    v.push(110);
    v.push(103);
    v.push(116);
    v.push(104);
    proof {
        assert(v@ =~= k_piece_length());
    }
    v
}

/// The raw bytes of the `pieces` key.
pub open spec fn k_pieces() -> Seq<u8> {
    seq![112u8, 105u8, 101u8, 99u8, 101u8, 115u8]
}

pub fn key_pieces() -> (r: Vec<u8>)
    ensures
        r@ == k_pieces(),
{
    let mut v: Vec<u8> = Vec::new();
    v.push(112);
    v.push(105);
    v.push(101);
    v.push(99);
    v.push(101);
    v.push(115);
    proof {
        assert(v@ =~= k_pieces());
    }
    v
}

/// Twenty bytes of a slice, starting at `off`, as an array.
fn bytes20(src: &[u8], off: usize) -> (r: [u8; 20])
    requires
        off + 20 <= src@.len(),
    ensures
        r@ == src@.subrange(off as int, off + 20),
{
    let r = [
        src[off],
        src[off + 1],
        src[off + 2],
        src[off + 3],
        src[off + 4],
        src[off + 5],
        src[off + 6],
        src[off + 7],
        src[off + 8],
        src[off + 9],
        src[off + 10],
        src[off + 11],
        src[off + 12],
        src[off + 13],
        src[off + 14],
        src[off + 15],
        src[off + 16],
        src[off + 17],
        src[off + 18],
        src[off + 19],
    ];
    proof {
        assert(r@ =~= src@.subrange(off as int, off + 20));
    }
    r
}

impl Torrent {
    /// A well-formed torrent: text fields are UTF-8, sizes are positive and
    /// fit the wire, and there is one 20-byte digest per piece.
    pub open spec fn wf(&self) -> bool {
        &&& is_utf8(self.announce@)
        &&& is_utf8(self.info.name@)
        &&& 1 <= self.info.length
        &&& 1 <= self.info.piece_length <= u32::MAX
        &&& 1 <= self.info.pieces@.len() <= u32::MAX
        &&& self.info.pieces@.len() == spec_ceil_div(
            self.info.length as int,
            self.info.piece_length as int,
        )
        &&& info_fields_ok(rep(self.info_dict))
    }

    /// Project a metainfo document: decode it, check the schema, and pull the
    /// typed fields out. Trailing bytes after the document are ignored.
    pub fn from_bytes(bytes: &[u8]) -> (r: Result<Torrent, FormatError>)
        ensures
            match r {
                Ok(t) => {
                    &&& t.wf()
                    &&& spec_parse(bytes@) matches ParsedValue::Parsed { v: top, rest }
                    &&& meta_fields_ok(top)
                    &&& top matches SpecValue::Dict(td)
                    &&& spec_dict_find(td, k_announce()) == Option::Some(
                        SpecValue::Bytes(t.announce@),
                    )
                    &&& spec_dict_find(td, k_info()) == Option::Some(rep(t.info_dict))
                    &&& rep(t.info_dict) matches SpecValue::Dict(d)
                    &&& spec_dict_find(d, k_name()) == Option::Some(SpecValue::Bytes(t.info.name@))
                    &&& spec_dict_find(d, k_length()) == Option::Some(
                        SpecValue::Int(t.info.length as int),
                    )
                    &&& spec_dict_find(d, k_piece_length()) == Option::Some(
                        SpecValue::Int(t.info.piece_length as int),
                    )
                    &&& spec_dict_find(d, k_pieces()) matches Option::Some(
                        SpecValue::Bytes(pb),
                    )
                    &&& pb.len() == 20 * t.info.pieces@.len()
                    &&& forall|i: int|
                        0 <= i < t.info.pieces@.len() ==> (#[trigger] t.info.pieces@[i])@
                            == pb.subrange(20 * i, 20 * i + 20)
                },
                Err(e) => match spec_parse(bytes@) {
                    ParsedValue::Fail { e: pe } => e == pe,
                    ParsedValue::Parsed { v, rest } => e == FormatError::Schema && !meta_fields_ok(
                        v,
                    ),
                },
            },
    {
        let mut dec = Bencode::new(bytes);
        let top = match dec.decode() {
            Ok(v) => v,
            Err(e) => {
                return Err(e);
            },
        };
        let entries: &Vec<crate::bencode::DictEntry> = match &top {
            Value::Dict(es) => es,
            _ => {
                return Err(FormatError::Schema);
            },
        };
        let announce = match dict_find(entries, &key_announce()) {
            Some(Value::Bytes(a)) => vstd::slice::slice_to_vec(a.as_slice()),
            _ => {
                return Err(FormatError::Schema);
            },
        };
        if !utf8_check(announce.as_slice()) {
            return Err(FormatError::Schema);
        }
        let info_ref: &Value = match dict_find(entries, &key_info()) {
            Some(v) => v,
            None => {
                return Err(FormatError::Schema);
            },
        };
        let info_entries: &Vec<crate::bencode::DictEntry> = match info_ref {
            Value::Dict(es) => es,
            _ => {
                return Err(FormatError::Schema);
            },
        };
        let name = match dict_find(info_entries, &key_name()) {
            Some(Value::Bytes(nm)) => vstd::slice::slice_to_vec(nm.as_slice()),
            _ => {
                return Err(FormatError::Schema);
            },
        };
        if !utf8_check(name.as_slice()) {
            return Err(FormatError::Schema);
        }
        let length_i = match dict_find(info_entries, &key_length()) {
            Some(Value::Int(n)) => *n,
            _ => {
                return Err(FormatError::Schema);
            },
        };
        if length_i < 1 || !(length_i as u64 <= usize::MAX as u64) {
            return Err(FormatError::Schema);
        }
        let length = length_i as usize;
        let piece_length_i = match dict_find(info_entries, &key_piece_length()) {
            Some(Value::Int(n)) => *n,
            _ => {
                return Err(FormatError::Schema);
            },
        };
        if piece_length_i < 1 || piece_length_i > u32::MAX as i64 || !(piece_length_i as u64
            <= usize::MAX as u64) {
            return Err(FormatError::Schema);
        }
        let piece_length = piece_length_i as usize;
        let pb: &Vec<u8> = match dict_find(info_entries, &key_pieces()) {
            Some(Value::Bytes(b)) => b,
            _ => {
                return Err(FormatError::Schema);
            },
        };
        if pb.len() < 20 || pb.len() % 20 != 0 {
            return Err(FormatError::Schema);
        }
        let n_pieces = pb.len() / 20;
        if n_pieces as u64 > u32::MAX as u64 {
            return Err(FormatError::Schema);
        }
        let want = ((length as u128) + (piece_length as u128) - 1) / (piece_length as u128);
        if n_pieces as u128 != want {
            return Err(FormatError::Schema);
        }
        let mut pieces: Vec<[u8; 20]> = Vec::new();
        let mut i: usize = 0;
        while i < n_pieces
            invariant
                i <= n_pieces,
                20 * n_pieces == pb@.len(),
                pb@.len() <= usize::MAX,
                pieces@.len() == i,
                forall|j: int| 0 <= j < i ==> (#[trigger] pieces@[j])@ == pb@.subrange(
                    20 * j,
                    20 * j + 20,
                ),
            decreases n_pieces - i,
        {
            let h = bytes20(pb.as_slice(), i * 20);
            pieces.push(h);
            i = i + 1;
        }
        let info_dict = clone_value(info_ref);
        Ok(
            Torrent {
                announce,
                info: Info { length, name, piece_length, pieces },
                info_dict,
            },
        )
    }

    /// The SHA-1 of the canonical re-encoding of the info dictionary.
    pub fn info_hash_bytes(&self) -> (r: [u8; 20])
        ensures
            r@ == sha1_of(spec_encode(rep(self.info_dict))),
    {
        let enc = Bencode::encode(&self.info_dict);
        sha1_digest(enc.as_slice())
    }

    /// The info-hash as forty lowercase hex digits.
    pub fn info_hash(&self) -> (r: String)
        ensures
            r@ == hex_str_of(sha1_of(spec_encode(rep(self.info_dict)))),
    {
        let h = self.info_hash_bytes();
        hex_encode(h.as_slice())
    }
}

/// Info-hash stability: when a byte range is the canonical encoding of some
/// dictionary, as the info range of a well-formed metainfo file is, then
/// decoding it and re-encoding the decoded value reproduces the same bytes,
/// so the SHA-1 of the re-encoding equals the SHA-1 of the original range.
pub proof fn lemma_info_hash_stability(v0: SpecValue, tail: Seq<u8>)
    requires
        canonical(v0),
    ensures
        spec_parse(spec_encode(v0) + tail) matches ParsedValue::Parsed { v, rest }
            && spec_encode(v) == spec_encode(v0) && sha1_of(spec_encode(v)) == sha1_of(
            spec_encode(v0),
        ),
{
    lemma_parse_encode(v0, tail);
}

} // verus!
