use vstd::prelude::*;

use crate::bencode::{
    dec_digits, int_digits, lemma_rep_dict_index, lemma_rep_list_index, push_dec_digits, rep,
    rep_dict, rep_list, DictEntry, SpecEntry, SpecValue, Value,
};
use crate::digest::{hex_digit8, hex_nibble};
use crate::utf8::{is_utf8, utf8_check};

verus! {

/// The JSON escape of one byte inside a double-quoted string: quote and
/// backslash escaped, control bytes as `\u00xx`, all else verbatim.
pub open spec fn escape_byte(b: u8) -> Seq<u8> {
    if b == 34 {
        seq![92u8, 34u8]
    } else if b == 92 {
        seq![92u8, 92u8]
    } else if b < 32 {
        seq![92u8, 117u8, 48u8, 48u8, hex_digit8(b as int / 16), hex_digit8(b as int % 16)]
    } else {
        seq![b]
    }
}

pub open spec fn escape_bytes(s: Seq<u8>) -> Seq<u8>
    decreases s.len(),
{
    if s.len() == 0 {
        Seq::empty()
    } else {
        escape_bytes(s.subrange(0, s.len() - 1)) + escape_byte(s[s.len() - 1])
    }
}

/// Byte values as a comma-separated decimal list.
pub open spec fn render_byte_items(s: Seq<u8>) -> Seq<u8>
    decreases s.len(),
{
    if s.len() == 0 {
        Seq::empty()
    } else if s.len() == 1 {
        dec_digits(s[0] as int)
    } else {
        render_byte_items(s.subrange(0, s.len() - 1)) + seq![44u8] + dec_digits(
            s[s.len() - 1] as int,
        )
    }
}

/// A byte string as text: a quoted JSON string when it decodes as UTF-8,
/// else a JSON array of byte values.
pub open spec fn render_bytes(s: Seq<u8>) -> Seq<u8> {
    if is_utf8(s) {
        seq![34u8] + escape_bytes(s) + seq![34u8]
    } else {
        seq![91u8] + render_byte_items(s) + seq![93u8]
    }
}

/// The textual rendering of a value: quoted strings, decimal integers,
/// `[v,...]` lists and `{"k":v,...}` dictionaries in stored (ascending) key
/// order.
pub open spec fn spec_render(v: SpecValue) -> Seq<u8>
    decreases v,
{
    match v {
        SpecValue::Bytes(b) => render_bytes(b),
        SpecValue::Int(i) => int_digits(i),
        SpecValue::List(l) => seq![91u8] + render_items(l) + seq![93u8],
        SpecValue::Dict(d) => seq![123u8] + render_entries(d) + seq![125u8],
    }
}

pub open spec fn render_items(l: Seq<SpecValue>) -> Seq<u8>
    decreases l,
{
    if l.len() == 0 {
        Seq::empty()
    } else if l.len() == 1 {
        spec_render(l[0])
    } else {
        render_items(l.subrange(0, l.len() - 1)) + seq![44u8] + spec_render(l[l.len() - 1])
    }
}

pub open spec fn render_entries(d: Seq<SpecEntry>) -> Seq<u8>
    decreases d,
{
    if d.len() == 0 {
        Seq::empty()
    } else if d.len() == 1 {
        render_bytes(d[0].key) + seq![58u8] + spec_render(d[0].value)
    } else {
        render_entries(d.subrange(0, d.len() - 1)) + seq![44u8] + render_bytes(d[d.len() - 1].key)
            + seq![58u8] + spec_render(d[d.len() - 1].value)
    }
}

/// Append the rendering of a byte string to `out`.
fn render_bytes_into(b: &Vec<u8>, out: &mut Vec<u8>)
    ensures
        final(out)@ == old(out)@ + render_bytes(b@),
{
    if utf8_check(b.as_slice()) {
        out.push(34);
        let ghost pre = out@;
        let mut k: usize = 0;
        proof {
            assert(b@.subrange(0, 0) =~= Seq::<u8>::empty());
            assert(out@ =~= pre + escape_bytes(b@.subrange(0, 0)));
        }
        while k < b.len()
            invariant
                k <= b.len(),
                is_utf8(b@),
                pre == old(out)@ + seq![34u8],
                out@ == pre + escape_bytes(b@.subrange(0, k as int)),
            decreases b.len() - k,
        {
            let x = b[k];
            if x == 34 {
                out.push(92);
                out.push(34);
            } else if x == 92 {
                out.push(92);
                out.push(92);
            } else if x < 32 {
                out.push(92);
                out.push(117);
                out.push(48);
                out.push(48);
                out.push(hex_nibble(x / 16));
                out.push(hex_nibble(x % 16));
            } else {
                out.push(x);
            }
            proof {
                let w = b@.subrange(0, k + 1);
                assert(w.subrange(0, w.len() - 1) =~= b@.subrange(0, k as int));
                assert(w[w.len() - 1] == b@[k as int]);
                assert(out@ =~= pre + escape_bytes(w));
            }
            k = k + 1;
        }
        out.push(34);
        proof {
            assert(b@.subrange(0, b@.len() as int) =~= b@);
            assert(out@ =~= old(out)@ + render_bytes(b@));
        }
    } else {
        out.push(91);
        let ghost pre = out@;
        let mut k: usize = 0;
        proof {
            assert(b@.subrange(0, 0) =~= Seq::<u8>::empty());
            assert(out@ =~= pre + render_byte_items(b@.subrange(0, 0)));
        }
        while k < b.len()
            invariant
                k <= b.len(),
                !is_utf8(b@),
                pre == old(out)@ + seq![91u8],
                out@ == pre + render_byte_items(b@.subrange(0, k as int)),
            decreases b.len() - k,
        {
            if k > 0 {
                out.push(44);
            }
            push_dec_digits(out, b[k] as u64);
            proof {
                let w = b@.subrange(0, k + 1);
                assert(w.subrange(0, w.len() - 1) =~= b@.subrange(0, k as int));
                assert(w[w.len() - 1] == b@[k as int]);
                assert(out@ =~= pre + render_byte_items(w));
            }
            k = k + 1;
        }
        out.push(93);
        proof {
            assert(b@.subrange(0, b@.len() as int) =~= b@);
            assert(out@ =~= old(out)@ + render_bytes(b@));
        }
    }
}

/// Append the rendering of a value to `out`.
pub fn render_into(value: &Value, out: &mut Vec<u8>)
    ensures
        final(out)@ == old(out)@ + spec_render(rep(*value)),
    decreases *value,
{
    match value {
        Value::Bytes(b) => {
            render_bytes_into(b, out);
        },
        Value::Int(i) => {
            let iv = *i;
            if iv < 0 {
                out.push(45);
                let m: u64 = (-(iv as i128)) as u64;
                push_dec_digits(out, m);
            } else {
                push_dec_digits(out, iv as u64);
            }
            proof {
                assert(out@ =~= old(out)@ + spec_render(rep(*value)));
            }
        },
        Value::List(l) => {
            out.push(91);
            let ghost pre = out@;
            let mut k: usize = 0;
            proof {
                assert(l@.subrange(0, 0) =~= Seq::<Value>::empty());
                assert(rep_list(l@.subrange(0, 0)) =~= Seq::<SpecValue>::empty());
                assert(out@ =~= pre + render_items(rep_list(l@.subrange(0, 0))));
            }
            while k < l.len()
                invariant
                    *value == Value::List(*l),
                    k <= l.len(),
                    pre == old(out)@ + seq![91u8],
                    out@ == pre + render_items(rep_list(l@.subrange(0, k as int))),
                decreases l.len() - k,
            {
                if k > 0 {
                    out.push(44);
                }
                let ghost prefix = rep_list(l@.subrange(0, k as int));
                proof {
                    broadcast use vstd::std_specs::vec::group_vec_axioms;
                    broadcast use vstd::seq::group_seq_axioms;

                    assert(decreases_to!(*value => (*value)->List_0));
                    assert(decreases_to!(*l => l@));
                    assert(decreases_to!(l@ => l@[k as int]));
                    assert(decreases_to!(*value => l@[k as int]));
                }
                render_into(&l[k], out);
                proof {
                    lemma_rep_list_index(l@.subrange(0, k as int));
                    lemma_rep_list_index(l@.subrange(0, k + 1));
                    let w = rep_list(l@.subrange(0, k + 1));
                    assert(w =~= prefix.push(rep(l@[k as int])));
                    assert(w.subrange(0, w.len() - 1) =~= prefix);
                    assert(w[w.len() - 1] == rep(l@[k as int]));
                    assert(out@ =~= pre + render_items(w));
                }
                k = k + 1;
            }
            out.push(93);
            proof {
                assert(l@.subrange(0, l@.len() as int) =~= l@);
                assert(out@ =~= old(out)@ + spec_render(rep(*value)));
            }
        },
        Value::Dict(d) => {
            out.push(123);
            let ghost pre = out@;
            let mut k: usize = 0;
            proof {
                assert(d@.subrange(0, 0) =~= Seq::<DictEntry>::empty());
                assert(rep_dict(d@.subrange(0, 0)) =~= Seq::<SpecEntry>::empty());
                assert(out@ =~= pre + render_entries(rep_dict(d@.subrange(0, 0))));
            }
            while k < d.len()
                invariant
                    *value == Value::Dict(*d),
                    k <= d.len(),
                    pre == old(out)@ + seq![123u8],
                    out@ == pre + render_entries(rep_dict(d@.subrange(0, k as int))),
                decreases d.len() - k,
            {
                if k > 0 {
                    out.push(44);
                }
                let ghost prefix = rep_dict(d@.subrange(0, k as int));
                let ghost se = SpecEntry { key: d@[k as int].key@, value: rep(d@[k as int].value) };
                let entry = &d[k];
                render_bytes_into(&entry.key, out);
                out.push(58);
                proof {
                    broadcast use vstd::std_specs::vec::group_vec_axioms;
                    broadcast use vstd::seq::group_seq_axioms;

                    assert(decreases_to!(*value => (*value)->Dict_0));
                    assert(decreases_to!(*d => d@));
                    assert(decreases_to!(d@ => d@[k as int]));
                    assert(decreases_to!(d@[k as int] => d@[k as int].value));
                    assert(decreases_to!(*value => d@[k as int].value));
                }
                render_into(&entry.value, out);
                proof {
                    lemma_rep_dict_index(d@.subrange(0, k as int));
                    lemma_rep_dict_index(d@.subrange(0, k + 1));
                    let w = rep_dict(d@.subrange(0, k + 1));
                    assert(w =~= prefix.push(se));
                    assert(w.subrange(0, w.len() - 1) =~= prefix);
                    assert(w[w.len() - 1] == se);
                    assert(out@ =~= pre + render_entries(w));
                }
                k = k + 1;
            }
            out.push(125);
            proof {
                assert(d@.subrange(0, d@.len() as int) =~= d@);
                assert(out@ =~= old(out)@ + spec_render(rep(*value)));
            }
        },
    }
}

/// Render a value as its textual form.
pub fn render(value: &Value) -> (r: Vec<u8>)
    ensures
        r@ == spec_render(rep(*value)),
{
    let mut out: Vec<u8> = Vec::new();
    render_into(value, &mut out);
    proof {
        assert(out@ =~= spec_render(rep(*value)));
    }
    out
}

} // verus!
