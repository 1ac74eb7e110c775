use vstd::prelude::*;

verus! {

/// Why a bencode document was rejected.
#[derive(Debug, Clone, Copy, PartialEq, Eq, Structural)]
pub enum FormatError {
    /// The input ended before the value did.
    Truncated,
    /// An integer or a length does not fit the machine type.
    Overflow,
    /// A byte that the grammar does not allow at that place.
    Unexpected,
    /// A dictionary key that occurs twice.
    DuplicateKey,
    /// A metainfo dictionary without the required fields.
    Schema,
}

/// A decoded bencode value: raw byte strings, signed integers, lists and
/// dictionaries keyed by raw byte strings. Dictionaries are kept sorted by
/// strictly ascending raw key bytes.
#[derive(Debug, PartialEq, Eq)]
pub enum Value {
    Bytes(Vec<u8>),
    Int(i64),
    List(Vec<Value>),
    Dict(Vec<DictEntry>),
}

/// One key/value pair of a bencode dictionary; the key is a raw byte string.
#[derive(Debug, PartialEq, Eq)]
pub struct DictEntry {
    pub key: Vec<u8>,
    pub value: Value,
}

/// The mathematical model of a bencode value.
#[verifier::ext_equal]
pub enum SpecValue {
    Bytes(Seq<u8>),
    Int(int),
    List(Seq<SpecValue>),
    Dict(Seq<SpecEntry>),
}

/// The mathematical model of one dictionary entry.
#[verifier::ext_equal]
pub struct SpecEntry {
    pub key: Seq<u8>,
    pub value: SpecValue,
}

/// The model of a value: the value tree with every `Vec` read as a `Seq`.
pub open spec fn rep(v: Value) -> SpecValue
    decreases v,
{
    match v {
        Value::Bytes(b) => SpecValue::Bytes(b@),
        Value::Int(i) => SpecValue::Int(i as int),
        Value::List(l) => SpecValue::List(rep_list(l@)),
        Value::Dict(d) => SpecValue::Dict(rep_dict(d@)),
    }
}

pub open spec fn rep_list(s: Seq<Value>) -> Seq<SpecValue>
    decreases s,
{
    if s.len() == 0 {
        Seq::empty()
    } else {
        seq![rep(s[0])] + rep_list(s.subrange(1, s.len() as int))
    }
}

pub open spec fn rep_dict(s: Seq<DictEntry>) -> Seq<SpecEntry>
    decreases s,
{
    if s.len() == 0 {
        Seq::empty()
    } else {
        seq![SpecEntry { key: s[0].key@, value: rep(s[0].value) }]
            + rep_dict(s.subrange(1, s.len() as int))
    }
}

pub proof fn lemma_rep_list_index(s: Seq<Value>)
    ensures
        rep_list(s).len() == s.len(),
        forall|i: int| 0 <= i < s.len() ==> rep_list(s)[i] == rep(s[i]),
    decreases s.len(),
{
    if s.len() > 0 {
        lemma_rep_list_index(s.subrange(1, s.len() as int));
    }
}

pub proof fn lemma_rep_dict_index(s: Seq<DictEntry>)
    ensures
        rep_dict(s).len() == s.len(),
        forall|i: int| 0 <= i < s.len() ==> rep_dict(s)[i]
            == (SpecEntry { key: s[i].key@, value: rep(s[i].value) }),
    decreases s.len(),
{
    if s.len() > 0 {
        lemma_rep_dict_index(s.subrange(1, s.len() as int));
    }
}

/// Decimal digits of a non-negative number, most significant first.
pub open spec fn dec_digits(n: int) -> Seq<u8>
    recommends
        n >= 0,
    decreases n,
{
    if n < 10 {
        seq![(48 + if 0 <= n { n } else { 0 }) as u8]
    } else {
        dec_digits(n / 10).push((48 + n % 10) as u8)
    }
}

/// Decimal digits of an integer, with a leading minus sign when negative.
pub open spec fn int_digits(i: int) -> Seq<u8> {
    if i < 0 {
        seq![45u8] + dec_digits(-i)
    } else {
        dec_digits(i)
    }
}

/// The canonical bencoding of a value: `<len>:<bytes>`, `i<digits>e`,
/// `l<items>e`, `d<entries>e` with dictionary entries in key order.
pub open spec fn spec_encode(v: SpecValue) -> Seq<u8>
    decreases v,
{
    match v {
        SpecValue::Bytes(b) => dec_digits(b.len() as int) + seq![58u8] + b,
        SpecValue::Int(i) => seq![105u8] + int_digits(i) + seq![101u8],
        SpecValue::List(l) => seq![108u8] + spec_encode_list(l) + seq![101u8],
        SpecValue::Dict(d) => seq![100u8] + spec_encode_dict(d) + seq![101u8],
    }
}

pub open spec fn spec_encode_list(l: Seq<SpecValue>) -> Seq<u8>
    decreases l,
{
    if l.len() == 0 {
        Seq::empty()
    } else {
        spec_encode(l[0]) + spec_encode_list(l.subrange(1, l.len() as int))
    }
}

pub open spec fn spec_encode_dict(d: Seq<SpecEntry>) -> Seq<u8>
    decreases d,
{
    if d.len() == 0 {
        Seq::empty()
    } else {
        dec_digits(d[0].key.len() as int) + seq![58u8] + d[0].key + spec_encode(d[0].value)
            + spec_encode_dict(d.subrange(1, d.len() as int))
    }
}

/// Strict lexicographic order on raw byte strings.
pub open spec fn lex_lt(a: Seq<u8>, b: Seq<u8>) -> bool
    decreases a.len(),
{
    if b.len() == 0 {
        false
    } else if a.len() == 0 {
        true
    } else if a[0] < b[0] {
        true
    } else if a[0] > b[0] {
        false
    } else {
        lex_lt(a.subrange(1, a.len() as int), b.subrange(1, b.len() as int))
    }
}

/// A value in canonical form: integers fit an `i64`, byte strings fit memory,
/// and every dictionary has strictly ascending keys.
pub open spec fn canonical(v: SpecValue) -> bool
    decreases v,
{
    match v {
        SpecValue::Bytes(b) => b.len() <= usize::MAX,
        SpecValue::Int(i) => i64::MIN <= i <= i64::MAX,
        SpecValue::List(l) => forall|i: int| 0 <= i < l.len() ==> canonical(#[trigger] l[i]),
        SpecValue::Dict(d) => {
            &&& forall|i: int| 0 <= i < d.len() ==> canonical((#[trigger] d[i]).value)
            &&& forall|i: int| 0 <= i < d.len() ==> (#[trigger] d[i]).key.len() <= usize::MAX
            &&& forall|i: int| 0 <= i < d.len() - 1 ==> lex_lt((#[trigger] d[i]).key, d[i + 1].key)
        },
    }
}

pub open spec fn is_digit(b: u8) -> bool {
    48 <= b <= 57
}

/// Count of leading decimal digits of `s`.
pub open spec fn num_digits(s: Seq<u8>) -> nat
    decreases s.len(),
{
    if s.len() > 0 && is_digit(s[0]) {
        (1 + num_digits(s.subrange(1, s.len() as int))) as nat
    } else {
        0
    }
}

/// Value of the first `n` digits of `s`, read as a decimal number.
pub open spec fn digits_val(s: Seq<u8>, n: int) -> int
    decreases n,
{
    if n <= 0 {
        0
    } else {
        digits_val(s, n - 1) * 10 + (s[n - 1] - 48)
    }
}

/// Result of parsing one value from the front of a byte sequence.
#[verifier::ext_equal]
pub enum ParsedValue {
    Parsed { v: SpecValue, rest: Seq<u8> },
    Fail { e: FormatError },
}

/// Result of parsing one byte string from the front of a byte sequence.
#[verifier::ext_equal]
pub enum ParsedBytes {
    Parsed { b: Seq<u8>, rest: Seq<u8> },
    Fail { e: FormatError },
}

/// Parse `i<digits>e`. `i0e` is allowed; leading zeros and `-0` are not;
/// values outside `i64` are an overflow.
pub open spec fn spec_parse_int(s: Seq<u8>) -> ParsedValue
    recommends
        s.len() > 0 && s[0] == 105,
{
    let t = s.subrange(1, s.len() as int);
    let neg = t.len() > 0 && t[0] == 45;
    let u = if neg {
        t.subrange(1, t.len() as int)
    } else {
        t
    };
    let nd = num_digits(u) as int;
    if nd == 0 {
        if u.len() == 0 {
            ParsedValue::Fail { e: FormatError::Truncated }
        } else {
            ParsedValue::Fail { e: FormatError::Unexpected }
        }
    } else if u[0] == 48 && (nd > 1 || neg) {
        ParsedValue::Fail { e: FormatError::Unexpected }
    } else {
        let m = digits_val(u, nd);
        let val = if neg {
            -m
        } else {
            m
        };
        if val < i64::MIN || val > i64::MAX {
            ParsedValue::Fail { e: FormatError::Overflow }
        } else if nd == u.len() {
            ParsedValue::Fail { e: FormatError::Truncated }
        } else if u[nd] != 101 {
            ParsedValue::Fail { e: FormatError::Unexpected }
        } else {
            ParsedValue::Parsed { v: SpecValue::Int(val), rest: u.subrange(nd + 1, u.len() as int) }
        }
    }
}

/// Parse `<decimal length>:<raw bytes>`.
pub open spec fn spec_parse_bytes(s: Seq<u8>) -> ParsedBytes
    recommends
        s.len() > 0 && is_digit(s[0]),
{
    let nd = num_digits(s) as int;
    let len = digits_val(s, nd);
    if len > usize::MAX {
        ParsedBytes::Fail { e: FormatError::Overflow }
    } else if nd == s.len() {
        ParsedBytes::Fail { e: FormatError::Truncated }
    } else if s[nd] != 58 {
        ParsedBytes::Fail { e: FormatError::Unexpected }
    } else if s.len() - nd - 1 < len {
        ParsedBytes::Fail { e: FormatError::Truncated }
    } else {
        ParsedBytes::Parsed {
            b: s.subrange(nd + 1, nd + 1 + len),
            rest: s.subrange(nd + 1 + len, s.len() as int),
        }
    }
}

/// Parse one value from the front of `s`: the decoder's reference.
/// Dictionaries may arrive with keys out of order; they are normalized into
/// ascending key order, and a repeated key is an error.
pub open spec fn spec_parse(s: Seq<u8>) -> ParsedValue
    decreases s.len(), 0int,
{
    if s.len() == 0 {
        ParsedValue::Fail { e: FormatError::Truncated }
    } else if s[0] == 105 {
        spec_parse_int(s)
    } else if s[0] == 108 {
        spec_parse_list_items(s.subrange(1, s.len() as int), Seq::empty())
    } else if s[0] == 100 {
        spec_parse_dict_items(s.subrange(1, s.len() as int), Seq::empty())
    } else if is_digit(s[0]) {
        match spec_parse_bytes(s) {
            ParsedBytes::Parsed { b, rest } => ParsedValue::Parsed { v: SpecValue::Bytes(b), rest },
            ParsedBytes::Fail { e } => ParsedValue::Fail { e },
        }
    } else {
        ParsedValue::Fail { e: FormatError::Unexpected }
    }
}

/// Parse list items up to the closing `e`, accumulating into `acc`.
pub open spec fn spec_parse_list_items(s: Seq<u8>, acc: Seq<SpecValue>) -> ParsedValue
    decreases s.len(), 1int,
{
    if s.len() == 0 {
        ParsedValue::Fail { e: FormatError::Truncated }
    } else if s[0] == 101 {
        ParsedValue::Parsed { v: SpecValue::List(acc), rest: s.subrange(1, s.len() as int) }
    } else {
        match spec_parse(s) {
            ParsedValue::Fail { e } => ParsedValue::Fail { e },
            ParsedValue::Parsed { v, rest } => if rest.len() < s.len() {
                spec_parse_list_items(rest, acc.push(v))
            } else {
                ParsedValue::Fail { e: FormatError::Truncated }
            },
        }
    }
}

/// Parse dictionary entries up to the closing `e`, inserting each into `acc`
/// at its place in key order.
pub open spec fn spec_parse_dict_items(s: Seq<u8>, acc: Seq<SpecEntry>) -> ParsedValue
    decreases s.len(), 1int,
{
    if s.len() == 0 {
        ParsedValue::Fail { e: FormatError::Truncated }
    } else if s[0] == 101 {
        ParsedValue::Parsed { v: SpecValue::Dict(acc), rest: s.subrange(1, s.len() as int) }
    } else if !is_digit(s[0]) {
        ParsedValue::Fail { e: FormatError::Unexpected }
    } else {
        match spec_parse_bytes(s) {
            ParsedBytes::Fail { e } => ParsedValue::Fail { e },
            ParsedBytes::Parsed { b: k, rest: r1 } => if r1.len() < s.len() {
                match spec_parse(r1) {
                    ParsedValue::Fail { e } => ParsedValue::Fail { e },
                    ParsedValue::Parsed { v, rest: r2 } => if r2.len() < s.len() {
                        match spec_insert(acc, k, v) {
                            Option::None => ParsedValue::Fail { e: FormatError::DuplicateKey },
                            Option::Some(acc2) => spec_parse_dict_items(r2, acc2),
                        }
                    } else {
                        ParsedValue::Fail { e: FormatError::Truncated }
                    },
                }
            } else {
                ParsedValue::Fail { e: FormatError::Truncated }
            },
        }
    }
}

/// Insert an entry into a key-sorted entry sequence; `None` on a repeated key.
pub open spec fn spec_insert(acc: Seq<SpecEntry>, k: Seq<u8>, v: SpecValue) -> Option<
    Seq<SpecEntry>,
>
    decreases acc.len(),
{
    if acc.len() == 0 {
        Option::Some(seq![SpecEntry { key: k, value: v }])
    } else if lex_lt(k, acc[0].key) {
        Option::Some(seq![SpecEntry { key: k, value: v }] + acc)
    } else if k == acc[0].key {
        Option::None
    } else {
        match spec_insert(acc.subrange(1, acc.len() as int), k, v) {
            Option::None => Option::None,
            Option::Some(t) => Option::Some(seq![acc[0]] + t),
        }
    }
}

pub proof fn lemma_num_digits_props(s: Seq<u8>)
    ensures
        num_digits(s) <= s.len(),
        forall|i: int| 0 <= i < num_digits(s) ==> is_digit(#[trigger] s[i]),
        num_digits(s) == s.len() || !is_digit(s[num_digits(s) as int]),
    decreases s.len(),
{
    if s.len() > 0 && is_digit(s[0]) {
        let t = s.subrange(1, s.len() as int);
        lemma_num_digits_props(t);
        assert forall|i: int| 0 <= i < num_digits(s) implies is_digit(#[trigger] s[i]) by {
            if i > 0 {
                assert(s[i] == t[i - 1]);
            }
        }
    }
}

pub proof fn lemma_digits_val_agree(s1: Seq<u8>, s2: Seq<u8>, n: int)
    requires
        forall|j: int| 0 <= j < n ==> s1[j] == s2[j],
    ensures
        digits_val(s1, n) == digits_val(s2, n),
    decreases n,
{
    if n > 0 {
        lemma_digits_val_agree(s1, s2, n - 1);
    }
}

pub proof fn lemma_digits_val_bounds(s: Seq<u8>, n: int)
    requires
        forall|j: int| 0 <= j < n ==> is_digit(#[trigger] s[j]),
    ensures
        digits_val(s, n) >= 0,
        forall|k: int| 0 <= k <= n ==> digits_val(s, k) <= digits_val(s, n),
    decreases n,
{
    if n > 0 {
        lemma_digits_val_bounds(s, n - 1);
    }
}

pub proof fn lemma_dec_digits(n: int)
    requires
        n >= 0,
    ensures
        dec_digits(n).len() >= 1,
        forall|i: int| 0 <= i < dec_digits(n).len() ==> is_digit(#[trigger] dec_digits(n)[i]),
        dec_digits(n)[0] == 48 ==> n == 0,
        digits_val(dec_digits(n), dec_digits(n).len() as int) == n,
    decreases n,
{
    if n < 10 {
        assert(digits_val(dec_digits(n), 0) == 0);
        assert(digits_val(dec_digits(n), 1) == dec_digits(n)[0] - 48);
    } else {
        lemma_dec_digits(n / 10);
        let p = dec_digits(n / 10);
        let w = dec_digits(n);
        let lw = w.len() as int;
        assert(w == p.push((48 + n % 10) as u8));
        assert(forall|j: int| 0 <= j < lw - 1 ==> w[j] == p[j]);
        lemma_digits_val_agree(w, p, lw - 1);
        assert(digits_val(w, lw) == digits_val(w, lw - 1) * 10 + (w[lw - 1] - 48));
        assert(digits_val(w, lw - 1) == n / 10);
        assert(w[lw - 1] == (48 + n % 10) as u8);
    }
}

pub proof fn lemma_num_digits_concat(a: Seq<u8>, tail: Seq<u8>)
    requires
        forall|i: int| 0 <= i < a.len() ==> is_digit(#[trigger] a[i]),
        tail.len() == 0 || !is_digit(tail[0]),
    ensures
        num_digits(a + tail) == a.len(),
    decreases a.len(),
{
    let s = a + tail;
    if a.len() == 0 {
        assert(s =~= tail);
    } else {
        assert(s.len() > 0 && is_digit(s[0]));
        assert(s.subrange(1, s.len() as int) =~= a.subrange(1, a.len() as int) + tail);
        lemma_num_digits_concat(a.subrange(1, a.len() as int), tail);
    }
}

/// Append the decimal digits of `n` to `out`.
pub fn push_dec_digits(out: &mut Vec<u8>, n: u64)
    ensures
        final(out)@ == old(out)@ + dec_digits(n as int),
    decreases n,
{
    if n < 10 {
        out.push((48 + n) as u8);
        assert(out@ =~= old(out)@ + dec_digits(n as int));
    } else {
        push_dec_digits(out, n / 10);
        out.push((48 + (n % 10)) as u8);
        assert(out@ =~= old(out)@ + dec_digits(n as int));
    }
}

pub proof fn lemma_lex_irrefl(a: Seq<u8>)
    ensures
        !lex_lt(a, a),
    decreases a.len(),
{
    if a.len() > 0 {
        lemma_lex_irrefl(a.subrange(1, a.len() as int));
    }
}

pub proof fn lemma_lex_asym(a: Seq<u8>, b: Seq<u8>)
    ensures
        !(lex_lt(a, b) && lex_lt(b, a)),
    decreases a.len(),
{
    if a.len() > 0 && b.len() > 0 && a[0] == b[0] {
        lemma_lex_asym(a.subrange(1, a.len() as int), b.subrange(1, b.len() as int));
    }
}

pub proof fn lemma_lex_trans(a: Seq<u8>, b: Seq<u8>, c: Seq<u8>)
    requires
        lex_lt(a, b),
        lex_lt(b, c),
    ensures
        lex_lt(a, c),
    decreases a.len(),
{
    if a.len() > 0 && b.len() > 0 && c.len() > 0 && a[0] == b[0] && b[0] == c[0] {
        lemma_lex_trans(
            a.subrange(1, a.len() as int),
            b.subrange(1, b.len() as int),
            c.subrange(1, c.len() as int),
        );
    }
}

pub proof fn lemma_lex_from_diff(a: Seq<u8>, b: Seq<u8>, i: int)
    requires
        0 <= i < a.len(),
        i < b.len(),
        forall|j: int| 0 <= j < i ==> a[j] == b[j],
        a[i] < b[i],
    ensures
        lex_lt(a, b),
    decreases i,
{
    if i > 0 {
        let at = a.subrange(1, a.len() as int);
        let bt = b.subrange(1, b.len() as int);
        assert(forall|j: int| 0 <= j < i - 1 ==> at[j] == bt[j]);
        lemma_lex_from_diff(at, bt, i - 1);
    }
}

pub proof fn lemma_lex_from_prefix(a: Seq<u8>, b: Seq<u8>)
    requires
        a.len() < b.len(),
        forall|j: int| 0 <= j < a.len() ==> a[j] == b[j],
    ensures
        lex_lt(a, b),
    decreases a.len(),
{
    if a.len() > 0 {
        let at = a.subrange(1, a.len() as int);
        let bt = b.subrange(1, b.len() as int);
        assert(forall|j: int| 0 <= j < at.len() ==> at[j] == bt[j]);
        lemma_lex_from_prefix(at, bt);
    }
}

/// Outcome of comparing two raw byte strings in lexicographic order.
#[derive(Debug, Clone, Copy, PartialEq, Eq, Structural)]
pub enum KeyCmp {
    Below,
    Equal,
    Above,
}

/// Compare two byte strings in the strict lexicographic order of `lex_lt`.
pub fn lex_cmp(a: &Vec<u8>, b: &Vec<u8>) -> (r: KeyCmp)
    ensures
        (r == KeyCmp::Below) == lex_lt(a@, b@),
        (r == KeyCmp::Equal) == (a@ == b@),
        (r == KeyCmp::Above) == lex_lt(b@, a@),
{
    let mut i: usize = 0;
    loop
        invariant
            i <= a.len(),
            i <= b.len(),
            forall|j: int| 0 <= j < i ==> a@[j] == b@[j],
        decreases a@.len() - i,
    {
        if i < a.len() && i < b.len() {
            let x = a[i];
            let y = b[i];
            if x < y {
                proof {
                    lemma_lex_from_diff(a@, b@, i as int);
                    lemma_lex_irrefl(a@);
                    lemma_lex_asym(a@, b@);
                }
                return KeyCmp::Below;
            } else if x > y {
                proof {
                    lemma_lex_from_diff(b@, a@, i as int);
                    lemma_lex_irrefl(a@);
                    lemma_lex_asym(a@, b@);
                }
                return KeyCmp::Above;
            }
            i = i + 1;
        } else {
            if a.len() == b.len() {
                proof {
                    assert(a@ =~= b@);
                    lemma_lex_irrefl(a@);
                }
                return KeyCmp::Equal;
            } else if i == a.len() {
                proof {
                    lemma_lex_from_prefix(a@, b@);
                    lemma_lex_irrefl(a@);
                    lemma_lex_asym(a@, b@);
                }
                return KeyCmp::Below;
            } else {
                proof {
                    lemma_lex_from_prefix(b@, a@);
                    lemma_lex_irrefl(a@);
                    lemma_lex_asym(a@, b@);
                }
                return KeyCmp::Above;
            }
        }
    }
}

pub proof fn lemma_spec_insert_at(d: Seq<SpecEntry>, k: Seq<u8>, v: SpecValue, idx: int)
    requires
        0 <= idx <= d.len(),
        forall|j: int| 0 <= j < idx ==> lex_lt((#[trigger] d[j]).key, k),
        idx == d.len() || lex_lt(k, d[idx].key),
    ensures
        spec_insert(d, k, v) == Option::Some(d.insert(idx, SpecEntry { key: k, value: v })),
    decreases idx,
{
    let e = SpecEntry { key: k, value: v };
    if idx == 0 {
        if d.len() == 0 {
            assert(seq![e] =~= d.insert(0, e));
        } else {
            assert(seq![e] + d =~= d.insert(0, e));
        }
    } else {
        lemma_lex_asym(d[0].key, k);
        lemma_lex_irrefl(k);
        assert(k != d[0].key);
        let dt = d.subrange(1, d.len() as int);
        assert(forall|j: int| 0 <= j < idx - 1 ==> lex_lt((#[trigger] dt[j]).key, k));
        lemma_spec_insert_at(dt, k, v, idx - 1);
        assert(seq![d[0]] + dt.insert(idx - 1, e) =~= d.insert(idx, e));
    }
}

pub proof fn lemma_spec_insert_dup(d: Seq<SpecEntry>, k: Seq<u8>, v: SpecValue, idx: int)
    requires
        0 <= idx < d.len(),
        forall|j: int| 0 <= j < idx ==> lex_lt((#[trigger] d[j]).key, k),
        d[idx].key == k,
    ensures
        spec_insert(d, k, v) == Option::None::<Seq<SpecEntry>>,
    decreases idx,
{
    if idx == 0 {
        lemma_lex_irrefl(k);
    } else {
        lemma_lex_asym(d[0].key, k);
        lemma_lex_irrefl(k);
        let dt = d.subrange(1, d.len() as int);
        assert(forall|j: int| 0 <= j < idx - 1 ==> lex_lt((#[trigger] dt[j]).key, k));
        lemma_spec_insert_dup(dt, k, v, idx - 1);
    }
}

/// Insert an entry into a key-sorted entry vector at its place; a repeated key
/// is rejected and leaves the vector unchanged.
pub fn insert_entry(entries: &mut Vec<DictEntry>, key: Vec<u8>, value: Value) -> (r: Result<
    (),
    FormatError,
>)
    ensures
        match r {
            Ok(_) => spec_insert(rep_dict(old(entries)@), key@, rep(value)) == Option::Some(
                rep_dict(final(entries)@),
            ),
            Err(e) => {
                &&& e == FormatError::DuplicateKey
                &&& spec_insert(rep_dict(old(entries)@), key@, rep(value)) == Option::None::<
                    Seq<SpecEntry>,
                >
                &&& final(entries)@ == old(entries)@
            },
        },
{
    proof {
        lemma_rep_dict_index(entries@);
    }
    let ghost d = rep_dict(entries@);
    let mut idx: usize = 0;
    loop
        invariant
            idx <= entries.len(),
            entries@ == old(entries)@,
            d == rep_dict(entries@),
            d.len() == entries@.len(),
            forall|j: int| 0 <= j < entries@.len() ==> rep_dict(entries@)[j]
                == (SpecEntry { key: entries@[j].key@, value: rep(entries@[j].value) }),
            forall|j: int| 0 <= j < idx ==> lex_lt((#[trigger] d[j]).key, key@),
        ensures
            idx <= entries.len(),
            entries@ == old(entries)@,
            forall|j: int| 0 <= j < idx ==> lex_lt((#[trigger] d[j]).key, key@),
            idx == entries@.len() || lex_lt(key@, d[idx as int].key),
        decreases entries@.len() - idx,
    {
        if idx >= entries.len() {
            break;
        }
        let c = lex_cmp(&entries[idx].key, &key);
        if c == KeyCmp::Below {
            idx = idx + 1;
        } else if c == KeyCmp::Equal {
            proof {
                lemma_spec_insert_dup(d, key@, rep(value), idx as int);
            }
            return Err(FormatError::DuplicateKey);
        } else {
            break;
        }
    }
    proof {
        lemma_spec_insert_at(d, key@, rep(value), idx as int);
    }
    let ghost ks = key@;
    let ghost vs = rep(value);
    entries.insert(idx, DictEntry { key, value });
    proof {
        lemma_rep_dict_index(entries@);
        assert(rep_dict(entries@) =~= d.insert(idx as int, SpecEntry { key: ks, value: vs }));
    }
    Ok(())
}

/// A decoder positioned inside a borrowed byte slice.
pub struct Bencode<'a> {
    pub bytes: &'a [u8],
    pub position: usize,
}

impl<'a> Bencode<'a> {
    /// The position never runs past the end of the input.
    pub open spec fn wf(&self) -> bool {
        self.position <= self.bytes@.len()
    }

    /// The bytes not yet consumed.
    pub open spec fn remaining(&self) -> Seq<u8> {
        self.bytes@.skip(self.position as int)
    }

    pub fn new(bytes: &'a [u8]) -> (r: Self)
        ensures
            r.bytes@ == bytes@,
            r.position == 0,
            r.wf(),
            r.remaining() == bytes@,
    {
        let r = Bencode { bytes, position: 0 };
        proof {
            assert(r.remaining() =~= bytes@);
        }
        r
    }

    /// Step over one byte that is known to be there.
    fn advance(&mut self)
        requires
            old(self).wf(),
            old(self).remaining().len() > 0,
        ensures
            final(self).bytes == old(self).bytes,
            final(self).position == old(self).position + 1,
            final(self).wf(),
    {
        let n = self.bytes.len();
        proof {
            assert(self.position < n);
        }
        self.position = self.position + 1;
    }

    fn peek(&self) -> (r: Option<u8>)
        requires
            self.wf(),
        ensures
            r == (if self.remaining().len() > 0 {
                Some(self.remaining()[0])
            } else {
                None::<u8>
            }),
    {
        if self.position < self.bytes.len() {
            Some(self.bytes[self.position])
        } else {
            None
        }
    }

    /// Consume one expected byte; anything else is `Unexpected`, an exhausted
    /// input is `Truncated`.
    fn consume(&mut self, expected: u8) -> (r: Result<(), FormatError>)
        requires
            old(self).wf(),
        ensures
            final(self).bytes == old(self).bytes,
            final(self).wf(),
            match r {
                Ok(_) => {
                    &&& old(self).remaining().len() > 0
                    &&& old(self).remaining()[0] == expected
                    &&& final(self).position == old(self).position + 1
                },
                Err(e) => {
                    &&& *final(self) == *old(self)
                    &&& (e == FormatError::Truncated || e == FormatError::Unexpected)
                    &&& (e == FormatError::Truncated <==> old(self).remaining().len() == 0)
                    &&& (e == FormatError::Unexpected <==> (old(self).remaining().len() > 0
                        && old(self).remaining()[0] != expected))
                },
            },
    {
        if self.position < self.bytes.len() {
            let b = self.bytes[self.position];
            if b == expected {
                self.position = self.position + 1;
                Ok(())
            } else {
                Err(FormatError::Unexpected)
            }
        } else {
            Err(FormatError::Truncated)
        }
    }

    /// Consume the run of leading decimal digits and return its value, as long
    /// as it does not exceed `cap`.
    fn decode_digits(&mut self, cap: u64) -> (r: Result<u64, FormatError>)
        requires
            old(self).wf(),
        ensures
            final(self).bytes == old(self).bytes,
            final(self).wf(),
            ({
                let s = old(self).remaining();
                let nd = num_digits(s) as int;
                match r {
                    Ok(m) => {
                        &&& nd >= 1
                        &&& m == digits_val(s, nd)
                        &&& m <= cap
                        &&& final(self).position == old(self).position + nd
                    },
                    Err(e) => match e {
                        FormatError::Overflow => digits_val(s, nd) > cap,
                        FormatError::Truncated => nd == 0 && s.len() == 0,
                        FormatError::Unexpected => nd == 0 && s.len() > 0,
                        _ => false,
                    },
                }
            }),
    {
        let ghost s = self.remaining();
        let ghost nd = num_digits(s) as int;
        proof {
            lemma_num_digits_props(s);
            lemma_digits_val_bounds(s, nd);
        }
        match self.peek() {
            None => {
                return Err(FormatError::Truncated);
            },
            Some(b) => {
                if !(48 <= b && b <= 57) {
                    return Err(FormatError::Unexpected);
                }
            },
        }
        let ghost pos0 = self.position as int;
        let mut acc: u128 = 0;
        let mut j: usize = 0;
        loop
            invariant
                self.bytes@ == old(self).bytes@,
                self.position == pos0 + j,
                self.wf(),
                s == old(self).remaining(),
                pos0 == old(self).position,
                nd == num_digits(s),
                j <= nd,
                acc == digits_val(s, j as int),
                acc <= cap,
                cap <= u64::MAX,
                num_digits(s) <= s.len(),
                forall|i: int| 0 <= i < nd ==> is_digit(#[trigger] s[i]),
                nd == s.len() || !is_digit(s[nd]),
                forall|k: int| 0 <= k <= nd ==> digits_val(s, k) <= digits_val(s, nd),
            ensures
                j == nd,
                acc == digits_val(s, nd),
                acc <= cap,
                self.position == pos0 + nd,
                self.bytes@ == old(self).bytes@,
            decreases s.len() - j,
        {
            if self.position >= self.bytes.len() {
                proof {
                    assert(j == nd);
                }
                break;
            }
            let b = self.bytes[self.position];
            proof {
                assert(b == s[j as int]);
            }
            if !(48 <= b && b <= 57) {
                proof {
                    assert(j == nd);
                }
                break;
            }
            proof {
                assert(is_digit(s[j as int]));
                assert(j < nd);
                assert(digits_val(s, j + 1) == digits_val(s, j as int) * 10 + (s[j as int] - 48));
            }
            let next = acc * 10 + ((b - 48) as u128);
            if next > (cap as u128) {
                proof {
                    assert(digits_val(s, j + 1) == next);
                    assert(digits_val(s, j + 1) <= digits_val(s, nd));
                }
                return Err(FormatError::Overflow);
            }
            acc = next;
            j = j + 1;
            self.position = self.position + 1;
        }
        Ok(acc as u64)
    }

    /// Decode one byte string, `<decimal length>:<raw bytes>`.
    fn decode_string(&mut self) -> (r: Result<Vec<u8>, FormatError>)
        requires
            old(self).wf(),
            old(self).remaining().len() > 0,
            is_digit(old(self).remaining()[0]),
        ensures
            final(self).bytes == old(self).bytes,
            final(self).wf(),
            match r {
                Ok(w) => {
                    &&& spec_parse_bytes(old(self).remaining()) == (ParsedBytes::Parsed {
                        b: w@,
                        rest: final(self).remaining(),
                    })
                    &&& final(self).position > old(self).position
                },
                Err(e) => spec_parse_bytes(old(self).remaining()) == (ParsedBytes::Fail { e }),
            },
    {
        let ghost s = self.remaining();
        let ghost nd = num_digits(s) as int;
        proof {
            lemma_num_digits_props(s);
        }
        proof {
            assert(nd >= 1);
        }
        let n = match self.decode_digits(usize::MAX as u64) {
            Ok(n) => n,
            Err(e) => {
                return Err(e);
            },
        };
        proof {
            assert(self.remaining() =~= s.subrange(nd, s.len() as int));
            if nd < s.len() {
                assert(s.subrange(nd, s.len() as int)[0] == s[nd]);
            }
        }
        match self.consume(58) {
            Ok(_) => {},
            Err(e) => {
                return Err(e);
            },
        }
        proof {
            assert(self.remaining() =~= s.subrange(nd + 1, s.len() as int));
        }
        let len = n as usize;
        if self.bytes.len() - self.position < len {
            return Err(FormatError::Truncated);
        }
        let ghost p = self.position as int;
        let piece = vstd::slice::slice_subrange(self.bytes, self.position, self.position + len);
        let w = vstd::slice::slice_to_vec(piece);
        self.position = self.position + len;
        proof {
            assert(w@ =~= s.subrange(nd + 1, nd + 1 + n));
            assert(final(self).remaining() =~= s.subrange(nd + 1 + n, s.len() as int));
        }
        Ok(w)
    }

    /// Decode one integer, `i<digits>e`.
    fn decode_integer(&mut self) -> (r: Result<i64, FormatError>)
        requires
            old(self).wf(),
            old(self).remaining().len() > 0,
            old(self).remaining()[0] == 105,
        ensures
            final(self).bytes == old(self).bytes,
            final(self).wf(),
            match r {
                Ok(m) => {
                    &&& spec_parse_int(old(self).remaining()) == (ParsedValue::Parsed {
                        v: SpecValue::Int(m as int),
                        rest: final(self).remaining(),
                    })
                    &&& final(self).position > old(self).position
                },
                Err(e) => spec_parse_int(old(self).remaining()) == (ParsedValue::Fail { e }),
            },
    {
        let ghost s = self.remaining();
        self.advance();
        let ghost t = s.subrange(1, s.len() as int);
        proof {
            assert(t =~= self.remaining());
        }
        let neg = match self.peek() {
            Some(b) => b == 45,
            None => false,
        };
        if neg {
            self.advance();
        }
        let ghost u = if neg {
            t.subrange(1, t.len() as int)
        } else {
            t
        };
        proof {
            assert(u =~= self.remaining());
            lemma_num_digits_props(u);
        }
        let ghost nd = num_digits(u) as int;
        let first_zero = match self.peek() {
            Some(b) => b == 48,
            None => false,
        };
        if first_zero {
            if neg {
                return Err(FormatError::Unexpected);
            }
            self.advance();
            proof {
                assert(digits_val(u, 0) == 0);
                assert(digits_val(u, 1) == u[0] - 48);
                if nd > 1 {
                    assert(is_digit(u[1]));
                }
            }
            match self.peek() {
                Some(b) => {
                    if 48 <= b && b <= 57 {
                        proof {
                            assert(u[1] == b);
                            assert(nd > 1);
                        }
                        return Err(FormatError::Unexpected);
                    }
                    proof {
                        assert(nd == 1);
                    }
                    if b == 101 {
                        self.advance();
                        proof {
                            assert(final(self).remaining() =~= u.subrange(2, u.len() as int));
                        }
                        return Ok(0i64);
                    }
                    return Err(FormatError::Unexpected);
                },
                None => {
                    proof {
                        assert(nd == 1 && nd == u.len());
                    }
                    return Err(FormatError::Truncated);
                },
            }
        }
        let m = match self.decode_digits(9223372036854775808u64) {
            Ok(m) => m,
            Err(e) => {
                proof {
                    lemma_digits_val_bounds(u, nd);
                }
                return Err(e);
            },
        };
        if !neg && m == 9223372036854775808u64 {
            return Err(FormatError::Overflow);
        }
        proof {
            assert(self.remaining() =~= u.subrange(nd, u.len() as int));
            if nd < u.len() {
                assert(u.subrange(nd, u.len() as int)[0] == u[nd]);
            }
        }
        match self.consume(101) {
            Ok(_) => {},
            Err(e) => {
                return Err(e);
            },
        }
        let val: i64 = if neg {
            if m == 9223372036854775808u64 {
                i64::MIN
            } else {
                -(m as i64)
            }
        } else {
            m as i64
        };
        proof {
            assert(final(self).remaining() =~= u.subrange(nd + 1, u.len() as int));
        }
        Ok(val)
    }

    /// Encode a value into its canonical bencoding.
    pub fn encode(value: &Value) -> (r: Vec<u8>)
        ensures
            r@ == spec_encode(rep(*value)),
    {
        let mut out: Vec<u8> = Vec::new();
        encode_into(value, &mut out);
        proof {
            assert(out@ =~= spec_encode(rep(*value)));
        }
        out
    }

    /// Decode one value from the current position. On success the position is
    /// one past the value; the result is exactly what `spec_parse` says of the
    /// unconsumed bytes.
    pub fn decode(&mut self) -> (r: Result<Value, FormatError>)
        requires
            old(self).wf(),
        ensures
            final(self).bytes == old(self).bytes,
            final(self).wf(),
            match r {
                Ok(v) => {
                    &&& spec_parse(old(self).remaining()) == (ParsedValue::Parsed {
                        v: rep(v),
                        rest: final(self).remaining(),
                    })
                    &&& final(self).position > old(self).position
                },
                Err(e) => spec_parse(old(self).remaining()) == (ParsedValue::Fail { e }),
            },
        decreases old(self).remaining().len(), 1int,
    {
        match self.peek() {
            None => Err(FormatError::Truncated),
            Some(b) => {
                if b == 105 {
                    match self.decode_integer() {
                        Ok(m) => Ok(Value::Int(m)),
                        Err(e) => Err(e),
                    }
                } else if b == 108 {
                    self.decode_list()
                } else if b == 100 {
                    self.decode_dictionary()
                } else if 48 <= b && b <= 57 {
                    match self.decode_string() {
                        Ok(w) => Ok(Value::Bytes(w)),
                        Err(e) => Err(e),
                    }
                } else {
                    Err(FormatError::Unexpected)
                }
            },
        }
    }

    /// Decode `l<values>e`.
    fn decode_list(&mut self) -> (r: Result<Value, FormatError>)
        requires
            old(self).wf(),
            old(self).remaining().len() > 0,
            old(self).remaining()[0] == 108,
        ensures
            final(self).bytes == old(self).bytes,
            final(self).wf(),
            match r {
                Ok(v) => {
                    &&& spec_parse(old(self).remaining()) == (ParsedValue::Parsed {
                        v: rep(v),
                        rest: final(self).remaining(),
                    })
                    &&& final(self).position > old(self).position
                },
                Err(e) => spec_parse(old(self).remaining()) == (ParsedValue::Fail { e }),
            },
        decreases old(self).remaining().len(), 0int,
    {
        let ghost s = self.remaining();
        self.advance();
        let ghost s0 = s.subrange(1, s.len() as int);
        proof {
            assert(s0 =~= self.remaining());
        }
        let mut items: Vec<Value> = Vec::new();
        proof {
            assert(rep_list(items@) =~= Seq::<SpecValue>::empty());
        }
        loop
            invariant
                self.wf(),
                self.bytes == old(self).bytes,
                self.position > old(self).position,
                s == old(self).remaining(),
                spec_parse(s) == spec_parse_list_items(s0, Seq::empty()),
                spec_parse_list_items(s0, Seq::empty()) == spec_parse_list_items(
                    self.remaining(),
                    rep_list(items@),
                ),
                self.remaining().len() < s.len(),
            decreases self.remaining().len(),
        {
            let ghost cur = self.remaining();
            let ghost acc = rep_list(items@);
            match self.peek() {
                None => {
                    return Err(FormatError::Truncated);
                },
                Some(b) => {
                    if b == 101 {
                        self.advance();
                        proof {
                            assert(final(self).remaining() =~= cur.subrange(1, cur.len() as int));
                        }
                        return Ok(Value::List(items));
                    }
                    match self.decode() {
                        Err(e) => {
                            return Err(e);
                        },
                        Ok(v) => {
                            let ghost vv = rep(v);
                            let ghost items0 = items@;
                            items.push(v);
                            proof {
                                assert(items@ =~= items0.push(v));
                                lemma_rep_list_push(items0, v);
                            }
                        },
                    }
                },
            }
        }
    }

    /// Decode `d<string value ...>e`, normalizing entries into key order.
    fn decode_dictionary(&mut self) -> (r: Result<Value, FormatError>)
        requires
            old(self).wf(),
            old(self).remaining().len() > 0,
            old(self).remaining()[0] == 100,
        ensures
            final(self).bytes == old(self).bytes,
            final(self).wf(),
            match r {
                Ok(v) => {
                    &&& spec_parse(old(self).remaining()) == (ParsedValue::Parsed {
                        v: rep(v),
                        rest: final(self).remaining(),
                    })
                    &&& final(self).position > old(self).position
                },
                Err(e) => spec_parse(old(self).remaining()) == (ParsedValue::Fail { e }),
            },
        decreases old(self).remaining().len(), 0int,
    {
        let ghost s = self.remaining();
        self.advance();
        let ghost s0 = s.subrange(1, s.len() as int);
        proof {
            assert(s0 =~= self.remaining());
        }
        let mut entries: Vec<DictEntry> = Vec::new();
        proof {
            assert(rep_dict(entries@) =~= Seq::<SpecEntry>::empty());
        }
        loop
            invariant
                self.wf(),
                self.bytes == old(self).bytes,
                self.position > old(self).position,
                s == old(self).remaining(),
                spec_parse(s) == spec_parse_dict_items(s0, Seq::empty()),
                spec_parse_dict_items(s0, Seq::empty()) == spec_parse_dict_items(
                    self.remaining(),
                    rep_dict(entries@),
                ),
                self.remaining().len() < s.len(),
            decreases self.remaining().len(),
        {
            let ghost cur = self.remaining();
            let ghost acc = rep_dict(entries@);
            match self.peek() {
                None => {
                    return Err(FormatError::Truncated);
                },
                Some(b) => {
                    if b == 101 {
                        self.advance();
                        proof {
                            assert(final(self).remaining() =~= cur.subrange(1, cur.len() as int));
                        }
                        return Ok(Value::Dict(entries));
                    }
                    if !(48 <= b && b <= 57) {
                        return Err(FormatError::Unexpected);
                    }
                    let key = match self.decode_string() {
                        Err(e) => {
                            return Err(e);
                        },
                        Ok(k) => k,
                    };
                    let value = match self.decode() {
                        Err(e) => {
                            return Err(e);
                        },
                        Ok(v) => v,
                    };
                    match insert_entry(&mut entries, key, value) {
                        Err(e) => {
                            return Err(e);
                        },
                        Ok(_) => {},
                    }
                },
            }
        }
    }
}

pub proof fn lemma_encode_list_snoc(s: Seq<SpecValue>, v: SpecValue)
    ensures
        spec_encode_list(s.push(v)) == spec_encode_list(s) + spec_encode(v),
    decreases s.len(),
{
    broadcast use vstd::seq_lib::group_seq_properties;

    let w = s.push(v);
    if s.len() == 0 {
        assert(w[0] == v);
        assert(w.subrange(1, w.len() as int) =~= Seq::<SpecValue>::empty());
        assert(spec_encode_list(w) =~= spec_encode_list(s) + spec_encode(v));
    } else {
        let st = s.subrange(1, s.len() as int);
        assert(w[0] == s[0]);
        assert(w.subrange(1, w.len() as int) =~= st.push(v));
        lemma_encode_list_snoc(st, v);
        assert(spec_encode_list(w) == spec_encode(s[0]) + (spec_encode_list(st) + spec_encode(v)));
        assert(spec_encode_list(s) == spec_encode(s[0]) + spec_encode_list(st));
        assert(spec_encode_list(w) =~= spec_encode_list(s) + spec_encode(v));
    }
}

pub proof fn lemma_encode_dict_snoc(s: Seq<SpecEntry>, e: SpecEntry)
    ensures
        spec_encode_dict(s.push(e)) == spec_encode_dict(s) + dec_digits(e.key.len() as int)
            + seq![58u8] + e.key + spec_encode(e.value),
    decreases s.len(),
{
    broadcast use vstd::seq_lib::group_seq_properties;

    let w = s.push(e);
    if s.len() == 0 {
        assert(w[0] == e);
        assert(w.subrange(1, w.len() as int) =~= Seq::<SpecEntry>::empty());
        assert(spec_encode_dict(w) =~= spec_encode_dict(s) + dec_digits(e.key.len() as int)
            + seq![58u8] + e.key + spec_encode(e.value));
    } else {
        let st = s.subrange(1, s.len() as int);
        assert(w[0] == s[0]);
        assert(w.subrange(1, w.len() as int) =~= st.push(e));
        lemma_encode_dict_snoc(st, e);
        let head = dec_digits(s[0].key.len() as int) + seq![58u8] + s[0].key + spec_encode(
            s[0].value,
        );
        assert(spec_encode_dict(w) == head + (spec_encode_dict(st) + dec_digits(e.key.len() as int)
            + seq![58u8] + e.key + spec_encode(e.value)));
        assert(spec_encode_dict(s) == head + spec_encode_dict(st));
        assert(spec_encode_dict(w) =~= spec_encode_dict(s) + dec_digits(e.key.len() as int)
            + seq![58u8] + e.key + spec_encode(e.value));
    }
}

/// Append the canonical bencoding of `value` to `out`.
pub fn encode_into(value: &Value, out: &mut Vec<u8>)
    ensures
        final(out)@ == old(out)@ + spec_encode(rep(*value)),
    decreases *value,
{
    match value {
        Value::Bytes(b) => {
            push_dec_digits(out, b.len() as u64);
            out.push(58);
            out.extend_from_slice(b.as_slice());
            proof {
                assert(out@ =~= old(out)@ + spec_encode(rep(*value)));
            }
        },
        Value::Int(i) => {
            out.push(105);
            let iv = *i;
            if iv < 0 {
                out.push(45);
                let m: u64 = (-(iv as i128)) as u64;
                push_dec_digits(out, m);
            } else {
                push_dec_digits(out, iv as u64);
            }
            out.push(101);
            proof {
                assert(out@ =~= old(out)@ + spec_encode(rep(*value)));
            }
        },
        Value::List(l) => {
            out.push(108);
            let ghost pre = out@;
            let mut k: usize = 0;
            proof {
                assert(l@.subrange(0, 0) =~= Seq::<Value>::empty());
                assert(rep_list(l@.subrange(0, 0)) =~= Seq::<SpecValue>::empty());
                assert(spec_encode_list(Seq::<SpecValue>::empty()) =~= Seq::<u8>::empty());
                assert(out@ =~= pre + spec_encode_list(rep_list(l@.subrange(0, 0))));
            }
            while k < l.len()
                invariant
                    *value == Value::List(*l),
                    k <= l.len(),
                    pre == old(out)@ + seq![108u8],
                    out@ == pre + spec_encode_list(rep_list(l@.subrange(0, k as int))),
                decreases l.len() - k,
            {
                let ghost done = out@;
                let ghost prefix = rep_list(l@.subrange(0, k as int));
                proof {
                    broadcast use vstd::std_specs::vec::group_vec_axioms;
                    broadcast use vstd::seq::group_seq_axioms;

                    assert(*value == Value::List(*l));
                    assert(decreases_to!(*value => (*value)->List_0));
                    assert(decreases_to!(*l => l@));
                    assert(decreases_to!(l@ => l@[k as int]));
                    assert(decreases_to!(*value => l@[k as int]));
                }
                encode_into(&l[k], out);
                proof {
                    lemma_rep_list_index(l@.subrange(0, k as int));
                    lemma_rep_list_index(l@.subrange(0, k + 1));
                    assert(rep_list(l@.subrange(0, k + 1)) =~= prefix.push(rep(l@[k as int])));
                    lemma_encode_list_snoc(prefix, rep(l@[k as int]));
                    assert(out@ =~= pre + spec_encode_list(rep_list(l@.subrange(0, k + 1))));
                }
                k = k + 1;
            }
            out.push(101);
            proof {
                assert(l@.subrange(0, l@.len() as int) =~= l@);
                assert(out@ =~= old(out)@ + spec_encode(rep(*value)));
            }
        },
        Value::Dict(d) => {
            out.push(100);
            let ghost pre = out@;
            let mut k: usize = 0;
            proof {
                assert(d@.subrange(0, 0) =~= Seq::<DictEntry>::empty());
                assert(rep_dict(d@.subrange(0, 0)) =~= Seq::<SpecEntry>::empty());
                assert(spec_encode_dict(Seq::<SpecEntry>::empty()) =~= Seq::<u8>::empty());
                assert(out@ =~= pre + spec_encode_dict(rep_dict(d@.subrange(0, 0))));
            }
            while k < d.len()
                invariant
                    *value == Value::Dict(*d),
                    k <= d.len(),
                    pre == old(out)@ + seq![100u8],
                    out@ == pre + spec_encode_dict(rep_dict(d@.subrange(0, k as int))),
                decreases d.len() - k,
            {
                let ghost prefix = rep_dict(d@.subrange(0, k as int));
                let ghost se = SpecEntry { key: d@[k as int].key@, value: rep(d@[k as int].value) };
                let entry = &d[k];
                push_dec_digits(out, entry.key.len() as u64);
                out.push(58);
                out.extend_from_slice(entry.key.as_slice());
                proof {
                    broadcast use vstd::std_specs::vec::group_vec_axioms;
                    broadcast use vstd::seq::group_seq_axioms;

                    assert(*value == Value::Dict(*d));
                    assert(decreases_to!(*value => (*value)->Dict_0));
                    assert(decreases_to!(*d => d@));
                    assert(decreases_to!(d@ => d@[k as int]));
                    assert(decreases_to!(d@[k as int] => d@[k as int].value));
                    assert(decreases_to!(*value => d@[k as int].value));
                }
                encode_into(&entry.value, out);
                proof {
                    lemma_rep_dict_index(d@.subrange(0, k as int));
                    lemma_rep_dict_index(d@.subrange(0, k + 1));
                    assert(rep_dict(d@.subrange(0, k + 1)) =~= prefix.push(se));
                    lemma_encode_dict_snoc(prefix, se);
                    assert(out@ =~= pre + spec_encode_dict(rep_dict(d@.subrange(0, k + 1))));
                }
                k = k + 1;
            }
            out.push(101);
            proof {
                assert(d@.subrange(0, d@.len() as int) =~= d@);
                assert(out@ =~= old(out)@ + spec_encode(rep(*value)));
            }
        },
    }
}

/// A deep copy of a value, equal to the original in the model.
pub fn clone_value(value: &Value) -> (r: Value)
    ensures
        rep(r) == rep(*value),
    decreases *value,
{
    match value {
        Value::Bytes(b) => Value::Bytes(vstd::slice::slice_to_vec(b.as_slice())),
        Value::Int(i) => Value::Int(*i),
        Value::List(l) => {
            let mut items: Vec<Value> = Vec::new();
            let mut k: usize = 0;
            proof {
                assert(l@.subrange(0, 0) =~= Seq::<Value>::empty());
                assert(rep_list(items@) =~= rep_list(l@.subrange(0, 0)));
            }
            while k < l.len()
                invariant
                    *value == Value::List(*l),
                    k <= l.len(),
                    rep_list(items@) == rep_list(l@.subrange(0, k as int)),
                    items@.len() == k,
                decreases l.len() - k,
            {
                proof {
                    broadcast use vstd::std_specs::vec::group_vec_axioms;
                    broadcast use vstd::seq::group_seq_axioms;

                    assert(decreases_to!(*value => (*value)->List_0));
                    assert(decreases_to!(*l => l@));
                    assert(decreases_to!(l@ => l@[k as int]));
                    assert(decreases_to!(*value => l@[k as int]));
                }
                let c = clone_value(&l[k]);
                let ghost items0 = items@;
                items.push(c);
                proof {
                    assert(items@ =~= items0.push(c));
                    lemma_rep_list_push(items0, c);
                    lemma_rep_list_index(l@.subrange(0, k as int));
                    lemma_rep_list_index(l@.subrange(0, k + 1));
                    assert(rep_list(l@.subrange(0, k + 1)) =~= rep_list(
                        l@.subrange(0, k as int),
                    ).push(rep(l@[k as int])));
                }
                k = k + 1;
            }
            proof {
                assert(l@.subrange(0, l@.len() as int) =~= l@);
            }
            Value::List(items)
        },
        Value::Dict(d) => {
            let mut entries: Vec<DictEntry> = Vec::new();
            let mut k: usize = 0;
            proof {
                assert(d@.subrange(0, 0) =~= Seq::<DictEntry>::empty());
                assert(rep_dict(entries@) =~= rep_dict(d@.subrange(0, 0)));
            }
            while k < d.len()
                invariant
                    *value == Value::Dict(*d),
                    k <= d.len(),
                    rep_dict(entries@) == rep_dict(d@.subrange(0, k as int)),
                    entries@.len() == k,
                decreases d.len() - k,
            {
                proof {
                    broadcast use vstd::std_specs::vec::group_vec_axioms;
                    broadcast use vstd::seq::group_seq_axioms;

                    assert(decreases_to!(*value => (*value)->Dict_0));
                    assert(decreases_to!(*d => d@));
                    assert(decreases_to!(d@ => d@[k as int]));
                    assert(decreases_to!(d@[k as int] => d@[k as int].value));
                    assert(decreases_to!(*value => d@[k as int].value));
                }
                let entry = &d[k];
                let ck = vstd::slice::slice_to_vec(entry.key.as_slice());
                let cv = clone_value(&entry.value);
                let ghost entries0 = entries@;
                let de = DictEntry { key: ck, value: cv };
                let ghost dd = de;
                entries.push(de);
                proof {
                    assert(entries@ =~= entries0.push(dd));
                    lemma_rep_dict_index(entries0.push(dd));
                    lemma_rep_dict_index(entries0);
                    assert(rep_dict(entries0.push(dd)) =~= rep_dict(entries0).push(
                        SpecEntry { key: dd.key@, value: rep(dd.value) },
                    ));
                    lemma_rep_dict_index(d@.subrange(0, k as int));
                    lemma_rep_dict_index(d@.subrange(0, k + 1));
                    assert(rep_dict(d@.subrange(0, k + 1)) =~= rep_dict(
                        d@.subrange(0, k as int),
                    ).push(SpecEntry { key: d@[k as int].key@, value: rep(d@[k as int].value) }));
                }
                k = k + 1;
            }
            proof {
                assert(d@.subrange(0, d@.len() as int) =~= d@);
            }
            Value::Dict(entries)
        },
    }
}

/// Look a key up in a dictionary's entries, first match wins.
pub open spec fn spec_dict_find(d: Seq<SpecEntry>, k: Seq<u8>) -> Option<SpecValue>
    decreases d.len(),
{
    if d.len() == 0 {
        Option::None
    } else if d[0].key == k {
        Option::Some(d[0].value)
    } else {
        spec_dict_find(d.subrange(1, d.len() as int), k)
    }
}

/// Look a key up in a dictionary.
pub fn dict_find<'a>(entries: &'a Vec<DictEntry>, key: &Vec<u8>) -> (r: Option<&'a Value>)
    ensures
        match r {
            Some(v) => spec_dict_find(rep_dict(entries@), key@) == Option::Some(rep(*v)),
            None => spec_dict_find(rep_dict(entries@), key@) == Option::None::<SpecValue>,
        },
{
    proof {
        lemma_rep_dict_index(entries@);
    }
    let ghost d = rep_dict(entries@);
    let mut i: usize = 0;
    proof {
        assert(d.subrange(0, d.len() as int) =~= d);
    }
    loop
        invariant
            i <= entries.len(),
            d == rep_dict(entries@),
            d.len() == entries@.len(),
            forall|j: int| 0 <= j < entries@.len() ==> rep_dict(entries@)[j]
                == (SpecEntry { key: entries@[j].key@, value: rep(entries@[j].value) }),
            forall|j: int| 0 <= j < i ==> (#[trigger] d[j]).key != key@,
            spec_dict_find(d, key@) == spec_dict_find(d.subrange(i as int, d.len() as int), key@),
        decreases entries@.len() - i,
    {
        proof {
            assert(d.subrange(0 as int, d.len() as int) =~= d);
        }
        if i >= entries.len() {
            proof {
                assert(d.subrange(i as int, d.len() as int).len() == 0);
            }
            return None;
        }
        let ghost tail = d.subrange(i as int, d.len() as int);
        proof {
            assert(tail[0] == d[i as int]);
            assert(tail.subrange(1, tail.len() as int) =~= d.subrange(i + 1, d.len() as int));
        }
        let c = lex_cmp(&entries[i].key, key);
        if c == KeyCmp::Equal {
            return Some(&entries[i].value);
        }
        i = i + 1;
    }
}

/// Every encoding is non-empty and starts with a digit or one of `i`, `l`, `d`.
pub proof fn lemma_encode_first(v: SpecValue)
    ensures
        spec_encode(v).len() >= 1,
        is_digit(spec_encode(v)[0]) || spec_encode(v)[0] == 105 || spec_encode(v)[0] == 108
            || spec_encode(v)[0] == 100,
        spec_encode(v)[0] != 101,
{
    match v {
        SpecValue::Bytes(b) => {
            lemma_dec_digits(b.len() as int);
            let a = dec_digits(b.len() as int);
            assert(spec_encode(v)[0] == a[0]);
        },
        SpecValue::Int(i) => {
            assert(spec_encode(v)[0] == 105);
        },
        SpecValue::List(l) => {
            assert(spec_encode(v)[0] == 108);
        },
        SpecValue::Dict(d) => {
            assert(spec_encode(v)[0] == 100);
        },
    }
}

/// Parsing `<len>:<bytes>` at the head of a stream yields those bytes.
pub proof fn lemma_parse_bytes_encode(b: Seq<u8>, tail: Seq<u8>)
    requires
        b.len() <= usize::MAX,
    ensures
        spec_parse_bytes(dec_digits(b.len() as int) + seq![58u8] + b + tail) == (ParsedBytes::Parsed {
            b,
            rest: tail,
        }),
{
    let a = dec_digits(b.len() as int);
    let s = a + seq![58u8] + b + tail;
    lemma_dec_digits(b.len() as int);
    assert(s =~= a + (seq![58u8] + b + tail));
    lemma_num_digits_concat(a, seq![58u8] + b + tail);
    let nd = num_digits(s) as int;
    assert(nd == a.len());
    lemma_digits_val_agree(s, a, nd);
    assert(digits_val(s, nd) == b.len());
    assert(s[nd] == 58);
    assert(s.len() - nd - 1 == b.len() + tail.len());
    assert(s.subrange(nd + 1, nd + 1 + b.len() as int) =~= b);
    assert(s.subrange(nd + 1 + b.len() as int, s.len() as int) =~= tail);
}

/// Parsing `i<digits>e` at the head of a stream yields that integer.
pub proof fn lemma_parse_int_encode(i: int, tail: Seq<u8>)
    requires
        i64::MIN <= i <= i64::MAX,
    ensures
        spec_parse_int(seq![105u8] + int_digits(i) + seq![101u8] + tail) == (ParsedValue::Parsed {
            v: SpecValue::Int(i),
            rest: tail,
        }),
{
    let s = seq![105u8] + int_digits(i) + seq![101u8] + tail;
    let t = s.subrange(1, s.len() as int);
    assert(t =~= int_digits(i) + seq![101u8] + tail);
    if i < 0 {
        let a = dec_digits(-i);
        lemma_dec_digits(-i);
        assert(int_digits(i) == seq![45u8] + a);
        assert(t[0] == 45);
        let u = t.subrange(1, t.len() as int);
        assert(u =~= a + (seq![101u8] + tail));
        lemma_num_digits_concat(a, seq![101u8] + tail);
        let nd = num_digits(u) as int;
        assert(nd == a.len());
        lemma_digits_val_agree(u, a, nd);
        assert(digits_val(u, nd) == -i);
        assert(u[0] == a[0]);
        assert(u[0] != 48);
        assert(u[nd] == 101);
        assert(u.subrange(nd + 1, u.len() as int) =~= tail);
    } else {
        let a = dec_digits(i);
        lemma_dec_digits(i);
        assert(int_digits(i) == a);
        assert(t[0] == a[0]);
        assert(is_digit(t[0]));
        assert(t[0] != 45);
        let u = t;
        assert(u =~= a + (seq![101u8] + tail));
        lemma_num_digits_concat(a, seq![101u8] + tail);
        let nd = num_digits(u) as int;
        assert(nd == a.len());
        lemma_digits_val_agree(u, a, nd);
        assert(digits_val(u, nd) == i);
        if u[0] == 48 && nd > 1 {
            assert(a[0] == 48);
            assert(i == 0);
            assert(dec_digits(0).len() == 1);
            assert(false);
        }
        assert(u[nd] == 101);
        assert(u.subrange(nd + 1, u.len() as int) =~= tail);
    }
}

/// In a dictionary with strictly ascending adjacent keys, every earlier key is
/// below every later one.
pub proof fn lemma_sorted_chain(d: Seq<SpecEntry>, i: int, j: int)
    requires
        forall|k: int| 0 <= k < d.len() - 1 ==> lex_lt((#[trigger] d[k]).key, d[k + 1].key),
        0 <= i < j < d.len(),
    ensures
        lex_lt(d[i].key, d[j].key),
    decreases j - i,
{
    if j == i + 1 {
    } else {
        lemma_sorted_chain(d, i, j - 1);
        lemma_lex_trans(d[i].key, d[j - 1].key, d[j].key);
    }
}

/// Parsing the encoding of a canonical value, followed by anything, gives the
/// value back and leaves exactly that trailing input.
pub proof fn lemma_parse_encode(v: SpecValue, tail: Seq<u8>)
    requires
        canonical(v),
    ensures
        spec_parse(spec_encode(v) + tail) == (ParsedValue::Parsed { v, rest: tail }),
    decreases v, 0int,
{
    let s = spec_encode(v) + tail;
    lemma_encode_first(v);
    assert(s[0] == spec_encode(v)[0]);
    match v {
        SpecValue::Bytes(b) => {
            assert(s =~= dec_digits(b.len() as int) + seq![58u8] + b + tail);
            lemma_parse_bytes_encode(b, tail);
            lemma_dec_digits(b.len() as int);
            assert(is_digit(s[0]));
        },
        SpecValue::Int(i) => {
            assert(s =~= seq![105u8] + int_digits(i) + seq![101u8] + tail);
            lemma_parse_int_encode(i, tail);
        },
        SpecValue::List(l) => {
            assert(s[0] == 108);
            assert(s.subrange(1, s.len() as int) =~= spec_encode_list(l) + seq![101u8] + tail);
            lemma_parse_list_encode(l, tail, Seq::empty());
            assert(Seq::empty() + l =~= l);
        },
        SpecValue::Dict(d) => {
            assert(s[0] == 100);
            assert(s.subrange(1, s.len() as int) =~= spec_encode_dict(d) + seq![101u8] + tail);
            lemma_parse_dict_encode(d, tail, Seq::empty());
            assert(Seq::empty() + d =~= d);
        },
    }
}

pub proof fn lemma_parse_list_encode(l: Seq<SpecValue>, tail: Seq<u8>, acc: Seq<SpecValue>)
    requires
        forall|i: int| 0 <= i < l.len() ==> canonical(#[trigger] l[i]),
    ensures
        spec_parse_list_items(spec_encode_list(l) + seq![101u8] + tail, acc) == (ParsedValue::Parsed {
            v: SpecValue::List(acc + l),
            rest: tail,
        }),
    decreases l, 1int,
{
    let s = spec_encode_list(l) + seq![101u8] + tail;
    if l.len() == 0 {
        assert(s =~= seq![101u8] + tail);
        assert(s[0] == 101);
        assert(s.subrange(1, s.len() as int) =~= tail);
        assert(acc + l =~= acc);
    } else {
        let v0 = l[0];
        let lt = l.subrange(1, l.len() as int);
        let tail2 = spec_encode_list(lt) + seq![101u8] + tail;
        assert(s =~= spec_encode(v0) + tail2);
        lemma_encode_first(v0);
        assert(s[0] == spec_encode(v0)[0]);
        assert(s[0] != 101);
        lemma_parse_encode(v0, tail2);
        assert(spec_parse(s) == (ParsedValue::Parsed { v: v0, rest: tail2 }));
        assert(tail2.len() < s.len());
        lemma_parse_list_encode(lt, tail, acc.push(v0));
        assert(acc.push(v0) + lt =~= acc + l);
    }
}

#[verifier::rlimit(50)]
pub proof fn lemma_parse_dict_encode(d: Seq<SpecEntry>, tail: Seq<u8>, acc: Seq<SpecEntry>)
    requires
        forall|i: int| 0 <= i < d.len() ==> canonical((#[trigger] d[i]).value),
        forall|i: int| 0 <= i < d.len() ==> (#[trigger] d[i]).key.len() <= usize::MAX,
        forall|i: int| 0 <= i < d.len() - 1 ==> lex_lt((#[trigger] d[i]).key, d[i + 1].key),
        forall|i: int, j: int|
            0 <= i < acc.len() && 0 <= j < d.len() ==> lex_lt(
                (#[trigger] acc[i]).key,
                (#[trigger] d[j]).key,
            ),
    ensures
        spec_parse_dict_items(spec_encode_dict(d) + seq![101u8] + tail, acc) == (ParsedValue::Parsed {
            v: SpecValue::Dict(acc + d),
            rest: tail,
        }),
    decreases d, 1int,
{
    let s = spec_encode_dict(d) + seq![101u8] + tail;
    if d.len() == 0 {
        assert(s =~= seq![101u8] + tail);
        assert(s[0] == 101);
        assert(s.subrange(1, s.len() as int) =~= tail);
        assert(acc + d =~= acc);
    } else {
        let e0 = d[0];
        let dt = d.subrange(1, d.len() as int);
        let after_val = spec_encode_dict(dt) + seq![101u8] + tail;
        let after_key = spec_encode(e0.value) + after_val;
        assert(s =~= dec_digits(e0.key.len() as int) + seq![58u8] + e0.key + after_key);
        lemma_dec_digits(e0.key.len() as int);
        assert(s[0] == dec_digits(e0.key.len() as int)[0]);
        assert(is_digit(s[0]));
        assert(s[0] != 101);
        lemma_parse_bytes_encode(e0.key, after_key);
        assert(spec_parse_bytes(s) == (ParsedBytes::Parsed { b: e0.key, rest: after_key }));
        assert(after_key.len() < s.len());
        lemma_parse_encode(e0.value, after_val);
        assert(spec_parse(after_key) == (ParsedValue::Parsed { v: e0.value, rest: after_val }));
        lemma_encode_first(e0.value);
        assert(after_val.len() < s.len());
        assert forall|i: int| 0 <= i < acc.len() implies lex_lt(
            (#[trigger] acc[i]).key,
            e0.key,
        ) by {
            assert(lex_lt(acc[i].key, d[0].key));
        }
        lemma_spec_insert_at(acc, e0.key, e0.value, acc.len() as int);
        assert(acc.insert(acc.len() as int, SpecEntry { key: e0.key, value: e0.value }) =~= acc.push(
            e0,
        ));
        let acc2 = acc.push(e0);
        assert forall|i: int, j: int|
            0 <= i < acc2.len() && 0 <= j < dt.len() implies lex_lt(
            (#[trigger] acc2[i]).key,
            (#[trigger] dt[j]).key,
        ) by {
            assert(dt[j] == d[j + 1]);
            if i < acc.len() {
                assert(lex_lt(acc[i].key, d[j + 1].key));
            } else {
                lemma_sorted_chain(d, 0, j + 1);
            }
        }
        lemma_parse_dict_encode(dt, tail, acc2);
        assert(acc2 + dt =~= acc + d);
    }
}

/// The bencode round trip. Parsing the canonical encoding of a canonical value
/// yields exactly that value with no input left over; hence re-encoding what
/// was parsed reproduces the original bytes: for canonical bytes
/// `b == spec_encode(v)`, `spec_parse(b)` is `v` and `spec_encode` of the
/// parsed value is `b` again.
pub proof fn lemma_round_trip(v: SpecValue)
    requires
        canonical(v),
    ensures
        spec_parse(spec_encode(v)) == (ParsedValue::Parsed { v, rest: Seq::empty() }),
{
    lemma_parse_encode(v, Seq::empty());
    assert(spec_encode(v) + Seq::<u8>::empty() =~= spec_encode(v));
}

/// Appending one item to a sequence appends its model to the model.
pub proof fn lemma_rep_list_push(s: Seq<Value>, v: Value)
    ensures
        rep_list(s.push(v)) == rep_list(s).push(rep(v)),
{
    lemma_rep_list_index(s.push(v));
    lemma_rep_list_index(s);
    assert(rep_list(s.push(v)) =~= rep_list(s).push(rep(v)));
}

} // verus!
