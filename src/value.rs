//! The bencode codec. `Term` is the mathematical model of a bencoded value;
//! `Value` is its executable form. The encoder writes `encode_term` exactly,
//! and the decoder accepts exactly the encodings of well-formed terms.
use vstd::prelude::*;

use crate::decimal::{
    decimal, decimal_at, is_digit, lemma_canonical_is_decimal, lemma_decimal, push_decimal,
    scan_decimal,
};

verus! {

/// A bencoded value as a mathematical object.
pub enum Term {
    Str(Seq<u8>),
    Int(int),
    List(Seq<Term>),
    Dict(Seq<(Seq<u8>, Term)>),
}

/// Lexicographic order on raw bytes.
pub open spec fn bytes_lt(a: Seq<u8>, b: Seq<u8>) -> bool
    decreases a.len(),
{
    if a.len() == 0 {
        b.len() > 0
    } else if b.len() == 0 {
        false
    } else if a[0] != b[0] {
        a[0] < b[0]
    } else {
        bytes_lt(a.drop_first(), b.drop_first())
    }
}

/// Dictionary keys in strictly ascending byte order (hence also distinct).
pub open spec fn keys_ascending(es: Seq<(Seq<u8>, Term)>) -> bool {
    forall|i: int| 0 <= i < es.len() - 1 ==> bytes_lt(#[trigger] es[i].0, es[i + 1].0)
}

impl Term {
    /// Integers fit in 64 bits and every dictionary has ascending keys.
    pub open spec fn wf(self) -> bool
        decreases self,
    {
        match self {
            Term::Str(_) => true,
            Term::Int(i) => i64::MIN <= i <= i64::MAX,
            Term::List(ts) => forall|i: int| 0 <= i < ts.len() ==> (#[trigger] ts[i]).wf(),
            Term::Dict(es) => keys_ascending(es) && forall|i: int|
                0 <= i < es.len() ==> (#[trigger] es[i]).1.wf(),
        }
    }
}

pub open spec fn encode_str(s: Seq<u8>) -> Seq<u8> {
    decimal(s.len()) + seq![58u8] + s
}

pub open spec fn int_text(i: int) -> Seq<u8> {
    if i < 0 {
        seq![45u8] + decimal((-i) as nat)
    } else {
        decimal(i as nat)
    }
}

/// The canonical bencoding of a term.
pub open spec fn encode_term(t: Term) -> Seq<u8>
    decreases t,
{
    match t {
        Term::Str(s) => encode_str(s),
        Term::Int(i) => seq![105u8] + int_text(i) + seq![101u8],
        Term::List(ts) => seq![108u8] + encode_terms(ts) + seq![101u8],
        Term::Dict(es) => seq![100u8] + encode_entries(es) + seq![101u8],
    }
}

/// The encodings of `ts`, one after another.
pub open spec fn encode_terms(ts: Seq<Term>) -> Seq<u8>
    decreases ts,
{
    if ts.len() == 0 {
        Seq::empty()
    } else {
        encode_terms(ts.subrange(0, ts.len() - 1)) + encode_term(ts[ts.len() - 1])
    }
}

/// Each key's string encoding followed by its value's encoding, in order.
pub open spec fn encode_entries(es: Seq<(Seq<u8>, Term)>) -> Seq<u8>
    decreases es,
{
    if es.len() == 0 {
        Seq::empty()
    } else {
        let e = es[es.len() - 1];
        encode_entries(es.subrange(0, es.len() - 1)) + encode_str(e.0) + encode_term(e.1)
    }
}

/// A bencoded value.
#[derive(Debug, PartialEq, Eq)]
pub enum Value {
    String(Vec<u8>),
    Integer(i64),
    Array(Vec<Value>),
    /// Entries in ascending key order (see `Term::wf`).
    Dict(Vec<(Vec<u8>, Value)>),
}

pub open spec fn value_model(v: Value) -> Term
    decreases v,
{
    match v {
        Value::String(s) => Term::Str(s@),
        Value::Integer(i) => Term::Int(i as int),
        Value::Array(a) => Term::List(values_model(a@)),
        Value::Dict(d) => Term::Dict(entries_model(d@)),
    }
}

pub open spec fn values_model(vs: Seq<Value>) -> Seq<Term>
    decreases vs,
{
    if vs.len() == 0 {
        Seq::empty()
    } else {
        values_model(vs.subrange(0, vs.len() - 1)).push(value_model(vs[vs.len() - 1]))
    }
}

pub open spec fn entries_model(es: Seq<(Vec<u8>, Value)>) -> Seq<(Seq<u8>, Term)>
    decreases es,
{
    if es.len() == 0 {
        Seq::empty()
    } else {
        let e = es[es.len() - 1];
        entries_model(es.subrange(0, es.len() - 1)).push((e.0@, value_model(e.1)))
    }
}

impl View for Value {
    type V = Term;

    open spec fn view(&self) -> Term {
        value_model(*self)
    }
}

pub proof fn lemma_values_model(vs: Seq<Value>)
    ensures
        values_model(vs).len() == vs.len(),
        forall|i: int| 0 <= i < vs.len() ==> #[trigger] values_model(vs)[i] == value_model(vs[i]),
    decreases vs.len(),
{
    if vs.len() > 0 {
        lemma_values_model(vs.subrange(0, vs.len() - 1));
    }
}

pub proof fn lemma_entries_model(es: Seq<(Vec<u8>, Value)>)
    ensures
        entries_model(es).len() == es.len(),
        forall|i: int|
            0 <= i < es.len() ==> #[trigger] entries_model(es)[i] == (es[i].0@, value_model(es[i].1)),
    decreases es.len(),
{
    if es.len() > 0 {
        lemma_entries_model(es.subrange(0, es.len() - 1));
    }
}

pub proof fn lemma_encode_terms_push(ts: Seq<Term>, t: Term)
    ensures
        encode_terms(ts.push(t)) == encode_terms(ts) + encode_term(t),
{
    assert(ts.push(t).subrange(0, ts.len() as int) =~= ts);
}

pub proof fn lemma_encode_entries_push(es: Seq<(Seq<u8>, Term)>, k: Seq<u8>, t: Term)
    ensures
        encode_entries(es.push((k, t))) == encode_entries(es) + encode_str(k) + encode_term(t),
{
    assert(es.push((k, t)).subrange(0, es.len() as int) =~= es);
}

/// Appends the string encoding `<length>:<bytes>` of `s`.
fn push_str_encoding(out: &mut Vec<u8>, s: &[u8])
    ensures
        final(out)@ == old(out)@ + encode_str(s@),
{
    let ghost start = out@;
    push_decimal(out, s.len() as u64);
    out.push(58);
    let mut k: usize = 0;
    while k < s.len()
        invariant
            k <= s@.len(),
            out@ == start + decimal(s@.len()) + seq![58u8] + s@.subrange(0, k as int),
        decreases s@.len() - k,
    {
        out.push(s[k]);
        k = k + 1;
        assert(out@ =~= start + decimal(s@.len()) + seq![58u8] + s@.subrange(0, k as int));
    }
    assert(s@.subrange(0, k as int) =~= s@);
    assert(out@ =~= start + encode_str(s@));
}

impl Value {
    /// The canonical bencoding of this value.
    pub fn encode(&self) -> (r: Vec<u8>)
        ensures
            r@ == encode_term(self@),
    {
        let mut out: Vec<u8> = Vec::new();
        self.encode_into(&mut out);
        assert(out@ =~= encode_term(self@));
        out
    }

    fn encode_into(&self, out: &mut Vec<u8>)
        ensures
            final(out)@ == old(out)@ + encode_term(self@),
        decreases self,
    {
        let ghost start = out@;
        match self {
            Value::String(s) => {
                push_str_encoding(out, s.as_slice());
            },
            Value::Integer(i) => {
                out.push(105);
                if *i < 0 {
                    out.push(45);
                    let m: u64 = if *i == i64::MIN {
                        9223372036854775808u64
                    } else {
                        (-*i) as u64
                    };
                    push_decimal(out, m);
                } else {
                    push_decimal(out, *i as u64);
                }
                out.push(101);
                assert(out@ =~= start + encode_term(self@));
            },
            Value::Array(items) => {
                out.push(108);
                let mut k: usize = 0;
                while k < items.len()
                    invariant
                        k <= items@.len(),
                        *self == Value::Array(*items),
                        out@ == start + seq![108u8] + encode_terms(
                            values_model(items@.subrange(0, k as int)),
                        ),
                    decreases items@.len() - k,
                {
                    proof {
                        vstd::std_specs::vec::axiom_vec_index_decreases(*items, k as int);
                        assert(decreases_to!(*self => (*self)->Array_0));
                        assert(decreases_to!(*items => items@[k as int]));
                        assert(decreases_to!(*self => items@[k as int]));
                    }
                    items[k].encode_into(out);
                    proof {
                        let vs = items@.subrange(0, k + 1);
                        lemma_values_model(vs);
                        lemma_values_model(items@.subrange(0, k as int));
                        assert(values_model(vs) =~= values_model(
                            items@.subrange(0, k as int),
                        ).push(value_model(items@[k as int])));
                        lemma_encode_terms_push(
                            values_model(items@.subrange(0, k as int)),
                            value_model(items@[k as int]),
                        );
                    }
                    k = k + 1;
                    assert(out@ =~= start + seq![108u8] + encode_terms(
                        values_model(items@.subrange(0, k as int)),
                    ));
                }
                out.push(101);
                assert(items@.subrange(0, k as int) =~= items@);
                assert(out@ =~= start + encode_term(self@));
            },
            Value::Dict(entries) => {
                out.push(100);
                let mut k: usize = 0;
                while k < entries.len()
                    invariant
                        k <= entries@.len(),
                        *self == Value::Dict(*entries),
                        out@ == start + seq![100u8] + encode_entries(
                            entries_model(entries@.subrange(0, k as int)),
                        ),
                    decreases entries@.len() - k,
                {
                    let entry = &entries[k];
                    push_str_encoding(out, entry.0.as_slice());
                    proof {
                        vstd::std_specs::vec::axiom_vec_index_decreases(*entries, k as int);
                        assert(decreases_to!(*self => (*self)->Dict_0));
                        assert(decreases_to!(*entries => entries@[k as int]));
                        assert(decreases_to!(entries@[k as int] => entries@[k as int].1));
                        assert(decreases_to!(*self => entries@[k as int].1));
                    }
                    entry.1.encode_into(out);
                    proof {
                        let es = entries@.subrange(0, k + 1);
                        lemma_entries_model(es);
                        lemma_entries_model(entries@.subrange(0, k as int));
                        assert(entries_model(es) =~= entries_model(
                            entries@.subrange(0, k as int),
                        ).push((entry.0@, value_model(entry.1))));
                        lemma_encode_entries_push(
                            entries_model(entries@.subrange(0, k as int)),
                            entry.0@,
                            value_model(entry.1),
                        );
                    }
                    k = k + 1;
                    assert(out@ =~= start + seq![100u8] + encode_entries(
                        entries_model(entries@.subrange(0, k as int)),
                    ));
                }
                out.push(101);
                assert(entries@.subrange(0, k as int) =~= entries@);
                assert(out@ =~= start + encode_term(self@));
            },
        }
    }
}

/// The encoding of `t` stands in `s` at position `p`.
pub open spec fn encodes_at(t: Term, s: Seq<u8>, p: int) -> bool {
    let e = encode_term(t);
    &&& 0 <= p
    &&& p + e.len() <= s.len()
    &&& s.subrange(p, p + e.len()) == e
}

/// A bencoding is malformed, truncated, non-canonical or out of range.
#[derive(Debug, Clone, Copy, PartialEq, Eq)]
pub struct DecodeError;

/// What a successful parse at `p` promises: a well-formed value whose
/// encoding stands at `p` and ends at the returned position.
pub open spec fn parsed_at(r: Result<(Value, usize), DecodeError>, s: Seq<u8>, p: int) -> bool {
    r matches Ok((v, q)) ==> {
        &&& v@.wf()
        &&& encodes_at(v@, s, p)
        &&& q == p + encode_term(v@).len()
    }
}

/// The parse returns `t` whenever the encoding of `t` stands at `p`.
pub open spec fn finds(r: Result<(Value, usize), DecodeError>, t: Term, s: Seq<u8>, p: int) -> bool {
    r matches Ok((v, q)) && v@ == t && q == p + encode_term(t).len()
}

pub proof fn lemma_first_byte(t: Term)
    ensures
        encode_term(t).len() > 0,
        is_digit(encode_term(t)[0]) <==> t is Str,
        encode_term(t)[0] == 105 <==> t is Int,
        encode_term(t)[0] == 108 <==> t is List,
        encode_term(t)[0] == 100 <==> t is Dict,
{
    if let Term::Str(x) = t {
        lemma_decimal(x.len());
        assert(encode_term(t)[0] == decimal(x.len())[0]);
    }
}

pub proof fn lemma_terms_split(ts: Seq<Term>, k: int)
    requires
        0 <= k < ts.len(),
    ensures
        encode_terms(ts) == encode_terms(ts.subrange(0, k)) + encode_term(ts[k]) + encode_terms(
            ts.subrange(k + 1, ts.len() as int),
        ),
    decreases ts.len(),
{
    let n = ts.len() as int;
    let d = ts.subrange(0, n - 1);
    if k == n - 1 {
        assert(ts.subrange(k + 1, n).len() == 0);
        assert(encode_terms(ts.subrange(k + 1, n)) =~= Seq::<u8>::empty());
        assert(d =~= ts.subrange(0, k));
        assert(encode_terms(ts) =~= encode_terms(ts.subrange(0, k)) + encode_term(ts[k])
            + encode_terms(ts.subrange(k + 1, n)));
    } else {
        lemma_terms_split(d, k);
        assert(d.subrange(0, k) =~= ts.subrange(0, k));
        assert(d.subrange(k + 1, n - 1) =~= ts.subrange(k + 1, n - 1));
        assert(ts.subrange(k + 1, n).subrange(0, n - k - 2) =~= ts.subrange(k + 1, n - 1));
        assert(encode_terms(ts.subrange(k + 1, n)) == encode_terms(ts.subrange(k + 1, n - 1))
            + encode_term(ts[n - 1]));
        assert(encode_terms(ts) =~= encode_terms(ts.subrange(0, k)) + encode_term(ts[k])
            + encode_terms(ts.subrange(k + 1, n)));
    }
}

pub proof fn lemma_entries_split(es: Seq<(Seq<u8>, Term)>, k: int)
    requires
        0 <= k < es.len(),
    ensures
        encode_entries(es) == encode_entries(es.subrange(0, k)) + encode_str(es[k].0)
            + encode_term(es[k].1) + encode_entries(es.subrange(k + 1, es.len() as int)),
    decreases es.len(),
{
    let n = es.len() as int;
    let d = es.subrange(0, n - 1);
    if k == n - 1 {
        assert(es.subrange(k + 1, n).len() == 0);
        assert(encode_entries(es.subrange(k + 1, n)) =~= Seq::<u8>::empty());
        assert(d =~= es.subrange(0, k));
        assert(encode_entries(es) =~= encode_entries(es.subrange(0, k)) + encode_str(es[k].0)
            + encode_term(es[k].1) + encode_entries(es.subrange(k + 1, n)));
    } else {
        lemma_entries_split(d, k);
        assert(d.subrange(0, k) =~= es.subrange(0, k));
        assert(d.subrange(k + 1, n - 1) =~= es.subrange(k + 1, n - 1));
        assert(es.subrange(k + 1, n).subrange(0, n - k - 2) =~= es.subrange(k + 1, n - 1));
        assert(encode_entries(es.subrange(k + 1, n)) == encode_entries(
            es.subrange(k + 1, n - 1),
        ) + encode_str(es[n - 1].0) + encode_term(es[n - 1].1));
        assert(encode_entries(es) =~= encode_entries(es.subrange(0, k)) + encode_str(es[k].0)
            + encode_term(es[k].1) + encode_entries(es.subrange(k + 1, n)));
    }
}

/// `bytes_lt` decided on byte slices.
pub fn bytes_less(a: &[u8], b: &[u8]) -> (r: bool)
    ensures
        r == bytes_lt(a@, b@),
{
    let mut i: usize = 0;
    assert(a@.subrange(0, a@.len() as int) =~= a@);
    assert(b@.subrange(0, b@.len() as int) =~= b@);
    while i < a.len() && i < b.len() && a[i] == b[i]
        invariant
            i <= a@.len(),
            i <= b@.len(),
            bytes_lt(a@, b@) == bytes_lt(
                a@.subrange(i as int, a@.len() as int),
                b@.subrange(i as int, b@.len() as int),
            ),
        decreases a@.len() - i,
    {
        let ghost x = a@.subrange(i as int, a@.len() as int);
        let ghost y = b@.subrange(i as int, b@.len() as int);
        assert(x.drop_first() =~= a@.subrange(i + 1, a@.len() as int));
        assert(y.drop_first() =~= b@.subrange(i + 1, b@.len() as int));
        i = i + 1;
    }
    let ghost x = a@.subrange(i as int, a@.len() as int);
    let ghost y = b@.subrange(i as int, b@.len() as int);
    if i == a.len() {
        i < b.len()
    } else if i == b.len() {
        false
    } else {
        assert(x[0] == a@[i as int] && y[0] == b@[i as int]);
        a[i] < b[i]
    }
}

/// Reads the byte string whose encoding `<length>:<bytes>` stands at `pos`.
fn parse_bytes_at(b: &[u8], pos: usize) -> (r: Result<(Vec<u8>, usize), DecodeError>)
    requires
        pos <= b@.len(),
    ensures
        r matches Ok((x, q)) ==> encodes_at(Term::Str(x@), b@, pos as int) && q == pos
            + encode_str(x@).len(),
        forall|x: Seq<u8>| #[trigger] encodes_at(Term::Str(x), b@, pos as int) ==> (r matches Ok(
            (y, q),
        ) && y@ == x),
{
    let limit = b.len() as u64;
    match scan_decimal(b, pos, limit) {
        None => {
            proof {
                assert forall|x: Seq<u8>| #[trigger] encodes_at(Term::Str(x), b@, pos as int) implies false by {
                    let d = decimal(x.len());
                    lemma_decimal(x.len());
                    let e = encode_str(x);
                    assert(b@.subrange(pos as int, pos + e.len()) == e);
                    assert(b@.subrange(pos as int, pos + d.len()) =~= d) by {
                        assert forall|i: int| 0 <= i < d.len() implies #[trigger] b@.subrange(pos as int, pos + d.len())[i] == d[i] by {
                            assert(e[i] == d[i]);
                            assert(b@[pos + i] == e[i]);
                        }
                    }
                    assert(b@[pos + d.len()] == e[d.len() as int]);
                    assert(decimal_at(x.len(), b@, pos as int));
                }
            }
            Err(DecodeError)
        },
        Some((m, q)) => {
            if q >= b.len() || b[q] != 58 || m as usize > b.len() - q - 1 {
                proof {
                    assert forall|x: Seq<u8>| #[trigger] encodes_at(Term::Str(x), b@, pos as int) implies false by {
                        let d = decimal(x.len());
                        lemma_decimal(x.len());
                        let e = encode_str(x);
                        assert(b@.subrange(pos as int, pos + d.len()) =~= d) by {
                            assert forall|i: int| 0 <= i < d.len() implies #[trigger] b@.subrange(pos as int, pos + d.len())[i] == d[i] by {
                                assert(e[i] == d[i]);
                                assert(b@[pos + i] == e[i]);
                            }
                        }
                        assert(b@[pos + d.len()] == e[d.len() as int]);
                        assert(decimal_at(x.len(), b@, pos as int));
                    }
                }
                return Err(DecodeError);
            }
            let start = q + 1;
            let end = start + m as usize;
            let x = vstd::slice::slice_to_vec(vstd::slice::slice_subrange(b, start, end));
            proof {
                let dd = b@.subrange(pos as int, q as int);
                lemma_canonical_is_decimal(dd);
                assert(x@.len() == m);
                assert(b@.subrange(pos as int, end as int) =~= encode_str(x@));
                assert forall|y: Seq<u8>| #[trigger] encodes_at(Term::Str(y), b@, pos as int) implies y == x@ by {
                    let d = decimal(y.len());
                    lemma_decimal(y.len());
                    let e = encode_str(y);
                    assert(b@.subrange(pos as int, pos + d.len()) =~= d) by {
                        assert forall|i: int| 0 <= i < d.len() implies #[trigger] b@.subrange(pos as int, pos + d.len())[i] == d[i] by {
                            assert(e[i] == d[i]);
                            assert(b@[pos + i] == e[i]);
                        }
                    }
                    assert(b@[pos + d.len()] == e[d.len() as int]);
                    assert(decimal_at(y.len(), b@, pos as int));
                    assert(y =~= x@) by {
                        assert forall|i: int| 0 <= i < y.len() implies y[i] == x@[i] by {
                            assert(e[d.len() + 1 + i] == y[i]);
                            assert(b@[pos + d.len() + 1 + i] == e[d.len() + 1 + i]);
                        }
                    }
                }
            }
            Ok((x, end))
        },
    }
}

/// Slicing commutes with a match of `e` at `p`.
proof fn lemma_match_slice(s: Seq<u8>, p: int, e: Seq<u8>, k: int, len: int)
    requires
        0 <= p,
        p + e.len() <= s.len(),
        s.subrange(p, p + e.len()) == e,
        0 <= k,
        0 <= len,
        k + len <= e.len(),
    ensures
        s.subrange(p + k, p + k + len) == e.subrange(k, k + len),
        len > 0 ==> s[p + k] == e[k],
{
    assert forall|i: int| 0 <= i < len implies #[trigger] s.subrange(p + k, p + k + len)[i] == e.subrange(k, k + len)[i] by {
        assert(s[p + k + i] == s.subrange(p, p + e.len())[k + i]);
    }
    assert(s.subrange(p + k, p + k + len) =~= e.subrange(k, k + len));
    if len > 0 {
        assert(s[p + k] == s.subrange(p, p + e.len())[k]);
    }
}

/// Where an integer's encoding stands, its sign and numeral stand at fixed places.
proof fn lemma_int_at(i: int, s: Seq<u8>, p: int)
    requires
        encodes_at(Term::Int(i), s, p),
    ensures
        p < s.len() && s[p] == 105,
        i < 0 ==> p + 1 < s.len() && s[p + 1] == 45 && decimal_at((-i) as nat, s, p + 2) && s[p + 2
            + decimal((-i) as nat).len()] == 101,
        i >= 0 ==> p + 1 < s.len() && s[p + 1] != 45 && decimal_at(i as nat, s, p + 1) && s[p + 1
            + decimal(i as nat).len()] == 101,
{
    let e = encode_term(Term::Int(i));
    lemma_match_slice(s, p, e, 0, 1);
    if i < 0 {
        let d = decimal((-i) as nat);
        lemma_decimal((-i) as nat);
        lemma_match_slice(s, p, e, 1, 1);
        lemma_match_slice(s, p, e, 2, (d.len() as int) as int);
        lemma_match_slice(s, p, e, 2 + (d.len() as int), 1);
        assert(e.subrange(2, 2 + (d.len() as int)) =~= d);
    } else {
        let d = decimal(i as nat);
        lemma_decimal(i as nat);
        lemma_match_slice(s, p, e, 1, (d.len() as int) as int);
        lemma_match_slice(s, p, e, 1 + (d.len() as int), 1);
        assert(e.subrange(1, 1 + (d.len() as int)) =~= d);
        assert(is_digit(d[0]));
    }
}

/// Reads the integer whose encoding `i<numeral>e` stands at `pos`.
fn parse_int_at(b: &[u8], pos: usize) -> (r: Result<(Value, usize), DecodeError>)
    requires
        pos <= b@.len(),
    ensures
        parsed_at(r, b@, pos as int),
        r matches Ok((v, _)) ==> v is Integer,
        forall|t: Term|
            t is Int && t.wf() && #[trigger] encodes_at(t, b@, pos as int) ==> finds(
                r,
                t,
                b@,
                pos as int,
            ),
{
    if pos >= b.len() || b[pos] != 105 || pos + 1 >= b.len() {
        proof {
            assert forall|t: Term| t is Int && t.wf() && #[trigger] encodes_at(t, b@, pos as int) implies false by {
                lemma_int_at(t->Int_0, b@, pos as int);
            }
        }
        return Err(DecodeError);
    }
    let neg = b[pos + 1] == 45;
    let p: usize = if neg {
        pos + 2
    } else {
        pos + 1
    };
    let limit: u64 = if neg {
        9223372036854775808u64
    } else {
        9223372036854775807u64
    };
    let scanned = scan_decimal(b, p, limit);
    proof {
        assert forall|t: Term| t is Int && t.wf() && #[trigger] encodes_at(t, b@, pos as int) implies {
            let i = t->Int_0;
            let m: nat = if i < 0 { (-i) as nat } else { i as nat };
            &&& (i < 0 <==> neg)
            &&& scanned == Some((m as u64, (p + decimal(m).len()) as usize))
            &&& b@[p + decimal(m).len()] == 101
        } by {
            lemma_int_at(t->Int_0, b@, pos as int);
        }
    }
    match scanned {
        None => Err(DecodeError),
        Some((m, q)) => {
            if q >= b.len() || b[q] != 101 || (neg && m == 0) {
                return Err(DecodeError);
            }
            let i: i64 = if neg {
                if m == 9223372036854775808u64 {
                    i64::MIN
                } else {
                    -(m as i64)
                }
            } else {
                m as i64
            };
            let v = Value::Integer(i);
            proof {
                let d = b@.subrange(p as int, q as int);
                lemma_canonical_is_decimal(d);
                assert(i == if neg { -(m as int) } else { m as int });
                assert(int_text(i as int) == if neg { seq![45u8] + d } else { d });
                let e = encode_term(v@);
                assert(b@.subrange(pos as int, q + 1) =~= e) by {
                    if neg {
                        assert(b@.subrange(pos as int, q + 1) =~= seq![105u8, 45u8] + d + seq![101u8]);
                    } else {
                        assert(b@.subrange(pos as int, q + 1) =~= seq![105u8] + d + seq![101u8]);
                    }
                }
            }
            Ok((v, q + 1))
        },
    }
}

pub proof fn lemma_values_model_push(vs: Seq<Value>, v: Value)
    ensures
        values_model(vs.push(v)) == values_model(vs).push(value_model(v)),
{
    assert(vs.push(v).subrange(0, vs.len() as int) =~= vs);
}

pub proof fn lemma_entries_model_push(es: Seq<(Vec<u8>, Value)>, k: Vec<u8>, v: Value)
    ensures
        entries_model(es.push((k, v))) == entries_model(es).push((k@, value_model(v))),
{
    assert(es.push((k, v)).subrange(0, es.len() as int) =~= es);
}

/// Where a list's encoding stands and its first `k` items have been read up to
/// `cur`, either the closing `e` or the encoding of item `k` stands at `cur`.
proof fn lemma_list_step(ts: Seq<Term>, k: int, s: Seq<u8>, pos: int, cur: int)
    requires
        encodes_at(Term::List(ts), s, pos),
        0 <= k <= ts.len(),
        cur == pos + 1 + encode_terms(ts.subrange(0, k)).len(),
    ensures
        cur < s.len(),
        k == ts.len() ==> s[cur] == 101 && cur + 1 == pos + encode_term(Term::List(ts)).len(),
        k < ts.len() ==> encodes_at(ts[k], s, cur) && s[cur] == encode_term(ts[k])[0],
{
    let e = encode_term(Term::List(ts));
    let e0 = encode_terms(ts.subrange(0, k));
    if k == ts.len() {
        assert(ts.subrange(0, k) =~= ts);
        lemma_match_slice(s, pos, e, 1 + (e0.len() as int), 1);
    } else {
        lemma_terms_split(ts, k);
        let et = encode_term(ts[k]);
        lemma_first_byte(ts[k]);
        lemma_match_slice(s, pos, e, 1 + (e0.len() as int), (et.len() as int) as int);
        assert(e.subrange(1 + (e0.len() as int), 1 + (e0.len() as int) + (et.len() as int)) =~= et);
    }
}

/// The dictionary counterpart of `lemma_list_step`.
proof fn lemma_dict_step(es: Seq<(Seq<u8>, Term)>, k: int, s: Seq<u8>, pos: int, cur: int)
    requires
        encodes_at(Term::Dict(es), s, pos),
        0 <= k <= es.len(),
        cur == pos + 1 + encode_entries(es.subrange(0, k)).len(),
    ensures
        cur < s.len(),
        k == es.len() ==> s[cur] == 101 && cur + 1 == pos + encode_term(Term::Dict(es)).len(),
        k < es.len() ==> {
            &&& encodes_at(Term::Str(es[k].0), s, cur)
            &&& encodes_at(es[k].1, s, cur + encode_str(es[k].0).len())
            &&& is_digit(s[cur])
        },
{
    let e = encode_term(Term::Dict(es));
    let e0 = encode_entries(es.subrange(0, k));
    if k == es.len() {
        assert(es.subrange(0, k) =~= es);
        lemma_match_slice(s, pos, e, 1 + (e0.len() as int), 1);
    } else {
        lemma_entries_split(es, k);
        let ek = encode_str(es[k].0);
        let ev = encode_term(es[k].1);
        lemma_first_byte(Term::Str(es[k].0));
        lemma_match_slice(s, pos, e, 1 + (e0.len() as int), (ek.len() as int) as int);
        lemma_match_slice(s, pos, e, 1 + (e0.len() as int) + (ek.len() as int), (ev.len() as int) as int);
        assert(e.subrange(1 + (e0.len() as int), 1 + (e0.len() as int) + (ek.len() as int)) =~= ek);
        assert(e.subrange(1 + (e0.len() as int) + (ek.len() as int), 1 + (e0.len() as int) + (ek.len() as int) + (ev.len() as int)) =~= ev);
    }
}

/// Reads the value whose encoding stands at `pos`; succeeds exactly when the
/// encoding of some well-formed term stands there.
fn parse_value_at(b: &[u8], pos: usize) -> (r: Result<(Value, usize), DecodeError>)
    requires
        pos <= b@.len(),
    ensures
        parsed_at(r, b@, pos as int),
        forall|t: Term| t.wf() && #[trigger] encodes_at(t, b@, pos as int) ==> finds(r, t, b@, pos as int),
    decreases b@.len() - pos, 1int,
{
    if pos >= b.len() {
        proof {
            assert forall|t: Term| t.wf() && #[trigger] encodes_at(t, b@, pos as int) implies false by {
                lemma_first_byte(t);
            }
        }
        return Err(DecodeError);
    }
    let c = b[pos];
    proof {
        assert forall|t: Term| #[trigger] encodes_at(t, b@, pos as int) implies {
            &&& (is_digit(c) <==> t is Str)
            &&& (c == 105 <==> t is Int)
            &&& (c == 108 <==> t is List)
            &&& (c == 100 <==> t is Dict)
        } by {
            lemma_first_byte(t);
            lemma_match_slice(b@, pos as int, encode_term(t), 0, 1);
        }
    }
    if c == 105 {
        parse_int_at(b, pos)
    } else if c == 108 {
        parse_list_at(b, pos)
    } else if c == 100 {
        parse_dict_at(b, pos)
    } else if 48 <= c && c <= 57 {
        match parse_bytes_at(b, pos) {
            Ok((x, q)) => Ok((Value::String(x), q)),
            Err(e) => Err(e),
        }
    } else {
        Err(DecodeError)
    }
}

/// Reads the list whose encoding `l<items>e` stands at `pos`.
fn parse_list_at(b: &[u8], pos: usize) -> (r: Result<(Value, usize), DecodeError>)
    requires
        pos < b@.len(),
        b@[pos as int] == 108,
    ensures
        parsed_at(r, b@, pos as int),
        r matches Ok((v, _)) ==> v is Array,
        forall|t: Term|
            t is List && t.wf() && #[trigger] encodes_at(t, b@, pos as int) ==> finds(
                r,
                t,
                b@,
                pos as int,
            ),
    decreases b@.len() - pos, 0int,
{
    let mut items: Vec<Value> = Vec::new();
    let _len = b.len();
    let mut cur: usize = pos + 1;
    assert(b@.subrange(pos + 1, cur as int) =~= encode_terms(values_model(items@)));
    loop
        invariant
            pos < cur <= b@.len(),
            b@[pos as int] == 108,
            Term::List(values_model(items@)).wf(),
            b@.subrange(pos + 1, cur as int) == encode_terms(values_model(items@)),
            forall|ts: Seq<Term>|
                Term::List(ts).wf() && #[trigger] encodes_at(Term::List(ts), b@, pos as int) ==> {
                    &&& items@.len() <= ts.len()
                    &&& values_model(items@) == ts.subrange(0, items@.len() as int)
                },
        decreases b@.len() - cur,
    {
        proof {
            lemma_values_model(items@);
        }
        let ghost k = items@.len() as int;
        if cur >= b.len() {
            proof {
                assert forall|t: Term| t is List && t.wf() && #[trigger] encodes_at(t, b@, pos as int) implies false by {
                    lemma_list_step(t->List_0, k, b@, pos as int, cur as int);
                }
            }
            return Err(DecodeError);
        }
        if b[cur] == 101 {
            let v = Value::Array(items);
            proof {
                assert(b@.subrange(pos as int, cur + 1) =~= encode_term(v@));
                assert forall|t: Term| t is List && t.wf() && #[trigger] encodes_at(t, b@, pos as int) implies finds(Ok((v, (cur + 1) as usize)), t, b@, pos as int) by {
                    let ts = t->List_0;
                    lemma_list_step(ts, k, b@, pos as int, cur as int);
                    if k < ts.len() {
                        lemma_first_byte(ts[k]);
                    }
                    assert(ts.subrange(0, k) =~= ts);
                }
            }
            return Ok((v, cur + 1));
        }
        proof {
            assert forall|ts: Seq<Term>| Term::List(ts).wf() && #[trigger] encodes_at(Term::List(ts), b@, pos as int) implies k < ts.len() && encodes_at(ts[k], b@, cur as int) && ts[k].wf() by {
                lemma_list_step(ts, k, b@, pos as int, cur as int);
            }
        }
        match parse_value_at(b, cur) {
            Err(e) => {
                proof {
                    assert forall|t: Term| t is List && t.wf() && #[trigger] encodes_at(t, b@, pos as int) implies false by {
                        let ts = t->List_0;
                        assert(encodes_at(Term::List(ts), b@, pos as int));
                        assert(encodes_at(ts[k], b@, cur as int));
                    }
                }
                return Err(e);
            },
            Ok((v, end)) => {
                proof {
                    lemma_values_model_push(items@, v);
                    lemma_encode_terms_push(values_model(items@), v@);
                    lemma_first_byte(v@);
                    assert(b@.subrange(pos + 1, end as int) =~= b@.subrange(pos + 1, cur as int)
                        + b@.subrange(cur as int, end as int));
                    assert forall|ts: Seq<Term>| Term::List(ts).wf() && #[trigger] encodes_at(Term::List(ts), b@, pos as int) implies {
                        &&& k + 1 <= ts.len()
                        &&& values_model(items@.push(v)) == ts.subrange(0, k + 1)
                    } by {
                        assert(encodes_at(ts[k], b@, cur as int));
                        assert(ts.subrange(0, k + 1) =~= ts.subrange(0, k).push(ts[k]));
                    }
                    let vm = values_model(items@.push(v));
                    lemma_values_model(items@);
                    lemma_values_model(items@.push(v));
                    assert forall|i: int| 0 <= i < vm.len() implies (#[trigger] vm[i]).wf() by {
                        if i < k {
                            assert(vm[i] == values_model(items@)[i]);
                            let ts0 = values_model(items@);
                            assert(Term::List(ts0).wf());
                            assert(0 <= i < ts0.len());
                            lemma_list_item_wf(ts0, i);
                        } else {
                            assert(vm[i] == value_model(v));
                        }
                    }
                }
                items.push(v);
                cur = end;
            },
        }
    }
}

/// Reads the dictionary whose encoding `d<key><value>...e` stands at `pos`;
/// keys must come in strictly ascending order.
fn parse_dict_at(b: &[u8], pos: usize) -> (r: Result<(Value, usize), DecodeError>)
    requires
        pos < b@.len(),
        b@[pos as int] == 100,
    ensures
        parsed_at(r, b@, pos as int),
        r matches Ok((v, _)) ==> v is Dict,
        forall|t: Term|
            t is Dict && t.wf() && #[trigger] encodes_at(t, b@, pos as int) ==> finds(
                r,
                t,
                b@,
                pos as int,
            ),
    decreases b@.len() - pos, 0int,
{
    let mut entries: Vec<(Vec<u8>, Value)> = Vec::new();
    let _len = b.len();
    let mut cur: usize = pos + 1;
    assert(b@.subrange(pos + 1, cur as int) =~= encode_entries(entries_model(entries@)));
    loop
        invariant
            pos < cur <= b@.len(),
            b@[pos as int] == 100,
            Term::Dict(entries_model(entries@)).wf(),
            b@.subrange(pos + 1, cur as int) == encode_entries(entries_model(entries@)),
            forall|es: Seq<(Seq<u8>, Term)>|
                Term::Dict(es).wf() && #[trigger] encodes_at(Term::Dict(es), b@, pos as int) ==> {
                    &&& entries@.len() <= es.len()
                    &&& entries_model(entries@) == es.subrange(0, entries@.len() as int)
                },
        decreases b@.len() - cur,
    {
        proof {
            lemma_entries_model(entries@);
        }
        let ghost k = entries@.len() as int;
        if cur >= b.len() {
            proof {
                assert forall|t: Term| t is Dict && t.wf() && #[trigger] encodes_at(t, b@, pos as int) implies false by {
                    lemma_dict_step(t->Dict_0, k, b@, pos as int, cur as int);
                }
            }
            return Err(DecodeError);
        }
        if b[cur] == 101 {
            let v = Value::Dict(entries);
            proof {
                assert(b@.subrange(pos as int, cur + 1) =~= encode_term(v@));
                assert forall|t: Term| t is Dict && t.wf() && #[trigger] encodes_at(t, b@, pos as int) implies finds(Ok((v, (cur + 1) as usize)), t, b@, pos as int) by {
                    let es = t->Dict_0;
                    lemma_dict_step(es, k, b@, pos as int, cur as int);
                    assert(es.subrange(0, k) =~= es);
                }
            }
            return Ok((v, cur + 1));
        }
        proof {
            assert forall|es: Seq<(Seq<u8>, Term)>| Term::Dict(es).wf() && #[trigger] encodes_at(Term::Dict(es), b@, pos as int) implies {
                &&& k < es.len()
                &&& encodes_at(Term::Str(es[k].0), b@, cur as int)
                &&& encodes_at(es[k].1, b@, cur + encode_str(es[k].0).len())
                &&& es[k].1.wf()
            } by {
                lemma_dict_step(es, k, b@, pos as int, cur as int);
            }
        }
        let (key, key_end) = match parse_bytes_at(b, cur) {
            Err(e) => {
                proof {
                    assert forall|t: Term| t is Dict && t.wf() && #[trigger] encodes_at(t, b@, pos as int) implies false by {
                        let es = t->Dict_0;
                        assert(encodes_at(Term::Dict(es), b@, pos as int));
                        assert(encodes_at(Term::Str(es[k].0), b@, cur as int));
                    }
                }
                return Err(e);
            },
            Ok(x) => x,
        };
        let (value, end) = match parse_value_at(b, key_end) {
            Err(e) => {
                proof {
                    assert forall|t: Term| t is Dict && t.wf() && #[trigger] encodes_at(t, b@, pos as int) implies false by {
                        let es = t->Dict_0;
                        assert(encodes_at(Term::Dict(es), b@, pos as int));
                        assert(encodes_at(Term::Str(es[k].0), b@, cur as int));
                        assert(encodes_at(es[k].1, b@, key_end as int));
                    }
                }
                return Err(e);
            },
            Ok(x) => x,
        };
        if entries.len() > 0 {
            let last = entries.len() - 1;
            if !bytes_less(entries[last].0.as_slice(), key.as_slice()) {
                proof {
                    assert forall|t: Term| t is Dict && t.wf() && #[trigger] encodes_at(t, b@, pos as int) implies false by {
                        let es = t->Dict_0;
                        assert(encodes_at(Term::Dict(es), b@, pos as int));
                        assert(encodes_at(Term::Str(es[k].0), b@, cur as int));
                        assert(es.subrange(0, k)[k - 1] == es[k - 1]);
                        assert(entries_model(entries@)[k - 1] == (entries@[k - 1].0@, value_model(entries@[k - 1].1)));
                        assert(bytes_lt(es[k - 1].0, es[k].0));
                    }
                }
                return Err(DecodeError);
            }
        }
        proof {
            lemma_entries_model_push(entries@, key, value);
            lemma_encode_entries_push(entries_model(entries@), key@, value@);
            lemma_first_byte(value@);
            assert(b@.subrange(pos + 1, end as int) =~= b@.subrange(pos + 1, cur as int)
                + b@.subrange(cur as int, key_end as int) + b@.subrange(key_end as int, end as int));
            assert forall|es: Seq<(Seq<u8>, Term)>| Term::Dict(es).wf() && #[trigger] encodes_at(Term::Dict(es), b@, pos as int) implies {
                &&& k + 1 <= es.len()
                &&& entries_model(entries@.push((key, value))) == es.subrange(0, k + 1)
            } by {
                assert(encodes_at(Term::Str(es[k].0), b@, cur as int));
                assert(encodes_at(es[k].1, b@, key_end as int));
                assert(es.subrange(0, k + 1) =~= es.subrange(0, k).push(es[k]));
            }
            let em = entries_model(entries@.push((key, value)));
            let old_em = entries_model(entries@);
            assert forall|i: int| 0 <= i < em.len() implies (#[trigger] em[i]).1.wf() by {
                if i < k {
                    assert(em[i] == old_em[i]);
                }
            }
            assert forall|i: int| 0 <= i < em.len() - 1 implies bytes_lt(#[trigger] em[i].0, em[i + 1].0) by {
                if i < k - 1 {
                    assert(em[i] == old_em[i]);
                    assert(em[i + 1] == old_em[i + 1]);
                } else {
                    assert(em[i] == old_em[i]);
                    assert(old_em[i] == (entries@[k - 1].0@, value_model(entries@[k - 1].1)));
                }
            }
        }
        entries.push((key, value));
        cur = end;
    }
}

proof fn lemma_list_item_wf(ts: Seq<Term>, i: int)
    requires
        Term::List(ts).wf(),
        0 <= i < ts.len(),
    ensures
        ts[i].wf(),
{
    let t = Term::List(ts);
    assert(decreases_to!(t => t->List_0));
    assert(decreases_to!(ts => ts[i]));
    assert(t.wf());
}

proof fn lemma_dict_item_wf(es: Seq<(Seq<u8>, Term)>, i: int)
    requires
        Term::Dict(es).wf(),
        0 <= i < es.len(),
    ensures
        es[i].1.wf(),
        keys_ascending(es),
{
    let t = Term::Dict(es);
    assert(decreases_to!(t => t->Dict_0));
    assert(decreases_to!(es => es[i]));
    assert(decreases_to!(es[i] => es[i].1));
    assert(t.wf());
}

/// What the public readers promise: on success a well-formed value whose
/// encoding is a prefix of the input, with the rest handed back.
pub open spec fn split_ok(r: Result<(Value, &[u8]), DecodeError>, s: Seq<u8>) -> bool {
    r matches Ok((v, rest)) ==> v@.wf() && s == encode_term(v@) + rest@
}

/// The reader returns `t` whenever the input begins with the encoding of `t`.
pub open spec fn splits(r: Result<(Value, &[u8]), DecodeError>, t: Term, s: Seq<u8>) -> bool {
    r matches Ok((v, rest)) && v@ == t && rest@ == s.subrange(
        encode_term(t).len() as int,
        s.len() as int,
    )
}

fn split_off<'a>(b: &'a [u8], r: Result<(Value, usize), DecodeError>) -> (out: Result<
    (Value, &'a [u8]),
    DecodeError,
>)
    requires
        parsed_at(r, b@, 0),
    ensures
        split_ok(out, b@),
        r is Ok <==> out is Ok,
        out matches Ok((v, _)) ==> r matches Ok((w, _)) && v == w,
        forall|t: Term| finds(r, t, b@, 0) ==> splits(out, t, b@),
{
    match r {
        Ok((v, q)) => {
            let rest = vstd::slice::slice_subrange(b, q, b.len());
            assert(b@ =~= encode_term(v@) + rest@);
            Ok((v, rest))
        },
        Err(e) => Err(e),
    }
}

/// Reads the bencoded value at the start of `encoded_value` and returns it
/// with the bytes that follow it. Succeeds exactly when the input begins with
/// the encoding of a well-formed term, and then returns that term.
pub fn decode_bencoded_value(encoded_value: &[u8]) -> (r: Result<(Value, &[u8]), DecodeError>)
    ensures
        split_ok(r, encoded_value@),
        forall|t: Term| t.wf() && #[trigger] encodes_at(t, encoded_value@, 0) ==> splits(r, t, encoded_value@),
        r is Ok <==> exists|t: Term| t.wf() && #[trigger] encodes_at(t, encoded_value@, 0),
{
    let r = parse_value_at(encoded_value, 0);
    let ghost gr = r;
    let out = split_off(encoded_value, r);
    proof {
        if let Ok((v, q)) = gr {
            assert(v@.wf() && encodes_at(v@, encoded_value@, 0));
        }
    }
    out
}

/// Reads the byte string `<length>:<bytes>` at the start of the input.
pub fn decode_string(encoded_value: &[u8]) -> (r: Result<(Value, &[u8]), DecodeError>)
    ensures
        split_ok(r, encoded_value@),
        r matches Ok((v, _)) ==> v is String,
        forall|x: Seq<u8>| #[trigger] encodes_at(Term::Str(x), encoded_value@, 0) ==> splits(r, Term::Str(x), encoded_value@),
        r is Ok <==> exists|x: Seq<u8>| #[trigger] encodes_at(Term::Str(x), encoded_value@, 0),
{
    let r = match parse_bytes_at(encoded_value, 0) {
        Ok((x, q)) => Ok((Value::String(x), q)),
        Err(e) => Err(e),
    };
    let ghost gr = r;
    let out = split_off(encoded_value, r);
    proof {
        if let Ok((v, q)) = gr {
            assert(encodes_at(v@, encoded_value@, 0));
        }
    }
    out
}

/// Reads the integer `i<numeral>e` at the start of the input.
pub fn decode_integer(encoded_value: &[u8]) -> (r: Result<(Value, &[u8]), DecodeError>)
    ensures
        split_ok(r, encoded_value@),
        r matches Ok((v, _)) ==> v is Integer,
        forall|t: Term| t is Int && t.wf() && #[trigger] encodes_at(t, encoded_value@, 0) ==> splits(r, t, encoded_value@),
        r is Ok <==> exists|t: Term| t is Int && t.wf() && #[trigger] encodes_at(t, encoded_value@, 0),
{
    let r = parse_int_at(encoded_value, 0);
    let ghost gr = r;
    let out = split_off(encoded_value, r);
    proof {
        if let Ok((v, q)) = gr {
            assert(v@.wf() && encodes_at(v@, encoded_value@, 0));
        }
    }
    out
}

/// Reads the list `l<items>e` at the start of the input.
pub fn decode_list(encoded_value: &[u8]) -> (r: Result<(Value, &[u8]), DecodeError>)
    ensures
        split_ok(r, encoded_value@),
        r matches Ok((v, _)) ==> v is Array,
        forall|t: Term| t is List && t.wf() && #[trigger] encodes_at(t, encoded_value@, 0) ==> splits(r, t, encoded_value@),
        r is Ok <==> exists|t: Term| t is List && t.wf() && #[trigger] encodes_at(t, encoded_value@, 0),
{
    if encoded_value.len() == 0 || encoded_value[0] != 108 {
        proof {
            assert forall|t: Term| t is List && t.wf() && #[trigger] encodes_at(t, encoded_value@, 0) implies false by {
                lemma_first_byte(t);
                lemma_match_slice(encoded_value@, 0, encode_term(t), 0, 1);
            }
        }
        return Err(DecodeError);
    }
    let r = parse_list_at(encoded_value, 0);
    let ghost gr = r;
    let out = split_off(encoded_value, r);
    proof {
        if let Ok((v, q)) = gr {
            assert(v@.wf() && encodes_at(v@, encoded_value@, 0));
            lemma_first_byte(v@);
            lemma_match_slice(encoded_value@, 0, encode_term(v@), 0, 1);
        }
    }
    out
}

/// Reads the dictionary `d<key><value>...e` at the start of the input; its
/// keys must come in strictly ascending byte order.
pub fn decode_dict(encoded_value: &[u8]) -> (r: Result<(Value, &[u8]), DecodeError>)
    ensures
        split_ok(r, encoded_value@),
        r matches Ok((v, _)) ==> v is Dict,
        forall|t: Term| t is Dict && t.wf() && #[trigger] encodes_at(t, encoded_value@, 0) ==> splits(r, t, encoded_value@),
        r is Ok <==> exists|t: Term| t is Dict && t.wf() && #[trigger] encodes_at(t, encoded_value@, 0),
{
    if encoded_value.len() == 0 || encoded_value[0] != 100 {
        proof {
            assert forall|t: Term| t is Dict && t.wf() && #[trigger] encodes_at(t, encoded_value@, 0) implies false by {
                lemma_first_byte(t);
                lemma_match_slice(encoded_value@, 0, encode_term(t), 0, 1);
            }
        }
        return Err(DecodeError);
    }
    let r = parse_dict_at(encoded_value, 0);
    let ghost gr = r;
    let out = split_off(encoded_value, r);
    proof {
        if let Ok((v, q)) = gr {
            assert(v@.wf() && encodes_at(v@, encoded_value@, 0));
            lemma_first_byte(v@);
            lemma_match_slice(encoded_value@, 0, encode_term(v@), 0, 1);
        }
    }
    out
}

impl Value {
    /// Decodes a complete bencoding. Succeeds exactly when `encoded_value` is
    /// the encoding of a well-formed term, and then returns that term: so
    /// re-encoding the result gives back the input byte for byte, and decoding
    /// the encoding of a well-formed value gives back that value.
    pub fn decode(encoded_value: &[u8]) -> (r: Result<Value, DecodeError>)
        ensures
            r matches Ok(v) ==> v@.wf() && encode_term(v@) == encoded_value@,
            forall|t: Term| t.wf() && encode_term(t) == encoded_value@ ==> (r matches Ok(v) && v@ == t),
            r is Ok <==> exists|t: Term| t.wf() && encode_term(t) == encoded_value@,
    {
        let r = parse_value_at(encoded_value, 0);
        proof {
            assert forall|t: Term| t.wf() && encode_term(t) == encoded_value@ implies finds(r, t, encoded_value@, 0) by {
                assert(encoded_value@.subrange(0, encoded_value@.len() as int) =~= encoded_value@);
                assert(encodes_at(t, encoded_value@, 0));
            }
        }
        match r {
            Ok((v, q)) => {
                if q != encoded_value.len() {
                    return Err(DecodeError);
                }
                assert(encoded_value@.subrange(0, q as int) =~= encoded_value@);
                Ok(v)
            },
            Err(e) => Err(e),
        }
    }
}

pub proof fn lemma_bytes_lt_trans(a: Seq<u8>, b: Seq<u8>, c: Seq<u8>)
    requires
        bytes_lt(a, b),
        bytes_lt(b, c),
    ensures
        bytes_lt(a, c),
    decreases a.len(),
{
    if a.len() > 0 && b.len() > 0 && c.len() > 0 && a[0] == b[0] && b[0] == c[0] {
        lemma_bytes_lt_trans(a.drop_first(), b.drop_first(), c.drop_first());
    }
}

/// Where the key of entry `i` starts in the encoding of `Term::Dict(es)`.
pub open spec fn entry_key_offset(es: Seq<(Seq<u8>, Term)>, i: int) -> int {
    1 + encode_entries(es.subrange(0, i)).len() as int
}

proof fn lemma_entry_key_at(es: Seq<(Seq<u8>, Term)>, i: int)
    requires
        0 <= i < es.len(),
    ensures
        encodes_at(Term::Str(es[i].0), encode_term(Term::Dict(es)), entry_key_offset(es, i)),
{
    let e = encode_term(Term::Dict(es));
    lemma_entries_split(es, i);
    let o = entry_key_offset(es, i);
    let k = encode_str(es[i].0);
    assert(e.subrange(o, o + k.len()) =~= k);
}

/// Ordering law of dictionaries: in the encoding of a well-formed dictionary,
/// an earlier entry's key stands before a later entry's key, and is smaller
/// in byte order.
pub proof fn law_dict_keys_ascending(es: Seq<(Seq<u8>, Term)>, i: int, j: int)
    requires
        Term::Dict(es).wf(),
        0 <= i < j < es.len(),
    ensures
        bytes_lt(es[i].0, es[j].0),
        entry_key_offset(es, i) < entry_key_offset(es, j),
        encodes_at(Term::Str(es[i].0), encode_term(Term::Dict(es)), entry_key_offset(es, i)),
        encodes_at(Term::Str(es[j].0), encode_term(Term::Dict(es)), entry_key_offset(es, j)),
    decreases j - i,
{
    lemma_dict_item_wf(es, i);
    lemma_entry_key_at(es, i);
    lemma_entry_key_at(es, j);
    let pre = es.subrange(0, j);
    lemma_entries_split(pre, i);
    assert(pre.subrange(0, i) =~= es.subrange(0, i));
    lemma_first_byte(Term::Str(es[i].0));
    if j == i + 1 {
        assert(bytes_lt(es[i].0, es[i + 1].0));
    } else {
        law_dict_keys_ascending(es, i + 1, j);
        assert(bytes_lt(es[i].0, es[i + 1].0));
        lemma_bytes_lt_trans(es[i].0, es[i + 1].0, es[j].0);
    }
}

/// The first entry of `es` under `key`, if any.
pub open spec fn lookup(es: Seq<(Seq<u8>, Term)>, key: Seq<u8>) -> Option<Term>
    decreases es.len(),
{
    if es.len() == 0 {
        None
    } else if es[0].0 == key {
        Some(es[0].1)
    } else {
        lookup(es.drop_first(), key)
    }
}

/// Finds the entry under `key` in a dictionary's entries.
pub fn dict_get<'a>(entries: &'a Vec<(Vec<u8>, Value)>, key: &[u8]) -> (r: Option<&'a Value>)
    ensures
        match r {
            Some(v) => lookup(entries_model(entries@), key@) == Some(v@),
            None => lookup(entries_model(entries@), key@) is None,
        },
{
    let mut i: usize = 0;
    proof {
        lemma_entries_model(entries@);
        assert(entries_model(entries@).subrange(0, entries@.len() as int) =~= entries_model(entries@));
    }
    while i < entries.len()
        invariant
            i <= entries@.len(),
            entries_model(entries@).len() == entries@.len(),
            forall|j: int| 0 <= j < entries@.len() ==> #[trigger] entries_model(entries@)[j] == (entries@[j].0@, value_model(entries@[j].1)),
            lookup(entries_model(entries@), key@) == lookup(
                entries_model(entries@).subrange(i as int, entries@.len() as int),
                key@,
            ),
        decreases entries@.len() - i,
    {
        let ghost rest = entries_model(entries@).subrange(i as int, entries@.len() as int);
        assert(rest[0] == entries_model(entries@)[i as int]);
        if bytes_equal(entries[i].0.as_slice(), key) {
            return Some(&entries[i].1);
        }
        assert(rest.drop_first() =~= entries_model(entries@).subrange(i + 1, entries@.len() as int));
        i = i + 1;
    }
    None
}

/// Byte-slice equality.
pub fn bytes_equal(a: &[u8], b: &[u8]) -> (r: bool)
    ensures
        r == (a@ == b@),
{
    if a.len() != b.len() {
        return false;
    }
    let mut i: usize = 0;
    while i < a.len()
        invariant
            i <= a@.len(),
            a@.len() == b@.len(),
            a@.subrange(0, i as int) == b@.subrange(0, i as int),
        decreases a@.len() - i,
    {
        if a[i] != b[i] {
            return false;
        }
        assert(a@.subrange(0, i + 1) =~= a@.subrange(0, i as int).push(a@[i as int]));
        assert(b@.subrange(0, i + 1) =~= b@.subrange(0, i as int).push(b@[i as int]));
        i = i + 1;
    }
    assert(a@ =~= a@.subrange(0, i as int));
    assert(b@ =~= b@.subrange(0, i as int));
    true
}

proof fn lemma_bytes_lt_irreflexive(a: Seq<u8>)
    ensures
        !bytes_lt(a, a),
    decreases a.len(),
{
    if a.len() > 0 {
        lemma_bytes_lt_irreflexive(a.drop_first());
    }
}

proof fn lemma_bytes_lt_total(a: Seq<u8>, b: Seq<u8>)
    requires
        a != b,
    ensures
        bytes_lt(a, b) || bytes_lt(b, a),
    decreases a.len(),
{
    if a.len() > 0 && b.len() > 0 && a[0] == b[0] {
        if a.drop_first() == b.drop_first() {
            assert(a =~= seq![a[0]] + a.drop_first());
            assert(b =~= seq![b[0]] + b.drop_first());
        }
        lemma_bytes_lt_total(a.drop_first(), b.drop_first());
    } else if a.len() == 0 && b.len() == 0 {
        assert(a =~= b);
    }
}

proof fn lemma_keys_pairwise(es: Seq<(Seq<u8>, Term)>, i: int, j: int)
    requires
        keys_ascending(es),
        0 <= i < j < es.len(),
    ensures
        bytes_lt(es[i].0, es[j].0),
    decreases j - i,
{
    if j > i + 1 {
        lemma_keys_pairwise(es, i + 1, j);
        lemma_bytes_lt_trans(es[i].0, es[i + 1].0, es[j].0);
    }
}

/// In a dictionary with ascending keys, `lookup` finds the entry under its key.
pub proof fn lemma_lookup_at(es: Seq<(Seq<u8>, Term)>, j: int)
    requires
        keys_ascending(es),
        0 <= j < es.len(),
    ensures
        lookup(es, es[j].0) == Some(es[j].1),
    decreases es.len(),
{
    if es[0].0 != es[j].0 {
        let d = es.drop_first();
        assert(keys_ascending(d)) by {
            assert forall|x: int| 0 <= x < d.len() - 1 implies bytes_lt(#[trigger] d[x].0, d[x + 1].0) by {
                assert(d[x] == es[x + 1] && d[x + 1] == es[x + 2]);
            }
        }
        assert(d[j - 1] == es[j]);
        lemma_lookup_at(d, j - 1);
    } else if j > 0 {
        lemma_keys_pairwise(es, 0, j);
        lemma_bytes_lt_irreflexive(es[0].0);
    }
}

/// `lookup` finds nothing under a key that no entry has.
pub proof fn lemma_lookup_absent(es: Seq<(Seq<u8>, Term)>, k: Seq<u8>)
    requires
        forall|j: int| 0 <= j < es.len() ==> (#[trigger] es[j]).0 != k,
    ensures
        lookup(es, k) is None,
    decreases es.len(),
{
    if es.len() > 0 {
        let d = es.drop_first();
        assert forall|j: int| 0 <= j < d.len() implies (#[trigger] d[j]).0 != k by {
            assert(d[j] == es[j + 1]);
        }
        lemma_lookup_absent(d, k);
    }
}

/// `lookup` in a dictionary with ascending keys, by cases on where the key stands.
proof fn lemma_lookup_cases(es: Seq<(Seq<u8>, Term)>, k: Seq<u8>)
    requires
        keys_ascending(es),
    ensures
        (exists|j: int| 0 <= j < es.len() && es[j].0 == k) ==> lookup(es, k) == Some(
            es[choose|j: int| 0 <= j < es.len() && es[j].0 == k].1,
        ),
        (forall|j: int| 0 <= j < es.len() ==> (#[trigger] es[j]).0 != k) ==> lookup(es, k) is None,
{
    if exists|j: int| 0 <= j < es.len() && es[j].0 == k {
        let j = choose|j: int| 0 <= j < es.len() && es[j].0 == k;
        lemma_lookup_at(es, j);
    } else {
        lemma_lookup_absent(es, k);
    }
}

/// Puts `value` under `key` in a dictionary's entries, replacing the value
/// already there; keys stay strictly ascending, so each key stands once.
pub fn dict_insert(entries: &mut Vec<(Vec<u8>, Value)>, key: Vec<u8>, value: Value)
    requires
        keys_ascending(entries_model(old(entries)@)),
    ensures
        keys_ascending(entries_model(final(entries)@)),
        lookup(entries_model(final(entries)@), key@) == Some(value@),
        forall|k: Seq<u8>| k != key@ ==> #[trigger] lookup(entries_model(final(entries)@), k) == lookup(entries_model(old(entries)@), k),
{
    let ghost old_em = entries_model(entries@);
    let ghost kv = (key@, value@);
    proof {
        lemma_entries_model(entries@);
    }
    let mut i: usize = 0;
    while i < entries.len() && bytes_less(entries[i].0.as_slice(), key.as_slice())
        invariant
            i <= entries@.len(),
            old_em == entries_model(entries@),
            old_em.len() == entries@.len(),
            forall|j: int| 0 <= j < entries@.len() ==> #[trigger] old_em[j] == (entries@[j].0@, value_model(entries@[j].1)),
            forall|j: int| 0 <= j < i ==> bytes_lt(#[trigger] old_em[j].0, key@),
        decreases entries@.len() - i,
    {
        i = i + 1;
    }
    if i < entries.len() && bytes_equal(entries[i].0.as_slice(), key.as_slice()) {
        entries[i] = (key, value);
        proof {
            let new_em = entries_model(entries@);
            lemma_entries_model(entries@);
            assert(new_em =~= old_em.update(i as int, kv));
            assert(keys_ascending(new_em)) by {
                assert forall|x: int| 0 <= x < new_em.len() - 1 implies bytes_lt(#[trigger] new_em[x].0, new_em[x + 1].0) by {
                    assert(new_em[x].0 == old_em[x].0);
                    assert(new_em[x + 1].0 == old_em[x + 1].0);
                }
            }
            lemma_lookup_at(new_em, i as int);
            assert forall|k: Seq<u8>| k != kv.0 implies #[trigger] lookup(new_em, k) == lookup(old_em, k) by {
                lemma_lookup_cases(old_em, k);
                lemma_lookup_cases(new_em, k);
                if exists|j: int| 0 <= j < old_em.len() && old_em[j].0 == k {
                    let j = choose|j: int| 0 <= j < old_em.len() && old_em[j].0 == k;
                    assert(new_em[j] == old_em[j]);
                    lemma_lookup_at(new_em, j);
                    lemma_lookup_at(old_em, j);
                } else {
                    assert forall|j: int| 0 <= j < new_em.len() implies (#[trigger] new_em[j]).0 != k by {
                        if j != i {
                            assert(new_em[j] == old_em[j]);
                        }
                    }
                }
            }
        }
    } else {
        entries.insert(i, (key, value));
        proof {
            let new_em = entries_model(entries@);
            lemma_entries_model(entries@);
            assert(new_em =~= old_em.insert(i as int, kv));
            if i < old_em.len() {
                assert(old_em[i as int].0 != kv.0);
                lemma_bytes_lt_total(old_em[i as int].0, kv.0);
            }
            assert(keys_ascending(new_em)) by {
                assert forall|x: int| 0 <= x < new_em.len() - 1 implies bytes_lt(#[trigger] new_em[x].0, new_em[x + 1].0) by {
                    if x + 1 < i {
                        assert(new_em[x] == old_em[x] && new_em[x + 1] == old_em[x + 1]);
                    } else if x + 1 == i {
                        assert(new_em[x] == old_em[x]);
                    } else if x == i {
                        assert(new_em[x + 1] == old_em[x]);
                    } else {
                        assert(new_em[x] == old_em[x - 1] && new_em[x + 1] == old_em[x]);
                    }
                }
            }
            lemma_lookup_at(new_em, i as int);
            assert forall|k: Seq<u8>| k != kv.0 implies #[trigger] lookup(new_em, k) == lookup(old_em, k) by {
                lemma_lookup_cases(old_em, k);
                if exists|j: int| 0 <= j < old_em.len() && old_em[j].0 == k {
                    let j = choose|j: int| 0 <= j < old_em.len() && old_em[j].0 == k;
                    lemma_lookup_at(old_em, j);
                    if j < i {
                        assert(new_em[j] == old_em[j]);
                        lemma_lookup_at(new_em, j);
                    } else {
                        assert(new_em[j + 1] == old_em[j]);
                        lemma_lookup_at(new_em, j + 1);
                    }
                } else {
                    assert forall|j: int| 0 <= j < new_em.len() implies (#[trigger] new_em[j]).0 != k by {
                        if j < i {
                            assert(new_em[j] == old_em[j]);
                        } else if j > i {
                            assert(new_em[j] == old_em[j - 1]);
                        }
                    }
                    lemma_lookup_absent(new_em, k);
                }
            }
        }
    }
}

} // verus!
