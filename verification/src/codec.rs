//! Job envelope codec: serializes job descriptions to the store's byte-string
//! representation and back, losslessly.
//!
//! Every variable-length piece is length-prefixed with a decimal count, so no
//! field content can collide with a separator: distinct envelopes always get
//! distinct encodings.  Numbers end in `';'`, byte strings are `len ':' bytes`,
//! and argument values carry a one-byte tag (`n t f i d s a`).  Floats travel
//! as their IEEE 754 bit pattern, printed as a decimal integer.

use vstd::prelude::*;

use crate::CodecError;
use crate::wire::digits_of;
use crate::wire::spec_parse_num;
use crate::wire::parse_num;
use crate::wire::push_digits;
use crate::wire::push_all;

verus! {

/// Mathematical model of one argument value.
pub enum ValS {
    Null,
    Bool(bool),
    Int(i64),
    /// IEEE 754 double bit pattern.
    Float(u64),
    Str(Seq<u8>),
    List(Seq<ValS>),
}

/// One argument value of a job: string, integer, float (as bits), boolean,
/// null, or a nested list.
#[derive(Debug, PartialEq, Eq)]
pub enum ArgValue {
    Null,
    Bool(bool),
    Int(i64),
    /// IEEE 754 double bit pattern; the caller converts to and from `f64`.
    Float(u64),
    Str(Vec<u8>),
    List(Vec<ArgValue>),
}

/// Model of an executable argument value.
pub open spec fn val_view(v: ArgValue) -> ValS
    decreases v, 0nat,
{
    match v {
        ArgValue::Null => ValS::Null,
        ArgValue::Bool(b) => ValS::Bool(b),
        ArgValue::Int(i) => ValS::Int(i),
        ArgValue::Float(bits) => ValS::Float(bits),
        ArgValue::Str(s) => ValS::Str(s@),
        ArgValue::List(vs) => ValS::List(vals_view_from(vs, 0)),
    }
}

/// Models of the executable values `vs[i..]`.
pub open spec fn vals_view_from(vs: Vec<ArgValue>, i: int) -> Seq<ValS>
    decreases vs, vs@.len() - i + 1,
{
    if i < 0 || i >= vs@.len() {
        Seq::empty()
    } else {
        seq![val_view(vs@[i])] + vals_view_from(vs, i + 1)
    }
}

impl View for ArgValue {
    type V = ValS;

    open spec fn view(&self) -> ValS {
        val_view(*self)
    }
}

/// `vals_view_from(vs, i)` is the element-wise model of `vs[i..]`.
pub proof fn lemma_vals_view_from(vs: Vec<ArgValue>, i: int)
    requires
        0 <= i <= vs@.len(),
    ensures
        vals_view_from(vs, i).len() == vs@.len() - i,
        forall|j: int|
            0 <= j < vs@.len() - i ==> vals_view_from(vs, i)[j] == val_view(vs@[i + j]),
    decreases vs@.len() - i,
{
    if i < vs@.len() {
        lemma_vals_view_from(vs, i + 1);
    }
}

/// Encoding of a length-prefixed byte string.
pub open spec fn spec_enc_str(b: Seq<u8>) -> Seq<u8> {
    digits_of(b.len()) + seq![58u8] + b
}

/// Encoding of an unsigned number field.
pub open spec fn spec_enc_num(n: u64) -> Seq<u8> {
    digits_of(n as nat) + seq![59u8]
}

/// Encoding of a signed integer value (tag included).
pub open spec fn spec_enc_int(i: i64) -> Seq<u8> {
    if i < 0 {
        seq![105u8, 45u8] + digits_of((-i) as nat) + seq![59u8]
    } else {
        seq![105u8] + digits_of(i as nat) + seq![59u8]
    }
}

/// Encoding of one argument value.
pub open spec fn spec_enc_val(v: ValS) -> Seq<u8>
    decreases v, 0nat,
{
    match v {
        ValS::Null => seq![110u8],
        ValS::Bool(b) => if b {
            seq![116u8]
        } else {
            seq![102u8]
        },
        ValS::Int(i) => spec_enc_int(i),
        ValS::Float(bits) => seq![100u8] + digits_of(bits as nat) + seq![59u8],
        ValS::Str(b) => seq![115u8] + spec_enc_str(b),
        ValS::List(vs) => seq![97u8] + digits_of(vs.len()) + seq![59u8] + spec_enc_vals_from(
            vs,
            0,
        ),
    }
}

/// Concatenated encodings of `vs[i..]`.
pub open spec fn spec_enc_vals_from(vs: Seq<ValS>, i: int) -> Seq<u8>
    decreases vs, vs.len() - i + 1,
{
    if i < 0 || i >= vs.len() {
        Seq::empty()
    } else {
        spec_enc_val(vs[i]) + spec_enc_vals_from(vs, i + 1)
    }
}

/// Encoding of an argument list: a count, then the values in order.
pub open spec fn spec_enc_args(vs: Seq<ValS>) -> Seq<u8> {
    digits_of(vs.len()) + seq![59u8] + spec_enc_vals_from(vs, 0)
}

/// Argument values whose lengths fit the wire format's number fields.
/// Every executable value satisfies this.
pub open spec fn val_wf(v: ValS) -> bool
    decreases v, 0nat,
{
    match v {
        ValS::Null => true,
        ValS::Bool(_) => true,
        ValS::Int(_) => true,
        ValS::Float(_) => true,
        ValS::Str(b) => b.len() <= u64::MAX,
        ValS::List(vs) => vs.len() <= u64::MAX && vals_wf_from(vs, 0),
    }
}

/// Well-formedness of every value in `vs[i..]`.
pub open spec fn vals_wf_from(vs: Seq<ValS>, i: int) -> bool
    decreases vs, vs.len() - i + 1,
{
    if i < 0 || i >= vs.len() {
        true
    } else {
        val_wf(vs[i]) && vals_wf_from(vs, i + 1)
    }
}

/// Appends the encoding of one argument value to `out`.
pub fn encode_val(out: &mut Vec<u8>, v: &ArgValue)
    ensures
        final(out)@ == old(out)@ + spec_enc_val(v@),
        val_wf(v@),
    decreases *v, 0nat,
{
    match v {
        ArgValue::Null => {
            out.push(110);
            assert(out@ =~= old(out)@ + spec_enc_val(v@));
        },
        ArgValue::Bool(b) => {
            if *b {
                out.push(116);
            } else {
                out.push(102);
            }
            assert(out@ =~= old(out)@ + spec_enc_val(v@));
        },
        ArgValue::Int(i) => {
            out.push(105);
            if *i < 0 {
                out.push(45);
                let mag: u64 = ((-(*i as i128)) as u64);
                push_digits(out, mag);
            } else {
                push_digits(out, *i as u64);
            }
            out.push(59);
            assert(out@ =~= old(out)@ + spec_enc_val(v@));
        },
        ArgValue::Float(bits) => {
            out.push(100);
            push_digits(out, *bits);
            out.push(59);
            assert(out@ =~= old(out)@ + spec_enc_val(v@));
        },
        ArgValue::Str(s) => {
            out.push(115);
            push_digits(out, s.len() as u64);
            out.push(58);
            push_all(out, s);
            assert(out@ =~= old(out)@ + spec_enc_val(v@));
        },
        ArgValue::List(vs) => {
            out.push(97);
            push_digits(out, vs.len() as u64);
            out.push(59);
            proof {
                lemma_vals_view_from(*vs, 0);
            }
            encode_vals_from(out, vs, 0);
            assert(out@ =~= old(out)@ + spec_enc_val(v@));
        },
    }
}

/// Appends the encodings of the values `vs[i..]` to `out`.
fn encode_vals_from(out: &mut Vec<u8>, vs: &Vec<ArgValue>, i: usize)
    requires
        i <= vs@.len(),
    ensures
        final(out)@ == old(out)@ + spec_enc_vals_from(vals_view_from(*vs, 0), i as int),
        vals_wf_from(vals_view_from(*vs, 0), i as int),
    decreases *vs, vs@.len() - i + 1,
{
    let ghost w = vals_view_from(*vs, 0);
    proof {
        lemma_vals_view_from(*vs, 0);
    }
    if i < vs.len() {
        encode_val(out, &vs[i]);
        assert(val_wf(w[i as int]));
        encode_vals_from(out, vs, i + 1);
        proof {
            assert(spec_enc_vals_from(w, i as int) == spec_enc_val(w[i as int])
                + spec_enc_vals_from(w, i + 1));
            assert(out@ =~= old(out)@ + spec_enc_vals_from(w, i as int));
        }
    } else {
        assert(spec_enc_vals_from(w, i as int) =~= Seq::<u8>::empty());
        assert(out@ =~= old(out)@ + spec_enc_vals_from(w, i as int));
    }
}


/// Parses a length-prefixed byte string at `pos`.
pub open spec fn spec_parse_str(s: Seq<u8>, pos: int) -> Option<(Seq<u8>, int)> {
    match spec_parse_num(s, pos) {
        Some((n, p)) => if p < s.len() && s[p] == 58 && p + 1 + (n as int) <= s.len() {
            Some((s.subrange(p + 1, p + 1 + (n as int)), p + 1 + (n as int)))
        } else {
            None
        },
        None => None,
    }
}

/// Parses a `';'`-terminated unsigned number field at `pos`.
pub open spec fn spec_parse_numfield(s: Seq<u8>, pos: int) -> Option<(u64, int)> {
    match spec_parse_num(s, pos) {
        Some((n, p)) => if p < s.len() && s[p] == 59 {
            Some((n, p + 1))
        } else {
            None
        },
        None => None,
    }
}

/// Parses a signed integer body (after the `'i'` tag) at `pos`.
pub open spec fn spec_parse_int(s: Seq<u8>, pos: int) -> Option<(i64, int)> {
    if 0 <= pos < s.len() && s[pos] == 45 {
        match spec_parse_numfield(s, pos + 1) {
            Some((n, p)) => if n <= 0x8000000000000000 {
                Some(((-(n as int)) as i64, p))
            } else {
                None
            },
            None => None,
        }
    } else {
        match spec_parse_numfield(s, pos) {
            Some((n, p)) => if n <= i64::MAX as u64 {
                Some((n as i64, p))
            } else {
                None
            },
            None => None,
        }
    }
}

/// Parses one tagged argument value at `pos`.
pub open spec fn spec_parse_val(s: Seq<u8>, pos: int) -> Option<(ValS, int)>
    decreases s.len() - pos, 0nat, 0nat,
{
    if pos < 0 || pos >= s.len() {
        None
    } else {
        let t = s[pos];
        if t == 110 {
            Some((ValS::Null, pos + 1))
        } else if t == 116 {
            Some((ValS::Bool(true), pos + 1))
        } else if t == 102 {
            Some((ValS::Bool(false), pos + 1))
        } else if t == 105 {
            match spec_parse_int(s, pos + 1) {
                Some((i, p)) => Some((ValS::Int(i), p)),
                None => None,
            }
        } else if t == 100 {
            match spec_parse_numfield(s, pos + 1) {
                Some((n, p)) => Some((ValS::Float(n), p)),
                None => None,
            }
        } else if t == 115 {
            match spec_parse_str(s, pos + 1) {
                Some((b, p)) => Some((ValS::Str(b), p)),
                None => None,
            }
        } else if t == 97 {
            match spec_parse_numfield(s, pos + 1) {
                Some((k, p)) => if pos < p <= s.len() {
                    match spec_parse_vals(s, p, k as nat) {
                        Some((vs, p2)) => Some((ValS::List(vs), p2)),
                        None => None,
                    }
                } else {
                    None
                },
                None => None,
            }
        } else {
            None
        }
    }
}

/// Parses exactly `k` consecutive argument values starting at `pos`.
pub open spec fn spec_parse_vals(s: Seq<u8>, pos: int, k: nat) -> Option<(Seq<ValS>, int)>
    decreases s.len() - pos, 1nat, k,
{
    if k == 0 {
        Some((Seq::empty(), pos))
    } else if pos < 0 || pos > s.len() {
        None
    } else {
        match spec_parse_val(s, pos) {
            Some((v, p)) => if pos < p <= s.len() {
                match spec_parse_vals(s, p, (k - 1) as nat) {
                    Some((vs, p2)) => Some((seq![v] + vs, p2)),
                    None => None,
                }
            } else {
                None
            },
            None => None,
        }
    }
}

/// Every value encoding is non-empty.
pub proof fn lemma_enc_val_len_pos(v: ValS)
    ensures
        spec_enc_val(v).len() >= 1,
{
}


/// A window of `s` equal to `e` makes every sub-window equal to the matching
/// sub-window of `e`.
proof fn lemma_chunk(s: Seq<u8>, pos: int, e: Seq<u8>, a: int, b: int)
    requires
        0 <= pos,
        pos + e.len() <= s.len(),
        s.subrange(pos, pos + e.len() as int) == e,
        0 <= a <= b <= e.len(),
    ensures
        s.subrange(pos + a, pos + b) == e.subrange(a, b),
{
    assert forall|j: int| 0 <= j < b - a implies s.subrange(pos + a, pos + b)[j] == e.subrange(
        a,
        b,
    )[j] by {
        assert(s.subrange(pos, pos + e.len() as int)[a + j] == s[pos + a + j]);
    }
    assert(s.subrange(pos + a, pos + b) =~= e.subrange(a, b));
}

/// A window of `s` equal to `e` fixes each byte of the window.
proof fn lemma_byte(s: Seq<u8>, pos: int, e: Seq<u8>, j: int)
    requires
        0 <= pos,
        pos + e.len() <= s.len(),
        s.subrange(pos, pos + e.len() as int) == e,
        0 <= j < e.len(),
    ensures
        s[pos + j] == e[j],
{
    assert(s.subrange(pos, pos + e.len() as int)[j] == s[pos + j]);
}

/// A number field written at `pos` parses back to the same number.
pub proof fn lemma_parse_numfield_at(s: Seq<u8>, pos: int, n: u64)
    requires
        0 <= pos,
        pos + spec_enc_num(n).len() <= s.len(),
        s.subrange(pos, pos + spec_enc_num(n).len() as int) == spec_enc_num(n),
    ensures
        spec_parse_numfield(s, pos) == Some((n, pos + spec_enc_num(n).len() as int)),
{
    let d = crate::wire::digits_of(n as nat);
    let e = spec_enc_num(n);
    let dl = d.len() as int;
    assert(e.len() == dl + 1);
    lemma_chunk(s, pos, e, 0, dl);
    assert(e.subrange(0, dl) =~= d);
    lemma_byte(s, pos, e, dl);
    assert(e[dl] == 59);
    crate::wire::lemma_parse_digits_of(s, pos, n as nat);
}

/// A length-prefixed string written at `pos` parses back to the same bytes.
pub proof fn lemma_parse_str_at(s: Seq<u8>, pos: int, b: Seq<u8>)
    requires
        b.len() <= u64::MAX,
        0 <= pos,
        pos + spec_enc_str(b).len() <= s.len(),
        s.subrange(pos, pos + spec_enc_str(b).len() as int) == spec_enc_str(b),
    ensures
        spec_parse_str(s, pos) == Some((b, pos + spec_enc_str(b).len() as int)),
{
    let d = crate::wire::digits_of(b.len());
    let e = spec_enc_str(b);
    let dl = d.len() as int;
    assert(e.len() == dl + 1 + b.len());
    lemma_chunk(s, pos, e, 0, dl);
    assert(e.subrange(0, dl) =~= d);
    lemma_byte(s, pos, e, dl);
    assert(e[dl] == 58);
    crate::wire::lemma_parse_digits_of(s, pos, b.len());
    lemma_chunk(s, pos, e, dl + 1, e.len() as int);
    assert(e.subrange(dl + 1, e.len() as int) =~= b);
}

/// A signed integer written right after its `'i'` tag at `pos` parses back.
pub proof fn lemma_parse_int_at(s: Seq<u8>, pos: int, i: i64)
    requires
        0 <= pos,
        pos + spec_enc_int(i).len() <= s.len(),
        s.subrange(pos, pos + spec_enc_int(i).len() as int) == spec_enc_int(i),
    ensures
        spec_parse_int(s, pos + 1) == Some((i, pos + spec_enc_int(i).len() as int)),
{
    let e = spec_enc_int(i);
    if i < 0 {
        let m = (-i) as nat;
        let d = crate::wire::digits_of(m);
        let dl = d.len() as int;
        assert(e =~= seq![105u8, 45u8] + (d + seq![59u8]));
        assert(e.len() == dl + 3);
        lemma_byte(s, pos, e, 1);
        assert(e[1] == 45);
        lemma_chunk(s, pos, e, 2, e.len() as int);
        assert(e.subrange(2, e.len() as int) =~= d + seq![59u8]);
        assert(spec_enc_num(m as u64) =~= d + seq![59u8]);
        lemma_parse_numfield_at(s, pos + 2, m as u64);
        assert((-((m as u64) as int)) as i64 == i);
    } else {
        let d = crate::wire::digits_of(i as nat);
        let dl = d.len() as int;
        assert(e =~= seq![105u8] + (d + seq![59u8]));
        assert(e.len() == dl + 2);
        lemma_byte(s, pos, e, 1);
        crate::wire::lemma_digits_are_digits(i as nat);
        assert(e[1] == d[0]);
        assert(crate::wire::is_digit(s[pos + 1]));
        assert(s[pos + 1] != 45);
        lemma_chunk(s, pos, e, 1, e.len() as int);
        assert(e.subrange(1, e.len() as int) =~= d + seq![59u8]);
        assert(spec_enc_num(i as u64) =~= d + seq![59u8]);
        lemma_parse_numfield_at(s, pos + 1, i as u64);
    }
}

/// One well-formed value written at `pos` parses back to itself.
pub proof fn lemma_parse_val_at(s: Seq<u8>, pos: int, v: ValS)
    requires
        val_wf(v),
        0 <= pos,
        pos + spec_enc_val(v).len() <= s.len(),
        s.subrange(pos, pos + spec_enc_val(v).len() as int) == spec_enc_val(v),
    ensures
        spec_parse_val(s, pos) == Some((v, pos + spec_enc_val(v).len() as int)),
    decreases v, 0nat,
{
    let e = spec_enc_val(v);
    lemma_byte(s, pos, e, 0);
    match v {
        ValS::Null => {},
        ValS::Bool(b) => {},
        ValS::Int(i) => {
            lemma_parse_int_at(s, pos, i);
        },
        ValS::Float(bits) => {
            let d = crate::wire::digits_of(bits as nat);
            assert(e =~= seq![100u8] + (d + seq![59u8]));
            lemma_chunk(s, pos, e, 1, e.len() as int);
            assert(e.subrange(1, e.len() as int) =~= d + seq![59u8]);
            assert(spec_enc_num(bits) =~= d + seq![59u8]);
            lemma_parse_numfield_at(s, pos + 1, bits);
        },
        ValS::Str(b) => {
            assert(e =~= seq![115u8] + spec_enc_str(b));
            lemma_chunk(s, pos, e, 1, e.len() as int);
            assert(e.subrange(1, e.len() as int) =~= spec_enc_str(b));
            lemma_parse_str_at(s, pos + 1, b);
        },
        ValS::List(vs) => {
            let k = vs.len();
            let d = crate::wire::digits_of(k);
            let dl = d.len() as int;
            let body = spec_enc_vals_from(vs, 0);
            assert(e =~= seq![97u8] + (d + seq![59u8]) + body);
            assert(e.len() == 1 + dl + 1 + body.len());
            lemma_chunk(s, pos, e, 1, 1 + dl + 1);
            assert(e.subrange(1, 1 + dl + 1) =~= d + seq![59u8]);
            assert(spec_enc_num(k as u64) =~= d + seq![59u8]);
            lemma_parse_numfield_at(s, pos + 1, k as u64);
            let p = pos + 1 + dl + 1;
            lemma_chunk(s, pos, e, 1 + dl + 1, e.len() as int);
            assert(e.subrange(1 + dl + 1, e.len() as int) =~= body);
            lemma_parse_vals_at(s, p, vs, 0);
            assert(vs.subrange(0, vs.len() as int) =~= vs);
        },
    }
}

/// The values `w[i..]`, written consecutively at `pos`, parse back to
/// themselves.
pub proof fn lemma_parse_vals_at(s: Seq<u8>, pos: int, w: Seq<ValS>, i: int)
    requires
        0 <= i <= w.len(),
        vals_wf_from(w, i),
        0 <= pos,
        pos + spec_enc_vals_from(w, i).len() <= s.len(),
        s.subrange(pos, pos + spec_enc_vals_from(w, i).len() as int) == spec_enc_vals_from(w, i),
    ensures
        spec_parse_vals(s, pos, (w.len() - i) as nat) == Some(
            (w.subrange(i, w.len() as int), pos + spec_enc_vals_from(w, i).len() as int),
        ),
    decreases w, w.len() - i + 1,
{
    let e = spec_enc_vals_from(w, i);
    if i == w.len() {
        assert(e =~= Seq::<u8>::empty());
        assert(w.subrange(i, w.len() as int) =~= Seq::<ValS>::empty());
    } else {
        let head = spec_enc_val(w[i]);
        let tail = spec_enc_vals_from(w, i + 1);
        assert(e =~= head + tail);
        lemma_chunk(s, pos, e, 0, head.len() as int);
        assert(e.subrange(0, head.len() as int) =~= head);
        lemma_parse_val_at(s, pos, w[i]);
        lemma_enc_val_len_pos(w[i]);
        let p = pos + head.len() as int;
        lemma_chunk(s, pos, e, head.len() as int, e.len() as int);
        assert(e.subrange(head.len() as int, e.len() as int) =~= tail);
        lemma_parse_vals_at(s, p, w, i + 1);
        assert(seq![w[i]] + w.subrange(i + 1, w.len() as int) =~= w.subrange(i, w.len() as int));
    }
}


/// Parses a `';'`-terminated number field, as `spec_parse_numfield` describes.
fn parse_numfield(s: &Vec<u8>, pos: usize) -> (r: Option<(u64, usize)>)
    requires
        pos <= s@.len(),
    ensures
        match r {
            Some(t) => spec_parse_numfield(s@, pos as int) == Some((t.0, t.1 as int)) && pos
                < t.1 <= s@.len(),
            None => spec_parse_numfield(s@, pos as int) is None,
        },
{
    match parse_num(s, pos) {
        Some((n, p)) => {
            if p < s.len() && s[p] == 59 {
                Some((n, p + 1))
            } else {
                None
            }
        },
        None => None,
    }
}

/// Parses a length-prefixed byte string, as `spec_parse_str` describes.
fn parse_str(s: &Vec<u8>, pos: usize) -> (r: Option<(Vec<u8>, usize)>)
    requires
        pos <= s@.len(),
    ensures
        match r {
            Some(t) => spec_parse_str(s@, pos as int) == Some((t.0@, t.1 as int)) && pos < t.1
                <= s@.len(),
            None => spec_parse_str(s@, pos as int) is None,
        },
{
    match parse_num(s, pos) {
        Some((n, p)) => {
            if p < s.len() && s[p] == 58 {
                let avail: u64 = (s.len() - (p + 1)) as u64;
                if n <= avail {
                    let nn: usize = n as usize;
                    let mut b: Vec<u8> = Vec::new();
                    let mut j: usize = 0;
                    while j < nn
                        invariant
                            0 <= j <= nn,
                            p + 1 + nn <= s@.len(),
                            s@.len() <= usize::MAX,
                            b@ == s@.subrange(p + 1, p + 1 + j),
                        decreases nn - j,
                    {
                        b.push(s[p + 1 + j]);
                        assert(b@ =~= s@.subrange(p + 1, p + 1 + j + 1));
                        j = j + 1;
                    }
                    Some((b, p + 1 + nn))
                } else {
                    None
                }
            } else {
                None
            }
        },
        None => None,
    }
}

/// Parses a signed integer body (after the `'i'` tag), as `spec_parse_int`
/// describes.
fn parse_int(s: &Vec<u8>, pos: usize) -> (r: Option<(i64, usize)>)
    requires
        pos <= s@.len(),
    ensures
        match r {
            Some(t) => spec_parse_int(s@, pos as int) == Some((t.0, t.1 as int)) && pos < t.1
                <= s@.len(),
            None => spec_parse_int(s@, pos as int) is None,
        },
{
    if pos < s.len() && s[pos] == 45 {
        match parse_numfield(s, pos + 1) {
            Some((n, p)) => {
                if n <= 0x8000000000000000u64 {
                    let v: i64 = (-(n as i128)) as i64;
                    assert(v as int == -(n as int));
                    Some((v, p))
                } else {
                    None
                }
            },
            None => None,
        }
    } else {
        match parse_numfield(s, pos) {
            Some((n, p)) => {
                if n <= 0x7fffffffffffffffu64 {
                    Some((n as i64, p))
                } else {
                    None
                }
            },
            None => None,
        }
    }
}

/// Parses one tagged argument value, as `spec_parse_val` describes.
pub fn parse_val(s: &Vec<u8>, pos: usize) -> (r: Option<(ArgValue, usize)>)
    requires
        pos <= s@.len(),
    ensures
        match r {
            Some(t) => spec_parse_val(s@, pos as int) == Some((t.0@, t.1 as int)) && pos < t.1
                <= s@.len(),
            None => spec_parse_val(s@, pos as int) is None,
        },
    decreases s@.len() - pos, 0nat, 0nat,
{
    if pos >= s.len() {
        return None;
    }
    let t = s[pos];
    if t == 110 {
        Some((ArgValue::Null, pos + 1))
    } else if t == 116 {
        Some((ArgValue::Bool(true), pos + 1))
    } else if t == 102 {
        Some((ArgValue::Bool(false), pos + 1))
    } else if t == 105 {
        match parse_int(s, pos + 1) {
            Some((i, p)) => Some((ArgValue::Int(i), p)),
            None => None,
        }
    } else if t == 100 {
        match parse_numfield(s, pos + 1) {
            Some((n, p)) => Some((ArgValue::Float(n), p)),
            None => None,
        }
    } else if t == 115 {
        match parse_str(s, pos + 1) {
            Some((b, p)) => Some((ArgValue::Str(b), p)),
            None => None,
        }
    } else if t == 97 {
        match parse_numfield(s, pos + 1) {
            Some((k, p)) => {
                match parse_vals(s, p, k) {
                    Some((vs, p2)) => Some((ArgValue::List(vs), p2)),
                    None => None,
                }
            },
            None => None,
        }
    } else {
        None
    }
}

/// Parses exactly `k` consecutive values, as `spec_parse_vals` describes.
pub fn parse_vals(s: &Vec<u8>, pos: usize, k: u64) -> (r: Option<(Vec<ArgValue>, usize)>)
    requires
        pos <= s@.len(),
    ensures
        match r {
            Some(t) => spec_parse_vals(s@, pos as int, k as nat) == Some(
                (vals_view_from(t.0, 0), t.1 as int),
            ) && pos <= t.1 <= s@.len(),
            None => spec_parse_vals(s@, pos as int, k as nat) is None,
        },
    decreases s@.len() - pos, 1nat, k,
{
    if k == 0 {
        let vv: Vec<ArgValue> = Vec::new();
        assert(vals_view_from(vv, 0) =~= Seq::<ValS>::empty());
        Some((vv, pos))
    } else {
        match parse_val(s, pos) {
            Some((v, p)) => {
                match parse_vals(s, p, k - 1) {
                    Some((vv, p2)) => {
                        let mut vv2 = vv;
                        vv2.insert(0, v);
                        proof {
                            lemma_vals_view_from(vv2, 0);
                            let w0 = spec_parse_vals(s@, p as int, (k - 1) as nat)->Some_0.0;
                            lemma_vals_view_from(vv, 0);
                            assert(w0 == vals_view_from(vv, 0));
                            assert forall|j: int|
                                0 <= j < vv2@.len() implies vals_view_from(vv2, 0)[j] == (seq![
                                val_view(v),
                            ] + w0)[j] by {
                                assert(vals_view_from(vv2, 0)[j] == val_view(vv2@[j]));
                                if j == 0 {
                                    assert(vv2@[0] == v);
                                } else {
                                    assert(vv2@[j] == vv@[j - 1]);
                                    assert(vals_view_from(vv, 0)[j - 1] == val_view(vv@[j - 1]));
                                    assert((seq![val_view(v)] + w0)[j] == w0[j - 1]);
                                }
                            }
                            assert(vals_view_from(vv2, 0) =~= seq![val_view(v)] + w0);
                        }
                        Some((vv2, p2))
                    },
                    None => None,
                }
            },
            None => None,
        }
    }
}


/// A unit of dispatchable work: id, handler class, target queue, ordered
/// typed arguments, creation timestamp (epoch seconds), retry count and
/// retry limit.
#[derive(Debug, PartialEq, Eq)]
pub struct JobEnvelope {
    pub id: Vec<u8>,
    pub class: Vec<u8>,
    pub queue: Vec<u8>,
    pub args: Vec<ArgValue>,
    pub created: u64,
    pub retry: u64,
    pub max_retries: u64,
}

/// Mathematical model of a job envelope.
#[verifier::ext_equal]
pub struct EnvS {
    pub id: Seq<u8>,
    pub class: Seq<u8>,
    pub queue: Seq<u8>,
    pub args: Seq<ValS>,
    pub created: u64,
    pub retry: u64,
    pub max_retries: u64,
}

impl View for JobEnvelope {
    type V = EnvS;

    open spec fn view(&self) -> EnvS {
        EnvS {
            id: self.id@,
            class: self.class@,
            queue: self.queue@,
            args: vals_view_from(self.args, 0),
            created: self.created,
            retry: self.retry,
            max_retries: self.max_retries,
        }
    }
}

/// Envelopes whose lengths fit the wire format's number fields.  Every
/// executable envelope satisfies this.
pub open spec fn env_wf(e: EnvS) -> bool {
    &&& e.id.len() <= u64::MAX
    &&& e.class.len() <= u64::MAX
    &&& e.queue.len() <= u64::MAX
    &&& e.args.len() <= u64::MAX
    &&& vals_wf_from(e.args, 0)
}

/// Encoding of a whole envelope: three strings, the argument list, then
/// three number fields, in a fixed order.
pub open spec fn spec_enc_env(e: EnvS) -> Seq<u8> {
    spec_enc_str(e.id) + spec_enc_str(e.class) + spec_enc_str(e.queue) + spec_enc_args(e.args)
        + spec_enc_num(e.created) + spec_enc_num(e.retry) + spec_enc_num(e.max_retries)
}

/// Decoding of a whole envelope; `None` on any structural violation,
/// including trailing bytes.
pub open spec fn spec_dec_env(s: Seq<u8>) -> Option<EnvS> {
    match spec_parse_str(s, 0) {
        Some((id, p1)) => match spec_parse_str(s, p1) {
            Some((class, p2)) => match spec_parse_str(s, p2) {
                Some((queue, p3)) => match spec_parse_numfield(s, p3) {
                    Some((k, p4)) => match spec_parse_vals(s, p4, k as nat) {
                        Some((args, p5)) => match spec_parse_numfield(s, p5) {
                            Some((created, p6)) => match spec_parse_numfield(s, p6) {
                                Some((retry, p7)) => match spec_parse_numfield(s, p7) {
                                    Some((maxr, p8)) => if p8 == s.len() {
                                        Some(
                                            EnvS {
                                                id,
                                                class,
                                                queue,
                                                args,
                                                created,
                                                retry,
                                                max_retries: maxr,
                                            },
                                        )
                                    } else {
                                        None
                                    },
                                    None => None,
                                },
                                None => None,
                            },
                            None => None,
                        },
                        None => None,
                    },
                    None => None,
                },
                None => None,
            },
            None => None,
        },
        None => None,
    }
}

/// Appends a length-prefixed string field to `out`.
fn push_str_field(out: &mut Vec<u8>, b: &Vec<u8>)
    ensures
        final(out)@ == old(out)@ + spec_enc_str(b@),
        b@.len() <= u64::MAX,
{
    push_digits(out, b.len() as u64);
    out.push(58);
    push_all(out, b);
    assert(out@ =~= old(out)@ + spec_enc_str(b@));
}

/// Appends a `';'`-terminated number field to `out`.
fn push_num_field(out: &mut Vec<u8>, n: u64)
    ensures
        final(out)@ == old(out)@ + spec_enc_num(n),
{
    push_digits(out, n);
    out.push(59);
    assert(out@ =~= old(out)@ + spec_enc_num(n));
}

/// Serializes an envelope to its store representation.
pub fn encode(e: &JobEnvelope) -> (r: Vec<u8>)
    ensures
        r@ == spec_enc_env(e@),
        env_wf(e@),
{
    let mut out: Vec<u8> = Vec::new();
    push_str_field(&mut out, &e.id);
    push_str_field(&mut out, &e.class);
    push_str_field(&mut out, &e.queue);
    push_digits(&mut out, e.args.len() as u64);
    out.push(59);
    proof {
        lemma_vals_view_from(e.args, 0);
    }
    encode_vals_from(&mut out, &e.args, 0);
    push_num_field(&mut out, e.created);
    push_num_field(&mut out, e.retry);
    push_num_field(&mut out, e.max_retries);
    assert(out@ =~= spec_enc_env(e@));
    out
}

/// Deserializes an envelope from its store representation; fails with
/// `MalformedEnvelope` exactly when the bytes are not a valid encoding.
pub fn decode(s: &Vec<u8>) -> (r: Result<JobEnvelope, CodecError>)
    ensures
        match r {
            Ok(env) => spec_dec_env(s@) == Some(env@),
            Err(err) => spec_dec_env(s@) is None && err == CodecError::MalformedEnvelope,
        },
{
    let id = match parse_str(s, 0) {
        Some(t) => t,
        None => {
            return Err(CodecError::MalformedEnvelope);
        },
    };
    let class = match parse_str(s, id.1) {
        Some(t) => t,
        None => {
            return Err(CodecError::MalformedEnvelope);
        },
    };
    let queue = match parse_str(s, class.1) {
        Some(t) => t,
        None => {
            return Err(CodecError::MalformedEnvelope);
        },
    };
    let count = match parse_numfield(s, queue.1) {
        Some(t) => t,
        None => {
            return Err(CodecError::MalformedEnvelope);
        },
    };
    let args = match parse_vals(s, count.1, count.0) {
        Some(t) => t,
        None => {
            return Err(CodecError::MalformedEnvelope);
        },
    };
    let created = match parse_numfield(s, args.1) {
        Some(t) => t,
        None => {
            return Err(CodecError::MalformedEnvelope);
        },
    };
    let retry = match parse_numfield(s, created.1) {
        Some(t) => t,
        None => {
            return Err(CodecError::MalformedEnvelope);
        },
    };
    let maxr = match parse_numfield(s, retry.1) {
        Some(t) => t,
        None => {
            return Err(CodecError::MalformedEnvelope);
        },
    };
    if maxr.1 != s.len() {
        return Err(CodecError::MalformedEnvelope);
    }
    let env = JobEnvelope {
        id: id.0,
        class: class.0,
        queue: queue.0,
        args: args.0,
        created: created.0,
        retry: retry.0,
        max_retries: maxr.0,
    };
    assert(env@ =~= spec_dec_env(s@)->Some_0);
    Ok(env)
}

/// Round trip: decoding an encoded well-formed envelope yields the same
/// envelope.  Distinct envelopes therefore have distinct encodings.
#[verifier::rlimit(100)]
pub proof fn lemma_envelope_round_trip(e: EnvS)
    requires
        env_wf(e),
    ensures
        spec_dec_env(spec_enc_env(e)) == Some(e),
{
    let s = spec_enc_env(e);
    let e1 = spec_enc_str(e.id);
    let e2 = spec_enc_str(e.class);
    let e3 = spec_enc_str(e.queue);
    let e4 = spec_enc_args(e.args);
    let e5 = spec_enc_num(e.created);
    let e6 = spec_enc_num(e.retry);
    let e7 = spec_enc_num(e.max_retries);
    let p1 = e1.len() as int;
    let p2 = p1 + e2.len() as int;
    let p3 = p2 + e3.len() as int;
    let p4 = p3 + e4.len() as int;
    let p5 = p4 + e5.len() as int;
    let p6 = p5 + e6.len() as int;
    let p7 = p6 + e7.len() as int;
    assert(s.len() == p7);
    assert(s.subrange(0, p1) =~= e1);
    assert(s.subrange(p1, p2) =~= e2);
    assert(s.subrange(p2, p3) =~= e3);
    assert(s.subrange(p3, p4) =~= e4);
    assert(s.subrange(p4, p5) =~= e5);
    assert(s.subrange(p5, p6) =~= e6);
    assert(s.subrange(p6, p7) =~= e7);
    lemma_parse_str_at(s, 0, e.id);
    lemma_parse_str_at(s, p1, e.class);
    lemma_parse_str_at(s, p2, e.queue);
    let k = e.args.len() as u64;
    let d = crate::wire::digits_of(e.args.len());
    let dl = d.len() as int;
    let body = spec_enc_vals_from(e.args, 0);
    assert(e4 =~= (d + seq![59u8]) + body);
    lemma_chunk(s, p3, e4, 0, dl + 1);
    assert(e4.subrange(0, dl + 1) =~= d + seq![59u8]);
    assert(spec_enc_num(k) =~= d + seq![59u8]);
    lemma_parse_numfield_at(s, p3, k);
    lemma_chunk(s, p3, e4, dl + 1, e4.len() as int);
    assert(e4.subrange(dl + 1, e4.len() as int) =~= body);
    lemma_parse_vals_at(s, p3 + dl + 1, e.args, 0);
    assert(e.args.subrange(0, e.args.len() as int) =~= e.args);
    lemma_parse_numfield_at(s, p4, e.created);
    lemma_parse_numfield_at(s, p5, e.retry);
    lemma_parse_numfield_at(s, p6, e.max_retries);
    assert(spec_dec_env(s)->Some_0 =~= e);
}

/// A durable recurring-job definition: unique name, cron expression text,
/// target queue, handler class, and a fixed argument list.  Its next-run
/// time lives in the store as the score of its entry in the periodic set.
#[derive(Debug, PartialEq, Eq)]
pub struct PeriodicJobDefinition {
    pub name: Vec<u8>,
    pub cron: Vec<u8>,
    pub queue: Vec<u8>,
    pub class: Vec<u8>,
    pub args: Vec<ArgValue>,
}

/// Mathematical model of a periodic job definition.
#[verifier::ext_equal]
pub struct DefS {
    pub name: Seq<u8>,
    pub cron: Seq<u8>,
    pub queue: Seq<u8>,
    pub class: Seq<u8>,
    pub args: Seq<ValS>,
}

impl View for PeriodicJobDefinition {
    type V = DefS;

    open spec fn view(&self) -> DefS {
        DefS {
            name: self.name@,
            cron: self.cron@,
            queue: self.queue@,
            class: self.class@,
            args: vals_view_from(self.args, 0),
        }
    }
}

/// Definitions whose lengths fit the wire format's number fields.
pub open spec fn def_wf(d: DefS) -> bool {
    &&& d.name.len() <= u64::MAX
    &&& d.cron.len() <= u64::MAX
    &&& d.queue.len() <= u64::MAX
    &&& d.class.len() <= u64::MAX
    &&& d.args.len() <= u64::MAX
    &&& vals_wf_from(d.args, 0)
}

/// Encoding of a periodic definition: four strings then the argument list.
pub open spec fn spec_enc_def(d: DefS) -> Seq<u8> {
    spec_enc_str(d.name) + spec_enc_str(d.cron) + spec_enc_str(d.queue) + spec_enc_str(d.class)
        + spec_enc_args(d.args)
}

/// Decoding of a periodic definition; `None` on any structural violation.
pub open spec fn spec_dec_def(s: Seq<u8>) -> Option<DefS> {
    match spec_parse_str(s, 0) {
        Some((name, p1)) => match spec_parse_str(s, p1) {
            Some((cron, p2)) => match spec_parse_str(s, p2) {
                Some((queue, p3)) => match spec_parse_str(s, p3) {
                    Some((class, p4)) => match spec_parse_numfield(s, p4) {
                        Some((k, p5)) => match spec_parse_vals(s, p5, k as nat) {
                            Some((args, p6)) => if p6 == s.len() {
                                Some(DefS { name, cron, queue, class, args })
                            } else {
                                None
                            },
                            None => None,
                        },
                        None => None,
                    },
                    None => None,
                },
                None => None,
            },
            None => None,
        },
        None => None,
    }
}

/// Serializes a periodic definition to its store representation.
pub fn encode_definition(d: &PeriodicJobDefinition) -> (r: Vec<u8>)
    ensures
        r@ == spec_enc_def(d@),
        def_wf(d@),
{
    let mut out: Vec<u8> = Vec::new();
    push_str_field(&mut out, &d.name);
    push_str_field(&mut out, &d.cron);
    push_str_field(&mut out, &d.queue);
    push_str_field(&mut out, &d.class);
    push_digits(&mut out, d.args.len() as u64);
    out.push(59);
    proof {
        lemma_vals_view_from(d.args, 0);
    }
    encode_vals_from(&mut out, &d.args, 0);
    assert(out@ =~= spec_enc_def(d@));
    out
}

/// Deserializes a periodic definition; fails with `MalformedEnvelope`
/// exactly when the bytes are not a valid encoding.
pub fn decode_definition(s: &Vec<u8>) -> (r: Result<PeriodicJobDefinition, CodecError>)
    ensures
        match r {
            Ok(d) => spec_dec_def(s@) == Some(d@),
            Err(err) => spec_dec_def(s@) is None && err == CodecError::MalformedEnvelope,
        },
{
    let name = match parse_str(s, 0) {
        Some(t) => t,
        None => {
            return Err(CodecError::MalformedEnvelope);
        },
    };
    let cron = match parse_str(s, name.1) {
        Some(t) => t,
        None => {
            return Err(CodecError::MalformedEnvelope);
        },
    };
    let queue = match parse_str(s, cron.1) {
        Some(t) => t,
        None => {
            return Err(CodecError::MalformedEnvelope);
        },
    };
    let class = match parse_str(s, queue.1) {
        Some(t) => t,
        None => {
            return Err(CodecError::MalformedEnvelope);
        },
    };
    let count = match parse_numfield(s, class.1) {
        Some(t) => t,
        None => {
            return Err(CodecError::MalformedEnvelope);
        },
    };
    let args = match parse_vals(s, count.1, count.0) {
        Some(t) => t,
        None => {
            return Err(CodecError::MalformedEnvelope);
        },
    };
    if args.1 != s.len() {
        return Err(CodecError::MalformedEnvelope);
    }
    let d = PeriodicJobDefinition {
        name: name.0,
        cron: cron.0,
        queue: queue.0,
        class: class.0,
        args: args.0,
    };
    assert(d@ =~= spec_dec_def(s@)->Some_0);
    Ok(d)
}

/// Round trip: decoding an encoded well-formed definition yields the same
/// definition.
#[verifier::rlimit(100)]
pub proof fn lemma_definition_round_trip(d: DefS)
    requires
        def_wf(d),
    ensures
        spec_dec_def(spec_enc_def(d)) == Some(d),
{
    let s = spec_enc_def(d);
    let e1 = spec_enc_str(d.name);
    let e2 = spec_enc_str(d.cron);
    let e3 = spec_enc_str(d.queue);
    let e4 = spec_enc_str(d.class);
    let e5 = spec_enc_args(d.args);
    let p1 = e1.len() as int;
    let p2 = p1 + e2.len() as int;
    let p3 = p2 + e3.len() as int;
    let p4 = p3 + e4.len() as int;
    let p5 = p4 + e5.len() as int;
    assert(s.len() == p5);
    assert(s.subrange(0, p1) =~= e1);
    assert(s.subrange(p1, p2) =~= e2);
    assert(s.subrange(p2, p3) =~= e3);
    assert(s.subrange(p3, p4) =~= e4);
    assert(s.subrange(p4, p5) =~= e5);
    lemma_parse_str_at(s, 0, d.name);
    lemma_parse_str_at(s, p1, d.cron);
    lemma_parse_str_at(s, p2, d.queue);
    lemma_parse_str_at(s, p3, d.class);
    let k = d.args.len() as u64;
    let dd = crate::wire::digits_of(d.args.len());
    let dl = dd.len() as int;
    let body = spec_enc_vals_from(d.args, 0);
    assert(e5 =~= (dd + seq![59u8]) + body);
    lemma_chunk(s, p4, e5, 0, dl + 1);
    assert(e5.subrange(0, dl + 1) =~= dd + seq![59u8]);
    assert(spec_enc_num(k) =~= dd + seq![59u8]);
    lemma_parse_numfield_at(s, p4, k);
    lemma_chunk(s, p4, e5, dl + 1, e5.len() as int);
    assert(e5.subrange(dl + 1, e5.len() as int) =~= body);
    lemma_parse_vals_at(s, p4 + dl + 1, d.args, 0);
    assert(d.args.subrange(0, d.args.len() as int) =~= d.args);
    assert(spec_dec_def(s)->Some_0 =~= d);
}

} // verus!
