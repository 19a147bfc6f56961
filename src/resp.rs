//! The wire protocol: values, their byte encoding, and a decoder that reports
//! a complete frame, a frame still being received, or malformed input.
use crate::decimal::{
    decimal_digits, fits_i64, i64_of, lemma_signed_text_value, parse_i64, push_digits,
    push_signed, signed_text,
};
use crate::bytes::copy_range;
use vstd::prelude::*;

verus! {

/// The largest payload that a bulk value may declare.
pub const MAX_BULK_LEN: i64 = 536870912;

/// The largest element count that an aggregate may declare.
pub const MAX_AGGREGATE_LEN: i64 = 1048576;

/// A value of the wire protocol.
#[derive(Debug, PartialEq, Eq)]
pub enum Resp {
    SimpleString(Vec<u8>),
    SimpleError(Vec<u8>),
    Integer(i64),
    /// `None` is the null reply.
    BulkString(Option<Vec<u8>>),
    Array(Vec<Resp>),
}

/// The mathematical model of a wire value.
pub enum Wire {
    Status(Seq<u8>),
    Error(Seq<u8>),
    Integer(int),
    Bulk(Option<Seq<u8>>),
    Aggregate(Seq<Wire>),
}

/// The models of the first `n` elements of an array value.
pub open spec fn wire_items(r: Resp, n: int) -> Seq<Wire>
    decreases r, 0int, n,
{
    match r {
        Resp::Array(items) => if 0 < n <= items.len() {
            wire_items(r, n - 1).push(wire_of(items[n - 1]))
        } else {
            Seq::empty()
        },
        _ => Seq::empty(),
    }
}

pub open spec fn wire_of(r: Resp) -> Wire
    decreases r, 1int, 0int,
{
    match r {
        Resp::SimpleString(t) => Wire::Status(t@),
        Resp::SimpleError(t) => Wire::Error(t@),
        Resp::Integer(n) => Wire::Integer(n as int),
        Resp::BulkString(p) => Wire::Bulk(
            match p {
                Some(b) => Some(b@),
                None => None,
            },
        ),
        Resp::Array(items) => Wire::Aggregate(wire_items(r, items.len() as int)),
    }
}

impl View for Resp {
    type V = Wire;

    open spec fn view(&self) -> Wire {
        wire_of(*self)
    }
}

pub proof fn lemma_wire_items(r: Resp, n: int)
    requires
        r is Array,
        0 <= n <= r->Array_0.len(),
    ensures
        wire_items(r, n).len() == n,
        forall|j: int| 0 <= j < n ==> #[trigger] wire_items(r, n)[j] == wire_of(r->Array_0[j]),
    decreases n,
{
    if n > 0 {
        lemma_wire_items(r, n - 1);
    }
}

pub open spec fn crlf() -> Seq<u8> {
    seq![13u8, 10u8]
}

/// The text of a status or error line: no CR or LF inside.
pub open spec fn line_text_ok(t: Seq<u8>) -> bool {
    forall|i: int| 0 <= i < t.len() ==> #[trigger] t[i] != 13u8 && t[i] != 10u8
}

/// A value that can be sent: line texts without line breaks, integers of
/// 64 bits, lengths within the limits that the decoder accepts.
pub open spec fn wire_wf(w: Wire) -> bool
    decreases w,
{
    match w {
        Wire::Status(t) => line_text_ok(t),
        Wire::Error(t) => line_text_ok(t),
        Wire::Integer(n) => fits_i64(n),
        Wire::Bulk(Some(p)) => p.len() <= MAX_BULK_LEN,
        Wire::Bulk(None) => true,
        Wire::Aggregate(items) => items.len() <= MAX_AGGREGATE_LEN && forall|i: int|
            0 <= i < items.len() ==> wire_wf(#[trigger] items[i]),
    }
}

/// The bytes of a value on the wire.
pub open spec fn encode_wire(w: Wire) -> Seq<u8>
    decreases w, 1int, 0int,
{
    match w {
        Wire::Status(t) => seq![43u8] + t + crlf(),
        Wire::Error(t) => seq![45u8] + t + crlf(),
        Wire::Integer(n) => seq![58u8] + signed_text(n) + crlf(),
        Wire::Bulk(None) => seq![36u8, 45u8, 49u8] + crlf(),
        Wire::Bulk(Some(p)) => seq![36u8] + decimal_digits(p.len()) + crlf() + p + crlf(),
        Wire::Aggregate(items) => seq![42u8] + decimal_digits(items.len()) + crlf() + encode_items(
            w,
            items.len() as int,
        ),
    }
}

/// The bytes of the first `n` elements of an aggregate.
pub open spec fn encode_items(w: Wire, n: int) -> Seq<u8>
    decreases w, 0int, n,
{
    match w {
        Wire::Aggregate(items) => if 0 < n <= items.len() {
            encode_items(w, n - 1) + encode_wire(items[n - 1])
        } else {
            Seq::empty()
        },
        _ => Seq::empty(),
    }
}

/// What decoding finds at a position.
pub enum Parsed {
    /// A whole value, and the position just after it.
    Done(Wire, int),
    /// The bytes so far are the start of a value: more must arrive.
    Incomplete,
    /// The bytes cannot start a value.
    Invalid,
}

pub enum ParsedItems {
    Done(Seq<Wire>, int),
    Incomplete,
    Invalid,
}

/// A header line: its text and the position after its CRLF.
pub enum Line {
    Text(Seq<u8>, int),
    Incomplete,
    Invalid,
}

pub open spec fn is_space(b: u8) -> bool {
    b == 32u8 || b == 13u8 || b == 10u8
}

/// The first position at or after `pos` that holds no blank, CR or LF.
pub open spec fn skip_space(buf: Seq<u8>, pos: int) -> int
    decreases buf.len() - pos,
{
    if 0 <= pos < buf.len() && is_space(buf[pos]) {
        skip_space(buf, pos + 1)
    } else {
        pos
    }
}

/// The first CR at or after `pos`.
pub open spec fn find_cr(buf: Seq<u8>, pos: int) -> Option<int>
    decreases buf.len() - pos,
{
    if pos < 0 || pos >= buf.len() {
        None
    } else if buf[pos] == 13u8 {
        Some(pos)
    } else {
        find_cr(buf, pos + 1)
    }
}

/// The line that starts at `start`: its text runs up to the first CR, which
/// must be followed by LF.
pub open spec fn read_line(buf: Seq<u8>, start: int) -> Line {
    match find_cr(buf, start) {
        None => Line::Incomplete,
        Some(i) => if i + 1 >= buf.len() {
            Line::Incomplete
        } else if buf[i + 1] != 10u8 {
            Line::Invalid
        } else {
            Line::Text(buf.subrange(start, i), i + 2)
        },
    }
}

/// Decoding at `pos`: blanks and line breaks are skipped, then one value is
/// read according to its first byte.
pub open spec fn parse_at(buf: Seq<u8>, pos: int) -> Parsed
    decreases buf.len() - pos, 0int, 1int,
{
    let p = skip_space(buf, pos);
    if p < pos || p >= buf.len() {
        Parsed::Incomplete
    } else {
        parse_frame(buf, p)
    }
}

/// Decoding the value whose first byte is at `p`.
pub open spec fn parse_frame(buf: Seq<u8>, p: int) -> Parsed
    decreases buf.len() - p, 0int, 0int,
{
    if p < 0 || p >= buf.len() {
        Parsed::Incomplete
    } else {
        let tag = buf[p];
        if tag == 43u8 || tag == 45u8 || tag == 58u8 || tag == 36u8 || tag == 42u8 {
            match read_line(buf, p + 1) {
                Line::Incomplete => Parsed::Incomplete,
                Line::Invalid => Parsed::Invalid,
                Line::Text(t, e) => if tag == 43u8 || tag == 45u8 {
                    if line_text_ok(t) {
                        Parsed::Done(
                            if tag == 43u8 {
                                Wire::Status(t)
                            } else {
                                Wire::Error(t)
                            },
                            e,
                        )
                    } else {
                        Parsed::Invalid
                    }
                } else {
                    match i64_of(t) {
                        None => Parsed::Invalid,
                        Some(v) => if tag == 58u8 {
                            Parsed::Done(Wire::Integer(v as int), e)
                        } else if tag == 36u8 {
                            if v == -1 {
                                Parsed::Done(Wire::Bulk(None), e)
                            } else if v < 0 || v > MAX_BULK_LEN {
                                Parsed::Invalid
                            } else if e + v + 2 > buf.len() {
                                Parsed::Incomplete
                            } else if buf[e + v] != 13u8 || buf[e + v + 1] != 10u8 {
                                Parsed::Invalid
                            } else {
                                Parsed::Done(Wire::Bulk(Some(buf.subrange(e, e + v))), e + v + 2)
                            }
                        } else {
                            if v == -1 {
                                Parsed::Done(Wire::Aggregate(Seq::empty()), e)
                            } else if v < 0 || v > MAX_AGGREGATE_LEN {
                                Parsed::Invalid
                            } else if e <= p || e > buf.len() {
                                // positions only move forward
                                Parsed::Invalid
                            } else {
                                match parse_items(buf, e, v as int) {
                                    ParsedItems::Done(ws, e2) => Parsed::Done(
                                        Wire::Aggregate(ws),
                                        e2,
                                    ),
                                    ParsedItems::Incomplete => Parsed::Incomplete,
                                    ParsedItems::Invalid => Parsed::Invalid,
                                }
                            }
                        },
                    }
                },
            }
        } else {
            Parsed::Invalid
        }
    }
}

/// Decoding `n` values one after another from `start`.
pub open spec fn parse_items(buf: Seq<u8>, start: int, n: int) -> ParsedItems
    decreases buf.len() - start, 1int, n,
{
    if n <= 0 {
        ParsedItems::Done(Seq::empty(), start)
    } else {
        match parse_items(buf, start, n - 1) {
            ParsedItems::Done(ws, e) => if start <= e <= buf.len() {
                match parse_at(buf, e) {
                    Parsed::Done(w, e2) => ParsedItems::Done(ws.push(w), e2),
                    Parsed::Incomplete => ParsedItems::Incomplete,
                    Parsed::Invalid => ParsedItems::Invalid,
                }
            } else {
                ParsedItems::Invalid
            },
            ParsedItems::Incomplete => ParsedItems::Incomplete,
            ParsedItems::Invalid => ParsedItems::Invalid,
        }
    }
}

fn push_crlf(out: &mut Vec<u8>)
    ensures
        final(out)@ == old(out)@ + crlf(),
{
    out.push(13u8);
    out.push(10u8);
    assert(final(out)@ =~= old(out)@ + crlf());
}

fn push_bytes(out: &mut Vec<u8>, b: &Vec<u8>)
    ensures
        final(out)@ == old(out)@ + b@,
{
    let mut i: usize = 0;
    while i < b.len()
        invariant
            0 <= i <= b@.len(),
            out@ == old(out)@ + b@.subrange(0, i as int),
        decreases b@.len() - i,
    {
        out.push(b[i]);
        i = i + 1;
        assert(out@ =~= old(out)@ + b@.subrange(0, i as int));
    }
    assert(b@.subrange(0, i as int) =~= b@);
}

/// Appends the digits of a length.
fn push_len(out: &mut Vec<u8>, n: usize)
    ensures
        final(out)@ == old(out)@ + decimal_digits(n as nat),
{
    push_digits(out, n as u64);
}

/// Appends the bytes of `v` to `out`.
pub fn write_resp(out: &mut Vec<u8>, v: &Resp)
    ensures
        final(out)@ == old(out)@ + encode_wire(v@),
    decreases v,
{
    match v {
        Resp::SimpleString(t) => {
            out.push(43u8);
            push_bytes(out, t);
            push_crlf(out);
            assert(final(out)@ =~= old(out)@ + encode_wire(v@));
        },
        Resp::SimpleError(t) => {
            out.push(45u8);
            push_bytes(out, t);
            push_crlf(out);
            assert(final(out)@ =~= old(out)@ + encode_wire(v@));
        },
        Resp::Integer(n) => {
            out.push(58u8);
            push_signed(out, *n);
            push_crlf(out);
            assert(final(out)@ =~= old(out)@ + encode_wire(v@));
        },
        Resp::BulkString(None) => {
            out.push(36u8);
            out.push(45u8);
            out.push(49u8);
            push_crlf(out);
            assert(final(out)@ =~= old(out)@ + encode_wire(v@));
        },
        Resp::BulkString(Some(p)) => {
            out.push(36u8);
            push_len(out, p.len());
            push_crlf(out);
            push_bytes(out, p);
            push_crlf(out);
            assert(final(out)@ =~= old(out)@ + encode_wire(v@));
        },
        Resp::Array(items) => {
            let ghost w = v@;
            proof {
                lemma_wire_items(*v, items@.len() as int);
            }
            out.push(42u8);
            push_len(out, items.len());
            push_crlf(out);
            let ghost head = out@;
            let mut i: usize = 0;
            while i < items.len()
                invariant
                    0 <= i <= items@.len(),
                    *v == Resp::Array(*items),
                    w == wire_of(*v),
                    w == Wire::Aggregate(wire_items(*v, items@.len() as int)),
                    wire_items(*v, items@.len() as int).len() == items@.len(),
                    forall|j: int|
                        0 <= j < items@.len() ==> #[trigger] wire_items(*v, items@.len() as int)[j]
                            == wire_of(items@[j]),
                    out@ == head + encode_items(w, i as int),
                decreases items@.len() - i,
            {
                proof {
                    vstd::std_specs::vec::axiom_vec_index_decreases(*items, i as int);
                    assert(decreases_to!(*v => (*v)->Array_0));
                }
                let item = &items[i];

                write_resp(out, item);
                i = i + 1;
                assert(out@ =~= head + encode_items(w, i as int));
            }
            assert(final(out)@ =~= old(out)@ + encode_wire(v@));
        },
    }
}

impl Resp {
    /// The bytes of this value on the wire.
    pub fn encode(&self) -> (r: Vec<u8>)
        ensures
            r@ == encode_wire(self@),
    {
        let mut out: Vec<u8> = Vec::new();
        write_resp(&mut out, self);
        assert(out@ =~= encode_wire(self@));
        out
    }
}

proof fn lemma_sub_segment(buf: Seq<u8>, pos: int, s: Seq<u8>, a: int, b: int)
    requires
        0 <= pos,
        pos + s.len() <= buf.len(),
        buf.subrange(pos, pos + s.len()) == s,
        0 <= a <= b <= s.len(),
    ensures
        buf.subrange(pos + a, pos + b) == s.subrange(a, b),
{
    assert forall|k: int| 0 <= k < b - a implies #[trigger] buf.subrange(pos + a, pos + b)[k]
        == s.subrange(a, b)[k] by {
        assert(buf.subrange(pos, pos + s.len())[a + k] == buf[pos + a + k]);
    }
    assert(buf.subrange(pos + a, pos + b) =~= s.subrange(a, b));
}

proof fn lemma_byte_at(buf: Seq<u8>, pos: int, s: Seq<u8>, k: int)
    requires
        0 <= pos,
        pos + s.len() <= buf.len(),
        buf.subrange(pos, pos + s.len()) == s,
        0 <= k < s.len(),
    ensures
        buf[pos + k] == s[k],
{
    assert(buf.subrange(pos, pos + s.len())[k] == buf[pos + k]);
}

proof fn lemma_find_cr_at(buf: Seq<u8>, start: int, i: int)
    requires
        0 <= start <= i < buf.len(),
        buf[i] == 13u8,
        forall|j: int| start <= j < i ==> buf[j] != 13u8,
    ensures
        find_cr(buf, start) == Some(i),
    decreases i - start,
{
    if start < i {
        lemma_find_cr_at(buf, start + 1, i);
    }
}

/// A line whose text holds no CR reads back as that text.
proof fn lemma_read_line(buf: Seq<u8>, start: int, t: Seq<u8>)
    requires
        0 <= start,
        start + t.len() + 2 <= buf.len(),
        buf.subrange(start, start + t.len() + 2) == t + crlf(),
        forall|k: int| 0 <= k < t.len() ==> #[trigger] t[k] != 13u8,
    ensures
        read_line(buf, start) == Line::Text(t, start + t.len() + 2),
{
    let s = t + crlf();
    assert forall|j: int| start <= j < start + t.len() implies buf[j] != 13u8 by {
        lemma_byte_at(buf, start, s, j - start);
        assert(s[j - start] == t[j - start]);
    }
    lemma_byte_at(buf, start, s, t.len() as int);
    lemma_byte_at(buf, start, s, t.len() as int + 1);
    lemma_find_cr_at(buf, start, start + t.len());
    lemma_sub_segment(buf, start, s, 0, t.len() as int);
    assert(s.subrange(0, t.len() as int) =~= t);
}

proof fn lemma_digits_line(n: nat)
    ensures
        i64_of(decimal_digits(n)) == (if n <= i64::MAX {
            Some(n as i64)
        } else {
            None
        }),
        forall|k: int| 0 <= k < decimal_digits(n).len() ==> #[trigger] decimal_digits(n)[k] != 13u8,
{
    lemma_signed_text_value(n as int);
    assert(signed_text(n as int) == decimal_digits(n));
}

/// Shared by the cases below: where the bytes of `w` stand at `pos`.
pub open spec fn encoded_at(w: Wire, buf: Seq<u8>, pos: int) -> bool {
    &&& wire_wf(w)
    &&& 0 <= pos
    &&& pos + encode_wire(w).len() <= buf.len()
    &&& buf.subrange(pos, pos + encode_wire(w).len()) == encode_wire(w)
}

proof fn lemma_parse_encoded_line(w: Wire, buf: Seq<u8>, pos: int)
    requires
        encoded_at(w, buf, pos),
        w is Status || w is Error || w is Integer,
    ensures
        parse_at(buf, pos) == Parsed::Done(w, pos + encode_wire(w).len()),
{
    let e = encode_wire(w);
    lemma_byte_at(buf, pos, e, 0);
    assert(skip_space(buf, pos) == pos);
    lemma_sub_segment(buf, pos, e, 1, e.len() as int);
    match w {
        Wire::Status(t) => {
            assert(e.subrange(1, e.len() as int) =~= t + crlf());
            lemma_read_line(buf, pos + 1, t);
        },
        Wire::Error(t) => {
            assert(e.subrange(1, e.len() as int) =~= t + crlf());
            lemma_read_line(buf, pos + 1, t);
        },
        Wire::Integer(n) => {
            let t = signed_text(n);
            lemma_signed_text_value(n);
            assert(e.subrange(1, e.len() as int) =~= t + crlf());
            lemma_read_line(buf, pos + 1, t);
        },
        _ => {},
    }
}

proof fn lemma_parse_encoded_null(w: Wire, buf: Seq<u8>, pos: int)
    requires
        encoded_at(w, buf, pos),
        w == Wire::Bulk(None),
    ensures
        parse_at(buf, pos) == Parsed::Done(w, pos + encode_wire(w).len()),
{
    let e = encode_wire(w);
    lemma_byte_at(buf, pos, e, 0);
    assert(skip_space(buf, pos) == pos);
    let t = seq![45u8, 49u8];
    lemma_sub_segment(buf, pos, e, 1, e.len() as int);
    assert(e.subrange(1, e.len() as int) =~= t + crlf());
    lemma_read_line(buf, pos + 1, t);
    let one = seq![49u8];
    assert(t.drop_first() =~= one);
    assert(one.drop_last() =~= Seq::<u8>::empty());
    assert(crate::decimal::digits_value(Seq::<u8>::empty()) == 0);
    assert(crate::decimal::digits_value(one) == 1);
    assert(i64_of(t) == Some(-1i64));
}

proof fn lemma_parse_encoded_bulk(w: Wire, buf: Seq<u8>, pos: int)
    requires
        encoded_at(w, buf, pos),
        w is Bulk && w->Bulk_0 is Some,
    ensures
        parse_at(buf, pos) == Parsed::Done(w, pos + encode_wire(w).len()),
{
    let e = encode_wire(w);
    let p = w->Bulk_0->Some_0;
    lemma_byte_at(buf, pos, e, 0);
    assert(skip_space(buf, pos) == pos);
    let t = decimal_digits(p.len());
    let tl = t.len() as int;
    let pl = p.len() as int;
    lemma_digits_line(p.len());
    lemma_sub_segment(buf, pos, e, 1, 1 + tl + 2);
    assert(e.subrange(1, 1 + tl + 2) =~= t + crlf());
    lemma_read_line(buf, pos + 1, t);
    lemma_sub_segment(buf, pos, e, 1 + tl + 2, 1 + tl + 2 + pl);
    assert(e.subrange(1 + tl + 2, 1 + tl + 2 + pl) =~= p);
    lemma_byte_at(buf, pos, e, 1 + tl + 2 + pl);
    lemma_byte_at(buf, pos, e, 1 + tl + 2 + pl + 1);
}

/// Decoding the bytes of a well-formed value, wherever they stand in a
/// buffer, reads exactly that value and stops right after it.
pub proof fn lemma_parse_encoded(w: Wire, buf: Seq<u8>, pos: int)
    requires
        encoded_at(w, buf, pos),
    ensures
        parse_at(buf, pos) == Parsed::Done(w, pos + encode_wire(w).len()),
    decreases w, 1int, 0int,
{
    match w {
        Wire::Bulk(None) => lemma_parse_encoded_null(w, buf, pos),
        Wire::Bulk(Some(_)) => lemma_parse_encoded_bulk(w, buf, pos),
        Wire::Aggregate(items) => {
            let e = encode_wire(w);
            lemma_byte_at(buf, pos, e, 0);
            assert(skip_space(buf, pos) == pos);
            let t = decimal_digits(items.len());
            let tl = t.len() as int;
            lemma_digits_line(items.len());
            let line_end = pos + 1 + tl + 2;
            lemma_sub_segment(buf, pos, e, 1, 1 + tl + 2);
            assert(e.subrange(1, 1 + tl + 2) =~= t + crlf());
            lemma_read_line(buf, pos + 1, t);
            let body = encode_items(w, items.len() as int);
            lemma_sub_segment(buf, pos, e, 1 + tl + 2, e.len() as int);
            assert(e.subrange(1 + tl + 2, e.len() as int) =~= body);
            lemma_parse_encoded_items(w, buf, line_end, items.len() as int);
            assert(items.subrange(0, items.len() as int) =~= items);
        },
        _ => lemma_parse_encoded_line(w, buf, pos),
    }
}

proof fn lemma_parse_encoded_items(w: Wire, buf: Seq<u8>, start: int, n: int)
    requires
        w is Aggregate,
        wire_wf(w),
        0 <= n <= w->Aggregate_0.len(),
        0 <= start,
        start + encode_items(w, n).len() <= buf.len(),
        buf.subrange(start, start + encode_items(w, n).len()) == encode_items(w, n),
    ensures
        parse_items(buf, start, n) == ParsedItems::Done(
            w->Aggregate_0.subrange(0, n),
            start + encode_items(w, n).len(),
        ),
    decreases w, 0int, n,
{
    let items = w->Aggregate_0;
    if n > 0 {
        let whole = encode_items(w, n);
        let prev = encode_items(w, n - 1);
        let last = encode_wire(items[n - 1]);
        assert(whole == prev + last);
        lemma_sub_segment(buf, start, whole, 0, prev.len() as int);
        assert(whole.subrange(0, prev.len() as int) =~= prev);
        lemma_parse_encoded_items(w, buf, start, n - 1);
        lemma_sub_segment(buf, start, whole, prev.len() as int, whole.len() as int);
        assert(whole.subrange(prev.len() as int, whole.len() as int) =~= last);
        assert(wire_wf(items[n - 1]));
        assert(decreases_to!(w => w->Aggregate_0));
        lemma_parse_encoded(items[n - 1], buf, start + prev.len());
        assert(items.subrange(0, n - 1).push(items[n - 1]) =~= items.subrange(0, n));
    } else {
        assert(items.subrange(0, 0) =~= Seq::<Wire>::empty());
    }
}

/// What decoding a whole buffer gives: the value at its start.
pub open spec fn decode_spec(buf: Seq<u8>) -> Parsed {
    parse_at(buf, 0)
}

/// Round trip: decoding the encoding of a well-formed value gives that value
/// back, with no byte left over.
pub proof fn law_round_trip(v: Resp)
    requires
        wire_wf(v@),
    ensures
        decode_spec(encode_wire(v@)) == Parsed::Done(v@, encode_wire(v@).len() as int),
{
    let e = encode_wire(v@);
    assert(e.subrange(0, e.len() as int) =~= e);
    assert(encoded_at(v@, e, 0));
    lemma_parse_encoded(v@, e, 0);
}

/// The outcome of decoding.
#[derive(Debug, PartialEq, Eq)]
pub enum Decoded {
    /// A whole value and the number of bytes it took (leading blanks included).
    Frame(Resp, usize),
    /// The bytes so far begin a value: read more and decode again.
    NeedMore,
    /// The bytes are no value of the protocol.
    Invalid,
}

impl View for Decoded {
    type V = Parsed;

    open spec fn view(&self) -> Parsed {
        match *self {
            Decoded::Frame(r, e) => Parsed::Done(r@, e as int),
            Decoded::NeedMore => Parsed::Incomplete,
            Decoded::Invalid => Parsed::Invalid,
        }
    }
}

/// Where a header line ends.
enum Header {
    /// The index of its CR.
    Line(usize),
    Partial,
    Bad,
}

fn skip_space_exec(buf: &[u8], pos: usize) -> (r: usize)
    requires
        pos <= buf@.len(),
    ensures
        r as int == skip_space(buf@, pos as int),
        pos <= r <= buf@.len(),
{
    let mut i: usize = pos;
    while i < buf.len() && (buf[i] == 32u8 || buf[i] == 13u8 || buf[i] == 10u8)
        invariant
            pos <= i <= buf@.len(),
            skip_space(buf@, i as int) == skip_space(buf@, pos as int),
        decreases buf@.len() - i,
    {
        i = i + 1;
    }
    i
}

fn header(buf: &[u8], p: usize) -> (r: Header)
    requires
        p < buf@.len(),
    ensures
        match r {
            Header::Line(i) => p + 1 <= i && i + 2 <= buf@.len() && read_line(buf@, p + 1)
                == Line::Text(buf@.subrange(p + 1, i as int), i + 2),
            Header::Partial => read_line(buf@, p + 1) is Incomplete,
            Header::Bad => read_line(buf@, p + 1) is Invalid,
        },
{
    let len = buf.len();
    let mut i: usize = p + 1;
    while i < buf.len() && buf[i] != 13u8
        invariant
            p + 1 <= i <= buf@.len(),
            find_cr(buf@, i as int) == find_cr(buf@, p + 1),
        decreases buf@.len() - i,
    {
        i = i + 1;
    }
    if i >= buf.len() || i + 1 >= buf.len() {
        Header::Partial
    } else if buf[i + 1] != 10u8 {
        Header::Bad
    } else {
        Header::Line(i)
    }
}

fn text_ok(t: &Vec<u8>) -> (r: bool)
    ensures
        r == line_text_ok(t@),
{
    let mut i: usize = 0;
    while i < t.len()
        invariant
            0 <= i <= t@.len(),
            forall|k: int| 0 <= k < i ==> #[trigger] t@[k] != 13u8 && t@[k] != 10u8,
        decreases t@.len() - i,
    {
        if t[i] == 13u8 || t[i] == 10u8 {
            return false;
        }
        i = i + 1;
    }
    true
}

/// Decodes a status or an error line at `p`, whose first byte must be `tag`.
fn parse_text_line(buf: &[u8], p: usize, tag: u8) -> (r: Decoded)
    requires
        p < buf@.len(),
        tag == 43u8 || tag == 45u8,
    ensures
        r@ == if buf@[p as int] == tag {
            parse_frame(buf@, p as int)
        } else {
            Parsed::Invalid
        },
        r is Frame ==> p < r->Frame_1 <= buf@.len(),
{
    if buf[p] != tag {
        return Decoded::Invalid;
    }
    match header(buf, p) {
        Header::Partial => Decoded::NeedMore,
        Header::Bad => Decoded::Invalid,
        Header::Line(i) => {
            let text = copy_range(buf, p + 1, i);
            if !text_ok(&text) {
                Decoded::Invalid
            } else if tag == 43u8 {
                Decoded::Frame(Resp::SimpleString(text), i + 2)
            } else {
                Decoded::Frame(Resp::SimpleError(text), i + 2)
            }
        },
    }
}

/// Decodes a status line (`+`) at `p`.
pub fn parse_simple_string(buf: &[u8], p: usize) -> (r: Decoded)
    requires
        p < buf@.len(),
    ensures
        r@ == if buf@[p as int] == 43u8 {
            parse_frame(buf@, p as int)
        } else {
            Parsed::Invalid
        },
        r is Frame ==> p < r->Frame_1 <= buf@.len(),
{
    parse_text_line(buf, p, 43u8)
}

/// Decodes an error line (`-`) at `p`.
pub fn parse_simple_error(buf: &[u8], p: usize) -> (r: Decoded)
    requires
        p < buf@.len(),
    ensures
        r@ == if buf@[p as int] == 45u8 {
            parse_frame(buf@, p as int)
        } else {
            Parsed::Invalid
        },
        r is Frame ==> p < r->Frame_1 <= buf@.len(),
{
    parse_text_line(buf, p, 45u8)
}

/// Reads the numeral of a header line whose CR is at `i`.
fn header_number(buf: &[u8], p: usize, i: usize) -> (r: Option<i64>)
    requires
        p + 1 <= i <= buf@.len(),
    ensures
        r == i64_of(buf@.subrange(p + 1, i as int)),
{
    let text = copy_range(buf, p + 1, i);
    parse_i64(text.as_slice())
}

/// Decodes an integer line (`:`) at `p`.
pub fn parse_integer(buf: &[u8], p: usize) -> (r: Decoded)
    requires
        p < buf@.len(),
    ensures
        r@ == if buf@[p as int] == 58u8 {
            parse_frame(buf@, p as int)
        } else {
            Parsed::Invalid
        },
        r is Frame ==> p < r->Frame_1 <= buf@.len(),
{
    if buf[p] != 58u8 {
        return Decoded::Invalid;
    }
    match header(buf, p) {
        Header::Partial => Decoded::NeedMore,
        Header::Bad => Decoded::Invalid,
        Header::Line(i) => match header_number(buf, p, i) {
            None => Decoded::Invalid,
            Some(v) => Decoded::Frame(Resp::Integer(v), i + 2),
        },
    }
}

/// Decodes a bulk value (`$`) at `p`.
pub fn parse_bulk_string(buf: &[u8], p: usize) -> (r: Decoded)
    requires
        p < buf@.len(),
    ensures
        r@ == if buf@[p as int] == 36u8 {
            parse_frame(buf@, p as int)
        } else {
            Parsed::Invalid
        },
        r is Frame ==> p < r->Frame_1 <= buf@.len(),
{
    if buf[p] != 36u8 {
        return Decoded::Invalid;
    }
    match header(buf, p) {
        Header::Partial => Decoded::NeedMore,
        Header::Bad => Decoded::Invalid,
        Header::Line(i) => match header_number(buf, p, i) {
            None => Decoded::Invalid,
            Some(v) => {
                let e = i + 2;
                if v == -1 {
                    Decoded::Frame(Resp::BulkString(None), e)
                } else if v < 0 || v > MAX_BULK_LEN {
                    Decoded::Invalid
                } else {
                    let n = v as usize;
                    if buf.len() - e < n + 2 {
                        Decoded::NeedMore
                    } else if buf[e + n] != 13u8 || buf[e + n + 1] != 10u8 {
                        Decoded::Invalid
                    } else {
                        let payload = copy_range(buf, e, e + n);
                        Decoded::Frame(Resp::BulkString(Some(payload)), e + n + 2)
                    }
                }
            },
        },
    }
}

proof fn lemma_items_stuck(buf: Seq<u8>, start: int, k: int, m: int)
    requires
        0 < k <= m,
        !(parse_items(buf, start, k) is Done),
    ensures
        parse_items(buf, start, m) == parse_items(buf, start, k),
    decreases m - k,
{
    if m > k {
        lemma_items_stuck(buf, start, k, m - 1);
    }
}

/// Decodes an aggregate (`*`) at `p`, its elements one after another.
pub fn parse_array(buf: &[u8], p: usize) -> (r: Decoded)
    requires
        p < buf@.len(),
    ensures
        r@ == if buf@[p as int] == 42u8 {
            parse_frame(buf@, p as int)
        } else {
            Parsed::Invalid
        },
        r is Frame ==> p < r->Frame_1 <= buf@.len(),
    decreases buf@.len() - p, 0int,
{
    if buf[p] != 42u8 {
        return Decoded::Invalid;
    }
    match header(buf, p) {
        Header::Partial => Decoded::NeedMore,
        Header::Bad => Decoded::Invalid,
        Header::Line(i) => match header_number(buf, p, i) {
            None => Decoded::Invalid,
            Some(v) => {
                let e = i + 2;
                if v == -1 {
                    let empty: Vec<Resp> = Vec::new();
                    let r = Resp::Array(empty);
                    assert(r@ == Wire::Aggregate(Seq::empty()));
                    Decoded::Frame(r, e)
                } else if v < 0 || v > MAX_AGGREGATE_LEN {
                    Decoded::Invalid
                } else {
                    let n = v as usize;
                    let mut items: Vec<Resp> = Vec::new();
                    let mut at: usize = e;
                    let mut k: usize = 0;
                    let ghost mut ws: Seq<Wire> = Seq::empty();
                    while k < n
                        invariant
                            p < e <= at <= buf@.len(),
                            e == i + 2,
                            buf@[p as int] == 42u8,
                            read_line(buf@, p + 1) == Line::Text(buf@.subrange(p + 1, i as int), e as int),
                            i64_of(buf@.subrange(p + 1, i as int)) == Some(v),
                            0 <= v <= MAX_AGGREGATE_LEN,
                            n == v,
                            k <= n,
                            items@.len() == k,
                            ws.len() == k,
                            forall|j: int| 0 <= j < k ==> #[trigger] wire_of(items@[j]) == ws[j],
                            parse_items(buf@, e as int, k as int) == ParsedItems::Done(ws, at as int),
                        decreases n - k,
                    {
                        match parse_resp_at(buf, at) {
                            Decoded::Frame(item, next) => {
                                proof {
                                    ws = ws.push(item@);
                                }
                                items.push(item);
                                at = next;
                                k = k + 1;
                            },
                            Decoded::NeedMore => {
                                proof {
                                    assert(parse_items(buf@, e as int, k + 1) is Incomplete);
                                    lemma_items_stuck(buf@, e as int, k + 1, n as int);
                                }
                                return Decoded::NeedMore;
                            },
                            Decoded::Invalid => {
                                proof {
                                    assert(parse_items(buf@, e as int, k + 1) is Invalid);
                                    lemma_items_stuck(buf@, e as int, k + 1, n as int);
                                }
                                return Decoded::Invalid;
                            },
                        }
                    }
                    let r = Resp::Array(items);
                    proof {
                        lemma_wire_items(r, n as int);
                        assert(wire_items(r, n as int) =~= ws);
                    }
                    Decoded::Frame(r, at)
                }
            },
        },
    }
}

/// Decodes the value at `pos`, after any blanks and line breaks.
pub fn parse_resp_at(buf: &[u8], pos: usize) -> (r: Decoded)
    requires
        pos <= buf@.len(),
    ensures
        r@ == parse_at(buf@, pos as int),
        r is Frame ==> pos < r->Frame_1 <= buf@.len(),
    decreases buf@.len() - pos, 1int,
{
    let p = skip_space_exec(buf, pos);
    if p >= buf.len() {
        return Decoded::NeedMore;
    }
    let tag = buf[p];
    if tag == 43u8 {
        parse_simple_string(buf, p)
    } else if tag == 45u8 {
        parse_simple_error(buf, p)
    } else if tag == 58u8 {
        parse_integer(buf, p)
    } else if tag == 36u8 {
        parse_bulk_string(buf, p)
    } else if tag == 42u8 {
        parse_array(buf, p)
    } else {
        Decoded::Invalid
    }
}

/// Decodes the value at the start of `input`.
pub fn parse_resp(input: &[u8]) -> (r: Decoded)
    ensures
        r@ == decode_spec(input@),
        r is Frame ==> 0 < r->Frame_1 <= input@.len(),
{
    parse_resp_at(input, 0)
}

proof fn lemma_find_cr_none(buf: Seq<u8>, start: int)
    requires
        0 <= start <= buf.len(),
        forall|j: int| start <= j < buf.len() ==> buf[j] != 13u8,
    ensures
        find_cr(buf, start) is None,
    decreases buf.len() - start,
{
    if start < buf.len() {
        lemma_find_cr_none(buf, start + 1);
    }
}

/// A header line cut short reads as incomplete.
proof fn lemma_line_prefix(buf: Seq<u8>, start: int, t: Seq<u8>)
    requires
        0 <= start <= buf.len(),
        buf.len() < start + t.len() + 2,
        buf.subrange(start, buf.len() as int) == (t + crlf()).subrange(0, buf.len() - start),
        forall|k: int| 0 <= k < t.len() ==> #[trigger] t[k] != 13u8,
    ensures
        read_line(buf, start) is Incomplete,
{
    let s = t + crlf();
    let l = buf.len() - start;
    assert forall|j: int| start <= j < start + t.len() && j < buf.len() implies buf[j] != 13u8 by {
        assert(buf.subrange(start, buf.len() as int)[j - start] == buf[j]);
        assert(s[j - start] == t[j - start]);
    }
    if l <= t.len() {
        lemma_find_cr_none(buf, start);
    } else {
        assert(buf.subrange(start, buf.len() as int)[t.len() as int] == buf[start + t.len()]);
        lemma_find_cr_at(buf, start, start + t.len());
    }
}

/// Decoding bytes that stop inside the encoding of a well-formed value
/// reports that more must arrive.
pub proof fn lemma_parse_prefix(w: Wire, buf: Seq<u8>, pos: int)
    requires
        wire_wf(w),
        0 <= pos <= buf.len(),
        buf.len() < pos + encode_wire(w).len(),
        buf.subrange(pos, buf.len() as int) == encode_wire(w).subrange(0, buf.len() - pos),
    ensures
        parse_at(buf, pos) == Parsed::Incomplete,
    decreases w, 1int, 0int,
{
    let e = encode_wire(w);
    let l = buf.len() - pos;
    if l == 0 {
        assert(skip_space(buf, pos) == pos);
    } else {
        assert(buf.subrange(pos, buf.len() as int)[0] == buf[pos]);
        assert(skip_space(buf, pos) == pos);
        let t = match w {
            Wire::Status(t) => t,
            Wire::Error(t) => t,
            Wire::Integer(n) => signed_text(n),
            Wire::Bulk(None) => seq![45u8, 49u8],
            Wire::Bulk(Some(p)) => decimal_digits(p.len()),
            Wire::Aggregate(items) => decimal_digits(items.len()),
        };
        let tl = t.len() as int;
        match w {
            Wire::Integer(n) => lemma_signed_text_value(n),
            Wire::Bulk(Some(p)) => lemma_digits_line(p.len()),
            Wire::Aggregate(items) => lemma_digits_line(items.len()),
            _ => {},
        }
        assert(e.subrange(1, 1 + tl + 2) =~= t + crlf());
        if l < 1 + tl + 2 {
            assert(buf.subrange(pos + 1, buf.len() as int) =~= (t + crlf()).subrange(0, l - 1)) by {
                assert forall|k: int| 0 <= k < l - 1 implies #[trigger] buf.subrange(pos + 1, buf.len() as int)[k]
                    == (t + crlf()).subrange(0, l - 1)[k] by {
                    assert(buf.subrange(pos, buf.len() as int)[k + 1] == buf[pos + 1 + k]);
                    assert(e[k + 1] == e.subrange(1, 1 + tl + 2)[k]);
                }
            }
            lemma_line_prefix(buf, pos + 1, t);
        } else {
            let line_end = pos + 1 + tl + 2;
            assert(buf.subrange(pos, line_end) =~= e.subrange(0, 1 + tl + 2)) by {
                assert forall|k: int| 0 <= k < 1 + tl + 2 implies #[trigger] buf.subrange(pos, line_end)[k]
                    == e.subrange(0, 1 + tl + 2)[k] by {
                    assert(buf.subrange(pos, buf.len() as int)[k] == buf[pos + k]);
                }
            }
            lemma_sub_segment(buf, pos, e.subrange(0, 1 + tl + 2), 1, 1 + tl + 2);
            assert(e.subrange(0, 1 + tl + 2).subrange(1, 1 + tl + 2) =~= t + crlf());
            lemma_read_line(buf, pos + 1, t);
            match w {
                Wire::Bulk(None) => {
                    assert(false);
                },
                Wire::Aggregate(items) => {
                    let body = encode_items(w, items.len() as int);
                    assert(buf.subrange(line_end, buf.len() as int) =~= body.subrange(0, buf.len() - line_end)) by {
                        assert forall|k: int| 0 <= k < buf.len() - line_end implies #[trigger] buf.subrange(
                            line_end,
                            buf.len() as int,
                        )[k] == body.subrange(0, buf.len() - line_end)[k] by {
                            assert(buf.subrange(pos, buf.len() as int)[1 + tl + 2 + k] == buf[line_end + k]);
                            assert(e[1 + tl + 2 + k] == body[k]);
                        }
                    }
                    lemma_parse_prefix_items(w, buf, line_end, items.len() as int);
                },
                _ => {},
            }
        }
    }
}

proof fn lemma_parse_prefix_items(w: Wire, buf: Seq<u8>, start: int, n: int)
    requires
        w is Aggregate,
        wire_wf(w),
        0 <= n <= w->Aggregate_0.len(),
        0 <= start <= buf.len(),
        buf.len() < start + encode_items(w, n).len(),
        buf.subrange(start, buf.len() as int) == encode_items(w, n).subrange(0, buf.len() - start),
    ensures
        parse_items(buf, start, n) is Incomplete,
    decreases w, 0int, n,
{
    let items = w->Aggregate_0;
    let whole = encode_items(w, n);
    let prev = encode_items(w, n - 1);
    let last = encode_wire(items[n - 1]);
    assert(whole == prev + last);
    if buf.len() < start + prev.len() {
        assert(buf.subrange(start, buf.len() as int) =~= prev.subrange(0, buf.len() - start)) by {
            assert forall|k: int| 0 <= k < buf.len() - start implies #[trigger] prev.subrange(0, buf.len() - start)[k]
                == whole.subrange(0, buf.len() - start)[k] by {}
        }
        lemma_parse_prefix_items(w, buf, start, n - 1);
        if n - 1 > 0 {
            assert(parse_items(buf, start, n) is Incomplete);
        }
    } else {
        let e = start + prev.len();
        assert(buf.subrange(start, e) =~= prev) by {
            assert forall|k: int| 0 <= k < prev.len() implies #[trigger] buf.subrange(start, e)[k] == prev[k] by {
                assert(buf.subrange(start, buf.len() as int)[k] == buf[start + k]);
            }
        }
        lemma_parse_encoded_items(w, buf, start, n - 1);
        assert(buf.subrange(e, buf.len() as int) =~= last.subrange(0, buf.len() - e)) by {
            assert forall|k: int| 0 <= k < buf.len() - e implies #[trigger] buf.subrange(e, buf.len() as int)[k]
                == last.subrange(0, buf.len() - e)[k] by {
                assert(buf.subrange(start, buf.len() as int)[prev.len() + k] == buf[e + k]);
            }
        }
        assert(wire_wf(items[n - 1]));
        assert(decreases_to!(w => w->Aggregate_0));
        lemma_parse_prefix(items[n - 1], buf, e);
    }
}

/// Decoding stops short without error: every proper prefix of the encoding
/// of a well-formed value reports that more bytes must arrive.
pub proof fn law_partial_frame(v: Resp, n: int)
    requires
        wire_wf(v@),
        0 <= n < encode_wire(v@).len(),
    ensures
        decode_spec(encode_wire(v@).subrange(0, n)) == Parsed::Incomplete,
{
    let e = encode_wire(v@);
    let b = e.subrange(0, n);
    assert(b.subrange(0, b.len() as int) =~= e.subrange(0, n));
    lemma_parse_prefix(v@, b, 0);
}

} // verus!
