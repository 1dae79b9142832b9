//! The log's record format.
//!
//! Each record is one compact JSON object, written with no length prefix:
//!
//! ```text
//! {"Set":{"key":"<k>","value":"<v>"}}
//! {"Rm":{"key":"<k>"}}
//! ```
//!
//! Keys and values are byte strings, escaped the way JSON writers do it: `"` and
//! `\` take a backslash, the control bytes with a short escape use it (`\b`, `\t`,
//! `\n`, `\f`, `\r`) and the other control bytes are written `\u00xx`. Every
//! other byte is copied. The decoder accepts exactly the canonical encodings, so
//! a record's bytes are determined by the record, and a decoder that starts at a
//! record boundary reports where the next record starts. A legacy `Get` record
//! (`{"Get":{"key":"<k>"}}`) is decoded too; it is never written.
use vstd::prelude::*;

verus! {

/// A record of the log, as a mathematical value: `Put` is a `Set` record,
/// `Remove` an `Rm` record (a tombstone), `Get` the legacy record.
pub enum Op {
    Put { key: Seq<u8>, value: Seq<u8> },
    Remove { key: Seq<u8> },
    Get { key: Seq<u8> },
}

/// A record of the log, decoded; its variants are those of `Op`.
pub enum Record {
    Put { key: Vec<u8>, value: Vec<u8> },
    Remove { key: Vec<u8> },
    Get { key: Vec<u8> },
}

impl View for Record {
    type V = Op;

    open spec fn view(&self) -> Op {
        match self {
            Record::Put { key, value } => Op::Put { key: key@, value: value@ },
            Record::Remove { key } => Op::Remove { key: key@ },
            Record::Get { key } => Op::Get { key: key@ },
        }
    }
}

pub const QUOTE: u8 = 0x22;

pub const BACKSLASH: u8 = 0x5c;

/// `{"Set":{"key":"`
pub open spec fn set_head() -> Seq<u8> {
    seq![0x7bu8, 0x22, 0x53, 0x65, 0x74, 0x22, 0x3a, 0x7b, 0x22, 0x6b, 0x65, 0x79, 0x22, 0x3a, 0x22]
}

/// `{"Rm":{"key":"`
pub open spec fn rm_head() -> Seq<u8> {
    seq![0x7bu8, 0x22, 0x52, 0x6d, 0x22, 0x3a, 0x7b, 0x22, 0x6b, 0x65, 0x79, 0x22, 0x3a, 0x22]
}

/// `{"Get":{"key":"`
pub open spec fn get_head() -> Seq<u8> {
    seq![0x7bu8, 0x22, 0x47, 0x65, 0x74, 0x22, 0x3a, 0x7b, 0x22, 0x6b, 0x65, 0x79, 0x22, 0x3a, 0x22]
}

/// `,"value":"`
pub open spec fn value_mid() -> Seq<u8> {
    seq![0x2cu8, 0x22, 0x76, 0x61, 0x6c, 0x75, 0x65, 0x22, 0x3a, 0x22]
}

/// `}}`
pub open spec fn tail() -> Seq<u8> {
    seq![0x7du8, 0x7d]
}

/// The lower-case hexadecimal digit of `d`.
pub open spec fn hex_digit(d: u8) -> u8 {
    if d < 10 {
        (0x30 + d) as u8
    } else {
        (0x61 + d - 10) as u8
    }
}

/// The letter of the short escape of `b`, if it has one.
pub open spec fn short_escape(b: u8) -> Option<u8> {
    if b == QUOTE {
        Some(QUOTE)
    } else if b == BACKSLASH {
        Some(BACKSLASH)
    } else if b == 0x08 {
        Some(0x62u8)
    } else if b == 0x09 {
        Some(0x74u8)
    } else if b == 0x0a {
        Some(0x6eu8)
    } else if b == 0x0c {
        Some(0x66u8)
    } else if b == 0x0d {
        Some(0x72u8)
    } else {
        None
    }
}

/// How one byte of a key or a value is written inside quotes.
pub open spec fn escape_byte(b: u8) -> Seq<u8> {
    match short_escape(b) {
        Some(c) => seq![BACKSLASH, c],
        None => if b < 0x20 {
            seq![BACKSLASH, 0x75u8, 0x30, 0x30, hex_digit(b / 16), hex_digit(b % 16)]
        } else {
            seq![b]
        },
    }
}

/// How a key or a value is written inside quotes.
pub open spec fn escape(t: Seq<u8>) -> Seq<u8>
    decreases t.len(),
{
    if t.len() == 0 {
        Seq::empty()
    } else {
        escape_byte(t[0]) + escape(t.skip(1))
    }
}

/// The encoding of a record.
#[verifier::opaque]
pub open spec fn encode(op: Op) -> Seq<u8> {
    match op {
        Op::Put { key, value } => set_head() + escape(key) + seq![QUOTE] + value_mid() + escape(
            value,
        ) + seq![QUOTE] + tail(),
        Op::Remove { key } => rm_head() + escape(key) + seq![QUOTE] + tail(),
        Op::Get { key } => get_head() + escape(key) + seq![QUOTE] + tail(),
    }
}

pub open spec fn starts_with(s: Seq<u8>, p: Seq<u8>) -> bool {
    p.len() <= s.len() && s.take(p.len() as int) == p
}

pub open spec fn hex_value(c: u8) -> Option<u8> {
    if 0x30 <= c <= 0x39 {
        Some((c - 0x30) as u8)
    } else if 0x61 <= c <= 0x66 {
        Some((c - 0x61 + 10) as u8)
    } else {
        None
    }
}

/// The byte whose escape `s` starts with, and the escape's width.
pub open spec fn unescape_byte(s: Seq<u8>) -> Option<(u8, nat)> {
    if s.len() == 0 {
        None
    } else if s[0] == BACKSLASH {
        if s.len() < 2 {
            None
        } else if s[1] == QUOTE {
            Some((QUOTE, 2))
        } else if s[1] == BACKSLASH {
            Some((BACKSLASH, 2))
        } else if s[1] == 0x62 {
            Some((0x08u8, 2))
        } else if s[1] == 0x74 {
            Some((0x09u8, 2))
        } else if s[1] == 0x6e {
            Some((0x0au8, 2))
        } else if s[1] == 0x66 {
            Some((0x0cu8, 2))
        } else if s[1] == 0x72 {
            Some((0x0du8, 2))
        } else if s[1] == 0x75 && s.len() >= 6 && s[2] == 0x30 && s[3] == 0x30 && (s[4] == 0x30
            || s[4] == 0x31) && hex_value(s[5]) is Some {
            let v = ((s[4] - 0x30) * 16 + hex_value(s[5])->0) as u8;
            if short_escape(v) is Some {
                None
            } else {
                Some((v, 6))
            }
        } else {
            None
        }
    } else if s[0] == QUOTE || s[0] < 0x20 {
        None
    } else {
        Some((s[0], 1))
    }
}

/// Reads an escaped string up to its closing quote: the string, and the bytes
/// read, the quote included.
pub open spec fn parse_str(s: Seq<u8>) -> Option<(Seq<u8>, nat)>
    decreases s.len(),
{
    if s.len() == 0 {
        None
    } else if s[0] == QUOTE {
        Some((Seq::empty(), 1))
    } else {
        match unescape_byte(s) {
            None => None,
            Some((b, w)) => if 1 <= w <= s.len() {
                match parse_str(s.skip(w as int)) {
                    None => None,
                    Some((t, n)) => Some((seq![b] + t, n + w)),
                }
            } else {
                None
            },
        }
    }
}

/// Reads `head`, a quoted key and the closing `}}`.
pub open spec fn parse_keyed(s: Seq<u8>, head: Seq<u8>) -> Option<(Seq<u8>, nat)> {
    if starts_with(s, head) {
        match parse_str(s.skip(head.len() as int)) {
            None => None,
            Some((k, n)) => {
                let p = head.len() + n;
                if p <= s.len() && starts_with(s.skip(p as int), tail()) {
                    Some((k, p + 2))
                } else {
                    None
                }
            },
        }
    } else {
        None
    }
}

/// Reads the `Set` record at the front of `s`.
pub open spec fn parse_set(s: Seq<u8>) -> Option<(Op, nat)> {
    match parse_str(s.skip(15)) {
        None => None,
        Some((k, n1)) => {
            let p = 15 + n1;
            if p <= s.len() && starts_with(s.skip(p as int), value_mid()) {
                match parse_str(s.skip((p + 10) as int)) {
                    None => None,
                    Some((v, n2)) => {
                        let q = p + 10 + n2;
                        if q <= s.len() && starts_with(s.skip(q as int), tail()) {
                            Some((Op::Put { key: k, value: v }, (q + 2) as nat))
                        } else {
                            None
                        }
                    },
                }
            } else {
                None
            }
        },
    }
}

/// The record at the front of `s`, and the number of bytes it takes.
#[verifier::opaque]
pub open spec fn parse_record(s: Seq<u8>) -> Option<(Op, nat)> {
    if starts_with(s, set_head()) {
        parse_set(s)
    } else if starts_with(s, rm_head()) {
        match parse_keyed(s, rm_head()) {
            None => None,
            Some((k, n)) => Some((Op::Remove { key: k }, n)),
        }
    } else if starts_with(s, get_head()) {
        match parse_keyed(s, get_head()) {
            None => None,
            Some((k, n)) => Some((Op::Get { key: k }, n)),
        }
    } else {
        None
    }
}

proof fn lemma_unescape_escape_byte(b: u8, rest: Seq<u8>)
    ensures
        unescape_byte(escape_byte(b) + rest) == Some((b, escape_byte(b).len())),
{
    let s = escape_byte(b) + rest;
    if short_escape(b) is None && b < 0x20 {
        assert(b / 16 < 2);
        assert(s[4] == hex_digit(b / 16));
        assert(s[5] == hex_digit(b % 16));
        assert(hex_value(s[5]) == Some(b % 16));
        assert(((s[4] - 0x30) * 16 + (b % 16)) as u8 == b);
    }
}

proof fn lemma_unescape_byte_canonical(s: Seq<u8>)
    ensures
        match unescape_byte(s) {
            Some((b, w)) => 1 <= w <= s.len() && s.take(w as int) == escape_byte(b),
            None => true,
        },
{
    match unescape_byte(s) {
        Some((b, w)) => {
            if s[0] == BACKSLASH && s[1] == 0x75 {
                let hi = (s[4] - 0x30) as u8;
                let lo = hex_value(s[5])->0;
                assert(b == (hi * 16 + lo) as u8);
                assert(b / 16 == hi && b % 16 == lo) by (nonlinear_arith)
                    requires
                        b == (hi * 16 + lo) as u8,
                        hi < 2,
                        lo < 16,
                ;
                assert(hex_digit(lo) == s[5]);
                assert(s.take(6) =~= escape_byte(b));
            } else if s[0] == BACKSLASH {
                assert(s.take(2) =~= escape_byte(b));
            } else {
                assert(s.take(1) =~= escape_byte(b));
            }
        },
        None => {},
    }
}

pub proof fn lemma_escape_push(t: Seq<u8>, b: u8)
    ensures
        escape(t.push(b)) == escape(t) + escape_byte(b),
    decreases t.len(),
{
    if t.len() == 0 {
        assert(t.push(b).skip(1) =~= Seq::<u8>::empty());
        assert(escape(t.push(b)) =~= escape_byte(b) + escape(Seq::<u8>::empty()));
    } else {
        lemma_escape_push(t.skip(1), b);
        assert(t.push(b).skip(1) =~= t.skip(1).push(b));
        assert(escape(t.push(b)) =~= escape(t) + escape_byte(b));
    }
}

/// An escaped string followed by its closing quote reads back as itself.
pub proof fn lemma_parse_str_escape(t: Seq<u8>, rest: Seq<u8>)
    ensures
        parse_str(escape(t) + seq![QUOTE] + rest) == Some((t, escape(t).len() + 1)),
    decreases t.len(),
{
    let s = escape(t) + seq![QUOTE] + rest;
    if t.len() == 0 {
        assert(s[0] == QUOTE);
        assert(t =~= Seq::<u8>::empty());
    } else {
        let e = escape_byte(t[0]);
        let tail_rest = escape(t.skip(1)) + seq![QUOTE] + rest;
        assert(s =~= e + tail_rest);
        lemma_unescape_escape_byte(t[0], tail_rest);
        assert(s[0] == e[0]);
        assert(s.skip(e.len() as int) =~= tail_rest);
        lemma_parse_str_escape(t.skip(1), rest);
        assert(seq![t[0]] + t.skip(1) =~= t);
    }
}

/// What `parse_str` accepts is exactly an escaped string and its closing quote.
pub proof fn lemma_parse_str_canonical(s: Seq<u8>)
    ensures
        match parse_str(s) {
            Some((t, n)) => 1 <= n <= s.len() && s.take(n as int) == escape(t) + seq![QUOTE],
            None => true,
        },
    decreases s.len(),
{
    if s.len() > 0 && s[0] != QUOTE {
        match unescape_byte(s) {
            Some((b, w)) => {
                if 1 <= w <= s.len() {
                    lemma_unescape_byte_canonical(s);
                    lemma_parse_str_canonical(s.skip(w as int));
                    match parse_str(s.skip(w as int)) {
                        Some((t, n)) => {
                            let u = seq![b] + t;
                            assert(u[0] == b);
                            assert(u.skip(1) =~= t);
                            assert(escape(u) == escape_byte(b) + escape(t));
                            assert(s.take((n + w) as int) =~= s.take(w as int) + s.skip(
                                w as int,
                            ).take(n as int));
                        },
                        None => {},
                    }
                }
            },
            None => {},
        }
    } else if s.len() > 0 {
        assert(s.take(1) =~= escape(Seq::<u8>::empty()) + seq![QUOTE]);
    }
}

proof fn lemma_parse_encode_put(key: Seq<u8>, value: Seq<u8>, rest: Seq<u8>)
    ensures
        parse_set(encode(Op::Put { key, value }) + rest) == Some(
            (Op::Put { key, value }, encode(Op::Put { key, value }).len()),
        ),
{
    reveal(encode);
    reveal(parse_record);
    let s = encode(Op::Put { key, value }) + rest;
    let ek = escape(key);
    let ev = escape(value);
    let r1 = value_mid() + ev + seq![QUOTE] + tail() + rest;
    assert(s.skip(15) =~= ek + seq![QUOTE] + r1);
    lemma_parse_str_escape(key, r1);
    let p: int = 15 + ek.len() as int + 1;
    assert(s.skip(p) =~= r1);
    assert(s.skip(p).take(10) =~= value_mid());
    let r2 = tail() + rest;
    assert(s.skip(p + 10) =~= ev + seq![QUOTE] + r2);
    lemma_parse_str_escape(value, r2);
    let q: int = p + 10 + ev.len() + 1;
    assert(s.skip(q) =~= r2);
    assert(s.skip(q).take(2) =~= tail());
}

proof fn lemma_parse_encode_keyed(head: Seq<u8>, key: Seq<u8>, rest: Seq<u8>)
    ensures
        parse_keyed(head + escape(key) + seq![QUOTE] + tail() + rest, head) == Some(
            (key, (head + escape(key) + seq![QUOTE] + tail()).len()),
        ),
{
    let s = head + escape(key) + seq![QUOTE] + tail() + rest;
    let ek = escape(key);
    assert(s.take(head.len() as int) =~= head);
    let r1 = tail() + rest;
    assert(s.skip(head.len() as int) =~= ek + seq![QUOTE] + r1);
    lemma_parse_str_escape(key, r1);
    let p: int = head.len() + ek.len() as int + 1;
    assert(s.skip(p) =~= r1);
    assert(s.skip(p).take(2) =~= tail());
}

/// A record followed by anything reads back as itself, and takes exactly its
/// encoding's bytes.
pub proof fn lemma_parse_encode(op: Op, rest: Seq<u8>)
    ensures
        parse_record(encode(op) + rest) == Some((op, encode(op).len())),
{
    reveal(encode);
    reveal(parse_record);
    let s = encode(op) + rest;
    match op {
        Op::Put { key, value } => {
            assert(s.take(15) =~= set_head());
            lemma_parse_encode_put(key, value, rest);
        },
        Op::Remove { key } => {
            assert(s[2] == 0x52);
            assert(set_head()[2] == 0x53);
            assert(!starts_with(s, set_head()));
            assert(s.take(14) =~= rm_head());
            assert(s =~= rm_head() + escape(key) + seq![QUOTE] + tail() + rest);
            lemma_parse_encode_keyed(rm_head(), key, rest);
        },
        Op::Get { key } => {
            assert(s[2] == 0x47);
            assert(set_head()[2] == 0x53);
            assert(rm_head()[2] == 0x52);
            assert(!starts_with(s, set_head()));
            assert(!starts_with(s, rm_head()));
            assert(s.take(15) =~= get_head());
            assert(s =~= get_head() + escape(key) + seq![QUOTE] + tail() + rest);
            lemma_parse_encode_keyed(get_head(), key, rest);
        },
    }
}

proof fn lemma_parse_keyed_canonical(s: Seq<u8>, head: Seq<u8>)
    ensures
        match parse_keyed(s, head) {
            Some((k, n)) => n <= s.len() && s.take(n as int) == head + escape(k) + seq![QUOTE]
                + tail(),
            None => true,
        },
{
    if starts_with(s, head) {
        let h = head.len() as int;
        lemma_parse_str_canonical(s.skip(h));
        match parse_str(s.skip(h)) {
            Some((k, n)) => {
                let p: int = h + n;
                if p <= s.len() && starts_with(s.skip(p), tail()) {
                    assert(s.take(p + 2) =~= s.take(h) + s.skip(h).take(n as int) + s.skip(
                        p,
                    ).take(2));
                }
            },
            None => {},
        }
    }
}

proof fn lemma_parse_set_canonical(s: Seq<u8>)
    requires
        starts_with(s, set_head()),
    ensures
        match parse_set(s) {
            Some((op, n)) => 0 < n <= s.len() && s.take(n as int) == encode(op),
            None => true,
        },
{
    reveal(encode);
    reveal(parse_record);
    lemma_parse_str_canonical(s.skip(15));
    match parse_str(s.skip(15)) {
        Some((k, n1)) => {
            let p: int = 15 + n1 as int;
            if p <= s.len() && starts_with(s.skip(p), value_mid()) {
                lemma_parse_str_canonical(s.skip(p + 10));
                match parse_str(s.skip(p + 10)) {
                    Some((v, n2)) => {
                        let q: int = p + 10 + n2;
                        if q <= s.len() && starts_with(s.skip(q), tail()) {
                            assert(s.take(q + 2) =~= s.take(15) + s.skip(15).take(n1 as int)
                                + s.skip(p).take(10) + s.skip(p + 10).take(n2 as int) + s.skip(
                                q,
                            ).take(2));
                        }
                    },
                    None => {},
                }
            }
        },
        None => {},
    }
}

/// What `parse_record` accepts is exactly the encoding of the record it returns.
pub proof fn lemma_parse_canonical(s: Seq<u8>)
    ensures
        match parse_record(s) {
            Some((op, n)) => 0 < n <= s.len() && s.take(n as int) == encode(op),
            None => true,
        },
{
    reveal(encode);
    reveal(parse_record);
    if starts_with(s, set_head()) {
        lemma_parse_set_canonical(s);
    } else if starts_with(s, rm_head()) {
        lemma_parse_keyed_canonical(s, rm_head());
    } else if starts_with(s, get_head()) {
        lemma_parse_keyed_canonical(s, get_head());
    }
}

/// `r` with `prefix` put before its string and `k` added to its width.
pub open spec fn prepend(prefix: Seq<u8>, k: nat, r: Option<(Seq<u8>, nat)>) -> Option<
    (Seq<u8>, nat),
> {
    match r {
        Some((t, n)) => Some((prefix + t, n + k)),
        None => None,
    }
}

fn push_slice(out: &mut Vec<u8>, b: &[u8])
    ensures
        final(out)@ == old(out)@ + b@,
{
    let mut i: usize = 0;
    while i < b.len()
        invariant
            i <= b@.len(),
            out@ == old(out)@ + b@.take(i as int),
        decreases b@.len() - i,
    {
        out.push(b[i]);
        i = i + 1;
        assert(out@ =~= old(out)@ + b@.take(i as int));
    }
    assert(b@.take(i as int) =~= b@);
}

/// A copy of `b`.
pub fn copy_bytes(b: &[u8]) -> (r: Vec<u8>)
    ensures
        r@ == b@,
{
    let mut out: Vec<u8> = Vec::new();
    push_slice(&mut out, b);
    assert(out@ =~= b@);
    out
}

/// A record takes at least one byte, and at most six for each byte of its key
/// and value and 29 more.
pub proof fn lemma_encode_len(op: Op)
    ensures
        0 < encode(op).len(),
        match op {
            Op::Put { key, value } => encode(op).len() <= 6 * (key.len() + value.len()) + 29,
            Op::Remove { key } => encode(op).len() <= 6 * key.len() + 18,
            Op::Get { key } => encode(op).len() <= 6 * key.len() + 18,
        },
{
    reveal(encode);
    reveal(parse_record);
    match op {
        Op::Put { key, value } => {
            lemma_escape_len(key);
            lemma_escape_len(value);
        },
        Op::Remove { key } => {
            lemma_escape_len(key);
        },
        Op::Get { key } => {
            lemma_escape_len(key);
        },
    }
}

/// Every record starts with `{`, so bytes that start otherwise are no record.
pub proof fn lemma_record_starts_with_brace(s: Seq<u8>)
    ensures
        parse_record(s) is Some ==> s.len() > 0 && s[0] == 0x7b,
{
    reveal(parse_record);
    if parse_record(s) is Some {
        assert(s.take(14)[0] == s[0]);
    }
}

/// A string escapes to at most six bytes for each of its own.
pub proof fn lemma_escape_len(t: Seq<u8>)
    ensures
        escape(t).len() <= 6 * t.len(),
    decreases t.len(),
{
    if t.len() > 0 {
        lemma_escape_len(t.skip(1));
    }
}

fn hex_digit_exec(d: u8) -> (r: u8)
    requires
        d < 16,
    ensures
        r == hex_digit(d),
{
    if d < 10 {
        0x30 + d
    } else {
        0x61 + d - 10
    }
}

fn push_escaped_byte(out: &mut Vec<u8>, b: u8)
    ensures
        final(out)@ == old(out)@ + escape_byte(b),
{
    let short: u8 = if b == QUOTE {
        QUOTE
    } else if b == BACKSLASH {
        BACKSLASH
    } else if b == 0x08 {
        0x62
    } else if b == 0x09 {
        0x74
    } else if b == 0x0a {
        0x6e
    } else if b == 0x0c {
        0x66
    } else if b == 0x0d {
        0x72
    } else {
        0
    };
    if short != 0 {
        out.push(BACKSLASH);
        out.push(short);
        assert(out@ =~= old(out)@ + escape_byte(b));
    } else if b < 0x20 {
        out.push(BACKSLASH);
        out.push(0x75);
        out.push(0x30);
        out.push(0x30);
        out.push(hex_digit_exec(b / 16));
        out.push(hex_digit_exec(b % 16));
        assert(out@ =~= old(out)@ + escape_byte(b));
    } else {
        out.push(b);
        assert(out@ =~= old(out)@ + escape_byte(b));
    }
}

fn push_escaped(out: &mut Vec<u8>, t: &[u8])
    ensures
        final(out)@ == old(out)@ + escape(t@),
{
    let mut i: usize = 0;
    while i < t.len()
        invariant
            i <= t@.len(),
            out@ == old(out)@ + escape(t@.take(i as int)),
        decreases t@.len() - i,
    {
        proof {
            lemma_escape_push(t@.take(i as int), t@[i as int]);
            assert(t@.take(i as int).push(t@[i as int]) =~= t@.take(i + 1));
        }
        push_escaped_byte(out, t[i]);
        i = i + 1;
        assert(out@ =~= old(out)@ + escape(t@.take(i as int)));
    }
    assert(t@.take(i as int) =~= t@);
}

/// The bytes of a `Set` record of `key` and `value`.
pub fn encode_put(key: &[u8], value: &[u8]) -> (r: Vec<u8>)
    ensures
        r@ == encode(Op::Put { key: key@, value: value@ }),
{
    proof {
        reveal(encode);
        reveal(parse_record);
    }
    let head: [u8; 15] = [
        0x7b, 0x22, 0x53, 0x65, 0x74, 0x22, 0x3a, 0x7b, 0x22, 0x6b, 0x65, 0x79, 0x22, 0x3a, 0x22,
    ];
    let mid: [u8; 10] = [0x2c, 0x22, 0x76, 0x61, 0x6c, 0x75, 0x65, 0x22, 0x3a, 0x22];
    let end: [u8; 2] = [0x7d, 0x7d];
    assert(head@ == set_head());
    assert(mid@ == value_mid());
    assert(end@ == tail());
    let mut out: Vec<u8> = Vec::new();
    push_slice(&mut out, &head);
    push_escaped(&mut out, key);
    out.push(QUOTE);
    push_slice(&mut out, &mid);
    push_escaped(&mut out, value);
    out.push(QUOTE);
    push_slice(&mut out, &end);
    assert(out@ =~= encode(Op::Put { key: key@, value: value@ }));
    out
}

/// The bytes of a `Rm` record (a tombstone) of `key`.
pub fn encode_remove(key: &[u8]) -> (r: Vec<u8>)
    ensures
        r@ == encode(Op::Remove { key: key@ }),
{
    proof {
        reveal(encode);
        reveal(parse_record);
    }
    let head: [u8; 14] = [
        0x7b, 0x22, 0x52, 0x6d, 0x22, 0x3a, 0x7b, 0x22, 0x6b, 0x65, 0x79, 0x22, 0x3a, 0x22,
    ];
    let end: [u8; 2] = [0x7d, 0x7d];
    assert(head@ == rm_head());
    assert(end@ == tail());
    let mut out: Vec<u8> = Vec::new();
    push_slice(&mut out, &head);
    push_escaped(&mut out, key);
    out.push(QUOTE);
    push_slice(&mut out, &end);
    assert(out@ =~= encode(Op::Remove { key: key@ }));
    out
}

/// `r` is the executable form of `p`, a string decoded from position `i` on:
/// the string, and the position just past its closing quote.
pub open spec fn str_at(r: Option<(Vec<u8>, usize)>, i: nat, p: Option<(Seq<u8>, nat)>) -> bool {
    match p {
        Some((t, n)) => match r {
            Some((v, end)) => v@ == t && end == i + n,
            None => false,
        },
        None => r is None,
    }
}

/// `r` is the executable form of the decoded record `p`.
pub open spec fn same_record(r: Option<(Record, usize)>, p: Option<(Op, nat)>) -> bool {
    match p {
        Some((op, n)) => match r {
            Some((v, m)) => v@ == op && m == n,
            None => false,
        },
        None => r is None,
    }
}

fn hex_value_exec(c: u8) -> (r: Option<u8>)
    ensures
        r == hex_value(c),
{
    if 0x30 <= c && c <= 0x39 {
        Some(c - 0x30)
    } else if 0x61 <= c && c <= 0x66 {
        Some(c - 0x61 + 10)
    } else {
        None
    }
}

/// The byte whose escape starts at `i`, and the position just past the escape.
fn unescape_at(s: &[u8], i: usize) -> (r: Option<(u8, usize)>)
    requires
        i <= s@.len(),
    ensures
        match unescape_byte(s@.skip(i as int)) {
            Some((b, w)) => r == Some((b, (i + w) as usize)),
            None => r is None,
        },
{
    let ghost t = s@.skip(i as int);
    let len = s.len() - i;
    if len == 0 {
        return None;
    }
    let c = s[i];
    assert(t[0] == c);
    if c == BACKSLASH {
        if len < 2 {
            return None;
        }
        let d = s[i + 1];
        assert(t[1] == d);
        if d == QUOTE {
            Some((QUOTE, i + 2))
        } else if d == BACKSLASH {
            Some((BACKSLASH, i + 2))
        } else if d == 0x62 {
            Some((0x08, i + 2))
        } else if d == 0x74 {
            Some((0x09, i + 2))
        } else if d == 0x6e {
            Some((0x0a, i + 2))
        } else if d == 0x66 {
            Some((0x0c, i + 2))
        } else if d == 0x72 {
            Some((0x0d, i + 2))
        } else if d == 0x75 && len >= 6 {
            assert(t[2] == s@[i + 2] && t[3] == s@[i + 3] && t[4] == s@[i + 4] && t[5] == s@[i
                + 5]);
            if s[i + 2] == 0x30 && s[i + 3] == 0x30 && (s[i + 4] == 0x30 || s[i + 4] == 0x31) {
                match hex_value_exec(s[i + 5]) {
                    Some(lo) => {
                        let v: u8 = (s[i + 4] - 0x30) * 16 + lo;
                        if v == 0x08 || v == 0x09 || v == 0x0a || v == 0x0c || v == 0x0d {
                            None
                        } else {
                            Some((v, i + 6))
                        }
                    },
                    None => None,
                }
            } else {
                None
            }
        } else {
            None
        }
    } else if c == QUOTE || c < 0x20 {
        None
    } else {
        Some((c, i + 1))
    }
}

/// Decodes the escaped string that starts at `i`: the string and the position
/// just past its closing quote.
fn parse_str_at(s: &[u8], i: usize) -> (r: Option<(Vec<u8>, usize)>)
    requires
        i <= s@.len(),
    ensures
        str_at(r, i as nat, parse_str(s@.skip(i as int))),
{
    let mut out: Vec<u8> = Vec::new();
    let mut j: usize = i;
    assert(out@ + Seq::<u8>::empty() =~= Seq::<u8>::empty());
    loop
        invariant
            i <= j <= s@.len(),
            parse_str(s@.skip(i as int)) == prepend(out@, (j - i) as nat, parse_str(s@.skip(j as int))),
        decreases s@.len() - j,
    {
        let ghost t = s@.skip(j as int);
        if j >= s.len() {
            return None;
        }
        assert(t[0] == s@[j as int]);
        if s[j] == QUOTE {
            assert(out@ + Seq::<u8>::empty() =~= out@);
            return Some((out, j + 1));
        }
        match unescape_at(s, j) {
            None => {
                return None;
            },
            Some((b, next)) => {
                proof {
                    lemma_unescape_byte_canonical(t);
                    let w = next - j;
                    assert(t.skip(w) =~= s@.skip(next as int));
                    match parse_str(s@.skip(next as int)) {
                        Some((u, n)) => {
                            assert(out@ + (seq![b] + u) =~= out@.push(b) + u);
                        },
                        None => {},
                    }
                }
                out.push(b);
                j = next;
            },
        }
    }
}

/// The position just past `p`, where `p` stands at `i`.
fn skip_prefix(s: &[u8], i: usize, p: &[u8]) -> (r: Option<usize>)
    requires
        i <= s@.len(),
    ensures
        match r {
            Some(end) => starts_with(s@.skip(i as int), p@) && end == i + p@.len(),
            None => !starts_with(s@.skip(i as int), p@),
        },
{
    if s.len() - i < p.len() {
        return None;
    }
    let last = i + p.len();
    let mut k: usize = 0;
    while k < p.len()
        invariant
            k <= p@.len(),
            last == i + p@.len(),
            i + p@.len() <= s@.len(),
            forall|m: int| 0 <= m < k ==> s@[i + m] == p@[m],
        decreases p@.len() - k,
    {
        if s[i + k] != p[k] {
            assert(s@.skip(i as int).take(p@.len() as int)[k as int] != p@[k as int]);
            return None;
        }
        k = k + 1;
    }
    assert(s@.skip(i as int).take(p@.len() as int) =~= p@);
    Some(last)
}

/// Decodes `head`, a quoted key and `}}` from `i` on: the key, and the position
/// just past the record.
fn parse_keyed_at(s: &[u8], i: usize, head: &[u8]) -> (r: Option<(Vec<u8>, usize)>)
    requires
        i <= s@.len(),
    ensures
        str_at(r, i as nat, parse_keyed(s@.skip(i as int), head@)),
{
    let ghost t = s@.skip(i as int);
    let end: [u8; 2] = [0x7d, 0x7d];
    assert(end@ == tail());
    let p = match skip_prefix(s, i, head) {
        None => {
            return None;
        },
        Some(p) => p,
    };
    let ghost h = head@.len();
    assert(t.skip(h as int) =~= s@.skip(p as int));
    proof {
        lemma_parse_str_canonical(s@.skip(p as int));
    }
    match parse_str_at(s, p) {
        None => None,
        Some((k, q)) => {
            assert(t.skip(q - i) =~= s@.skip(q as int));
            match skip_prefix(s, q, &end) {
                Some(last) => Some((k, last)),
                None => None,
            }
        },
    }
}

/// Decodes the `Set` record that starts at `i`, whose key starts at `key_at`:
/// the record, and the position just past it.
fn parse_put_at(s: &[u8], i: usize, key_at: usize) -> (r: Option<(Record, usize)>)
    requires
        key_at == i + 15 <= s@.len(),
    ensures
        match parse_set(s@.skip(i as int)) {
            Some((op, n)) => r matches Some((rec, end)) && rec@ == op && end == i + n,
            None => r is None,
        },
{
    let ghost t = s@.skip(i as int);
    let mid: [u8; 10] = [0x2c, 0x22, 0x76, 0x61, 0x6c, 0x75, 0x65, 0x22, 0x3a, 0x22];
    let end: [u8; 2] = [0x7d, 0x7d];
    assert(mid@ == value_mid());
    assert(end@ == tail());
    assert(t.skip(15) =~= s@.skip(key_at as int));
    proof {
        lemma_parse_str_canonical(s@.skip(key_at as int));
    }
    let (key, p) = match parse_str_at(s, key_at) {
        None => {
            return None;
        },
        Some(x) => x,
    };
    assert(t.skip(p - i) =~= s@.skip(p as int));
    let value_at = match skip_prefix(s, p, &mid) {
        None => {
            return None;
        },
        Some(v) => v,
    };
    assert(t.skip(value_at - i) =~= s@.skip(value_at as int));
    proof {
        lemma_parse_str_canonical(s@.skip(value_at as int));
    }
    let (value, q) = match parse_str_at(s, value_at) {
        None => {
            return None;
        },
        Some(x) => x,
    };
    assert(t.skip(q - i) =~= s@.skip(q as int));
    match skip_prefix(s, q, &end) {
        Some(last) => Some((Record::Put { key, value }, last)),
        None => None,
    }
}

/// Decodes the record that starts at `pos`: the record and the number of bytes
/// it takes, or `None` where no well-formed record starts there.
pub fn decode_record(s: &[u8], pos: usize) -> (r: Option<(Record, usize)>)
    requires
        pos <= s@.len(),
    ensures
        same_record(r, parse_record(s@.skip(pos as int))),
{
    proof {
        reveal(encode);
        reveal(parse_record);
    }
    let set_h: [u8; 15] = [
        0x7b, 0x22, 0x53, 0x65, 0x74, 0x22, 0x3a, 0x7b, 0x22, 0x6b, 0x65, 0x79, 0x22, 0x3a, 0x22,
    ];
    let rm_h: [u8; 14] = [
        0x7b, 0x22, 0x52, 0x6d, 0x22, 0x3a, 0x7b, 0x22, 0x6b, 0x65, 0x79, 0x22, 0x3a, 0x22,
    ];
    let get_h: [u8; 15] = [
        0x7b, 0x22, 0x47, 0x65, 0x74, 0x22, 0x3a, 0x7b, 0x22, 0x6b, 0x65, 0x79, 0x22, 0x3a, 0x22,
    ];
    assert(set_h@ == set_head());
    assert(rm_h@ == rm_head());
    assert(get_h@ == get_head());
    let next = if let Some(key_at) = skip_prefix(s, pos, &set_h) {
        parse_put_at(s, pos, key_at)
    } else if skip_prefix(s, pos, &rm_h).is_some() {
        match parse_keyed_at(s, pos, &rm_h) {
            Some((key, end)) => Some((Record::Remove { key }, end)),
            None => None,
        }
    } else if skip_prefix(s, pos, &get_h).is_some() {
        match parse_keyed_at(s, pos, &get_h) {
            Some((key, end)) => Some((Record::Get { key }, end)),
            None => None,
        }
    } else {
        None
    };
    match next {
        Some((rec, end)) => Some((rec, end - pos)),
        None => None,
    }
}

} // verus!
