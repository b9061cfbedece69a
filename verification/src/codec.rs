//! The on-disk format of one log entry.
//!
//! A log entry is framed as a 4-byte big-endian payload length followed by
//! the payload: the JSON tagged-union encoding of a [`Command`], either
//! `{"Set":{"key":K,"value":V}}` or `{"Remove":{"key":K}}`, where `K` and `V`
//! are JSON strings over the UTF-8 bytes of the key and the value.
//!
//! [`payload_of`] is the canonical encoding; [`parse_payload`] is the reader,
//! which accepts the canonical form (plus the standard JSON escapes) and
//! rejects everything else.  [`lemma_parse_payload_of`] proves that the
//! reader inverts the encoder on every command.

use vstd::prelude::*;
use vstd::utf8::*;
use crate::error::RuskError;

verus! {

/// A command recorded in the log.
pub enum Command {
    /// Asserts the binding `key -> value`.
    Put { key: String, value: String },
    /// Asserts that `key` has no binding.
    Rm { key: String },
}

/// The mathematical model of a command: its operands as character sequences.
pub ghost enum CmdModel {
    Put { key: Seq<char>, value: Seq<char> },
    Rm { key: Seq<char> },
}

impl View for Command {
    type V = CmdModel;

    open spec fn view(&self) -> CmdModel {
        match self {
            Command::Put { key, value } => CmdModel::Put { key: key@, value: value@ },
            Command::Rm { key } => CmdModel::Rm { key: key@ },
        }
    }
}

// ---------------------------------------------------------------------------
// The canonical encoding.
// ---------------------------------------------------------------------------

/// Hexadecimal digit for a value below 16, lower case.
pub open spec fn hex_digit(v: u8) -> u8 {
    if v < 10 {
        (48 + v) as u8
    } else {
        (87 + v) as u8
    }
}

/// JSON escape of one byte of UTF-8 text, as the encoder emits it: quote and
/// backslash get a two-byte escape, control bytes get a named escape or
/// `\u00XX`, and every other byte stands for itself.
pub open spec fn esc_byte(b: u8) -> Seq<u8> {
    if b == 34 {
        seq![92u8, 34u8]
    } else if b == 92 {
        seq![92u8, 92u8]
    } else if b == 8 {
        seq![92u8, 98u8]
    } else if b == 9 {
        seq![92u8, 116u8]
    } else if b == 10 {
        seq![92u8, 110u8]
    } else if b == 12 {
        seq![92u8, 102u8]
    } else if b == 13 {
        seq![92u8, 114u8]
    } else if b < 32 {
        seq![92u8, 117u8, 48u8, 48u8, hex_digit((b / 16) as u8), hex_digit((b % 16) as u8)]
    } else {
        seq![b]
    }
}

/// JSON escape of a byte string, byte by byte.
pub open spec fn esc_bytes(b: Seq<u8>) -> Seq<u8>
    decreases b.len(),
{
    if b.len() == 0 {
        Seq::empty()
    } else {
        esc_byte(b[0]) + esc_bytes(b.skip(1))
    }
}

/// A JSON string's escaped content and its closing quote.  The opening quote
/// belongs to the literal that precedes it in the payload.
pub open spec fn json_str(s: Seq<char>) -> Seq<u8> {
    esc_bytes(encode_utf8(s)) + seq![34u8]
}

/// The bytes of `{"Set":{"key":"`.
pub open spec fn lit_set() -> Seq<u8> {
    seq![123u8, 34u8, 83u8, 101u8, 116u8, 34u8, 58u8, 123u8, 34u8, 107u8, 101u8, 121u8, 34u8, 58u8, 34u8]
}

/// The bytes of `,"value":"`.
pub open spec fn lit_value() -> Seq<u8> {
    seq![44u8, 34u8, 118u8, 97u8, 108u8, 117u8, 101u8, 34u8, 58u8, 34u8]
}

/// The bytes of `{"Remove":{"key":"`.
pub open spec fn lit_remove() -> Seq<u8> {
    seq![123u8, 34u8, 82u8, 101u8, 109u8, 111u8, 118u8, 101u8, 34u8, 58u8, 123u8, 34u8, 107u8, 101u8, 121u8, 34u8, 58u8, 34u8]
}

/// The bytes of `}}`.
pub open spec fn lit_end() -> Seq<u8> {
    seq![125u8, 125u8]
}

/// The canonical payload bytes of a command.
pub open spec fn payload_of(c: CmdModel) -> Seq<u8> {
    match c {
        CmdModel::Put { key, value } => lit_set() + json_str(key) + lit_value() + json_str(value) + lit_end(),
        CmdModel::Rm { key } => lit_remove() + json_str(key) + lit_end(),
    }
}

/// Big-endian 4-byte representation of a payload length.
pub open spec fn be32(n: nat) -> Seq<u8> {
    seq![
        (n / 0x1000000 % 256) as u8,
        (n / 0x10000 % 256) as u8,
        (n / 0x100 % 256) as u8,
        (n % 256) as u8,
    ]
}

/// The value of a 4-byte big-endian length header.
pub open spec fn hdr_val(b: Seq<u8>) -> nat {
    (b[0] * 0x1000000 + b[1] * 0x10000 + b[2] * 0x100 + b[3]) as nat
}

/// One whole log entry: length header, then payload.
pub open spec fn frame_of(c: CmdModel) -> Seq<u8> {
    be32(payload_of(c).len()) + payload_of(c)
}

// ---------------------------------------------------------------------------
// The reader, as a specification.
// ---------------------------------------------------------------------------

/// Value of one hexadecimal digit byte, either case.
pub open spec fn hex_val(b: u8) -> Option<u8> {
    if 48 <= b && b <= 57 {
        Some((b - 48) as u8)
    } else if 97 <= b && b <= 102 {
        Some((b - 87) as u8)
    } else if 65 <= b && b <= 70 {
        Some((b - 55) as u8)
    } else {
        None
    }
}

/// The byte named by a single-character escape.
pub open spec fn unesc_byte(e: u8) -> Option<u8> {
    if e == 34 {
        Some(34u8)
    } else if e == 92 {
        Some(92u8)
    } else if e == 47 {
        Some(47u8)
    } else if e == 98 {
        Some(8u8)
    } else if e == 102 {
        Some(12u8)
    } else if e == 110 {
        Some(10u8)
    } else if e == 114 {
        Some(13u8)
    } else if e == 116 {
        Some(9u8)
    } else {
        None
    }
}

/// Parse a JSON string body from the start of `b` (the opening quote has
/// already been consumed): the unescaped bytes, and how many input bytes were
/// consumed, including the closing quote.  `None` rejects the input: a raw
/// control byte, an unknown escape, a `\u` escape outside the ASCII range, or
/// a missing closing quote.
pub open spec fn parse_str(b: Seq<u8>) -> Option<(Seq<u8>, nat)>
    decreases b.len(),
{
    if b.len() == 0 {
        None
    } else if b[0] == 34 {
        Some((Seq::empty(), 1nat))
    } else if b[0] == 92 {
        if b.len() < 2 {
            None
        } else if b[1] == 117 {
            if b.len() < 6 {
                None
            } else {
                match (hex_val(b[2]), hex_val(b[3]), hex_val(b[4]), hex_val(b[5])) {
                    (Some(h0), Some(h1), Some(h2), Some(h3)) => {
                        let cp = h0 * 4096 + h1 * 256 + h2 * 16 + h3;
                        if cp < 128 {
                            match parse_str(b.skip(6)) {
                                Some((s, n)) => Some((seq![cp as u8] + s, (6 + n) as nat)),
                                None => None,
                            }
                        } else {
                            None
                        }
                    },
                    _ => None,
                }
            }
        } else {
            match unesc_byte(b[1]) {
                Some(x) => match parse_str(b.skip(2)) {
                    Some((s, n)) => Some((seq![x] + s, (2 + n) as nat)),
                    None => None,
                },
                None => None,
            }
        }
    } else if b[0] < 32 {
        None
    } else {
        match parse_str(b.skip(1)) {
            Some((s, n)) => Some((seq![b[0]] + s, (1 + n) as nat)),
            None => None,
        }
    }
}

/// Whether `b` begins with `p`.
pub open spec fn starts_with(b: Seq<u8>, p: Seq<u8>) -> bool {
    b.len() >= p.len() && b.take(p.len() as int) == p
}

/// Parse a whole payload.  `None` rejects the input.
pub open spec fn parse_payload(b: Seq<u8>) -> Option<CmdModel> {
    if starts_with(b, lit_set()) {
        match parse_str(b.skip(15)) {
            Some((kb, n1)) => {
                let r1 = b.skip(15 + n1 as int);
                if starts_with(r1, lit_value()) {
                    match parse_str(r1.skip(10)) {
                        Some((vb, n2)) => {
                            if r1.skip(10 + n2 as int) == lit_end() && valid_utf8(kb) && valid_utf8(vb) {
                                Some(CmdModel::Put { key: decode_utf8(kb), value: decode_utf8(vb) })
                            } else {
                                None
                            }
                        },
                        None => None,
                    }
                } else {
                    None
                }
            },
            None => None,
        }
    } else if starts_with(b, lit_remove()) {
        match parse_str(b.skip(18)) {
            Some((kb, n1)) => {
                if b.skip(18 + n1 as int) == lit_end() && valid_utf8(kb) {
                    Some(CmdModel::Rm { key: decode_utf8(kb) })
                } else {
                    None
                }
            },
            None => None,
        }
    } else {
        None
    }
}

/// Parse a whole log entry: the header must announce exactly the rest of the
/// bytes, and the rest must be a well-formed payload.
pub open spec fn parse_frame(b: Seq<u8>) -> Option<CmdModel> {
    if b.len() >= 4 && b.len() - 4 == hdr_val(b.take(4)) {
        parse_payload(b.skip(4))
    } else {
        None
    }
}

// ---------------------------------------------------------------------------
// Round trip: the reader inverts the canonical encoder.
// ---------------------------------------------------------------------------

proof fn lemma_esc_snoc(b: Seq<u8>, x: u8)
    ensures
        esc_bytes(b.push(x)) == esc_bytes(b) + esc_byte(x),
    decreases b.len(),
{
    if b.len() == 0 {
        assert(b.push(x).skip(1) =~= Seq::<u8>::empty());
        assert(b.push(x)[0] == x);
        assert(esc_bytes(b.push(x)) == esc_byte(x) + esc_bytes(Seq::<u8>::empty()));
        assert(esc_bytes(b.push(x)) =~= esc_bytes(b) + esc_byte(x));
    } else {
        assert(b.push(x).skip(1) =~= b.skip(1).push(x));
        lemma_esc_snoc(b.skip(1), x);
        assert(b.push(x)[0] == b[0]);
        assert(esc_bytes(b.push(x)) == esc_byte(b[0]) + (esc_bytes(b.skip(1)) + esc_byte(x)));
        assert(esc_bytes(b.push(x)) =~= esc_bytes(b) + esc_byte(x));
    }
}

proof fn lemma_parse_esc(b: Seq<u8>, t: Seq<u8>)
    ensures
        parse_str(esc_bytes(b) + seq![34u8] + t) == Some((b, (esc_bytes(b).len() + 1) as nat)),
    decreases b.len(),
{
    let w = esc_bytes(b) + seq![34u8] + t;
    if b.len() == 0 {
        assert(esc_bytes(b) == Seq::<u8>::empty());
        assert(w[0] == 34);
        assert(b =~= Seq::<u8>::empty());
    } else {
        let x = b[0];
        let e = esc_byte(x);
        let w1 = esc_bytes(b.skip(1)) + seq![34u8] + t;
        lemma_parse_esc(b.skip(1), t);
        assert(esc_bytes(b) == e + esc_bytes(b.skip(1)));
        assert(w =~= e + w1);
        match parse_str(w1) {
            Some((s1, n1)) => {
                assert(s1 == b.skip(1) && n1 == esc_bytes(b.skip(1)).len() + 1);
                if x == 34 || x == 92 || x == 8 || x == 9 || x == 10 || x == 12 || x == 13 {
                    assert(e.len() == 2 && w[0] == 92 && w[1] == e[1]);
                    assert(w[1] != 117);
                    assert(unesc_byte(e[1]) == Some(x));
                    assert(w.skip(2) =~= w1);
                    assert(parse_str(w) == Some((seq![x] + s1, (2 + n1) as nat)));
                } else if x < 32 {
                    assert(e.len() == 6);
                    assert(w[0] == 92 && w[1] == 117 && w[2] == 48 && w[3] == 48);
                    assert(w[4] == hex_digit((x / 16) as u8) && w[5] == hex_digit((x % 16) as u8));
                    assert(hex_val(48u8) == Some(0u8));
                    assert(hex_val(hex_digit((x / 16) as u8)) == Some((x / 16) as u8));
                    assert(hex_val(hex_digit((x % 16) as u8)) == Some((x % 16) as u8));
                    assert((x / 16) * 16 + (x % 16) == x) by {
                        vstd::arithmetic::div_mod::lemma_fundamental_div_mod(x as int, 16);
                    };
                    assert(w.skip(6) =~= w1);
                    assert(parse_str(w) == Some((seq![x] + s1, (6 + n1) as nat)));
                } else {
                    assert(e.len() == 1 && w[0] == x);
                    assert(x != 34 && x != 92 && x >= 32);
                    assert(w.skip(1) =~= w1);
                    assert(parse_str(w) == Some((seq![x] + s1, (1 + n1) as nat)));
                }
                assert(seq![x] + s1 =~= b);
            },
            None => {
                assert(false);
            },
        }
    }
}

proof fn lemma_hdr_be32(n: nat)
    requires
        n <= 0xFFFFFFFF,
    ensures
        hdr_val(be32(n)) == n,
{
    let x = n as u32;
    assert((x / 0x1000000 % 256) * 0x1000000 + (x / 0x10000 % 256) * 0x10000 + (x / 0x100 % 256)
        * 0x100 + (x % 256) == x) by (bit_vector);
    assert(x / 0x1000000 % 256 == n / 0x1000000 % 256);
    assert(x / 0x10000 % 256 == n / 0x10000 % 256);
    assert(x / 0x100 % 256 == n / 0x100 % 256);
    assert(x % 256 == n % 256);
}

/// The reader inverts the canonical encoder on every command's payload.
#[verifier::rlimit(100)]
pub proof fn lemma_parse_payload_of(c: CmdModel)
    ensures
        parse_payload(payload_of(c)) == Some(c),
{
    match c {
        CmdModel::Put { key, value } => {
            let ek = encode_utf8(key);
            let ev = encode_utf8(value);
            let w = payload_of(c);
            assert(starts_with(w, lit_set())) by {
                assert(w.take(15) =~= lit_set());
            };
            let t1 = lit_value() + json_str(value) + lit_end();
            assert(w.skip(15) =~= esc_bytes(ek) + seq![34u8] + t1);
            lemma_parse_esc(ek, t1);
            let n1 = esc_bytes(ek).len() + 1;
            assert(parse_str(w.skip(15)) == Some((ek, n1 as nat)));
            let r1 = w.skip(15 + n1 as int);
            assert(r1 =~= t1);
            assert(starts_with(r1, lit_value())) by {
                assert(r1.take(10) =~= lit_value());
            };
            assert(r1.skip(10) =~= esc_bytes(ev) + seq![34u8] + lit_end());
            lemma_parse_esc(ev, lit_end());
            let n2 = esc_bytes(ev).len() + 1;
            assert(parse_str(r1.skip(10)) == Some((ev, n2 as nat)));
            assert(r1.skip(10 + n2 as int) =~= lit_end());
            encode_utf8_valid_utf8(key);
            encode_utf8_valid_utf8(value);
            encode_utf8_decode_utf8(key);
            encode_utf8_decode_utf8(value);
        },
        CmdModel::Rm { key } => {
            let ek = encode_utf8(key);
            let w = payload_of(c);
            assert(w[2] == 82);
            assert(!starts_with(w, lit_set())) by {
                if starts_with(w, lit_set()) {
                    assert(w.take(15)[2] == lit_set()[2]);
                }
            };
            assert(starts_with(w, lit_remove())) by {
                assert(w.take(18) =~= lit_remove());
            };
            assert(w.skip(18) =~= esc_bytes(ek) + seq![34u8] + lit_end());
            lemma_parse_esc(ek, lit_end());
            let n1 = esc_bytes(ek).len() + 1;
            assert(parse_str(w.skip(18)) == Some((ek, n1 as nat)));
            assert(w.skip(18 + n1 as int) =~= lit_end());
            encode_utf8_valid_utf8(key);
            encode_utf8_decode_utf8(key);
        },
    }
}

/// A canonical frame parses back to its command.
pub proof fn lemma_parse_frame_of(c: CmdModel)
    requires
        payload_of(c).len() <= 0xFFFFFFFF,
    ensures
        parse_frame(frame_of(c)) == Some(c),
{
    let p = payload_of(c);
    let f = frame_of(c);
    lemma_hdr_be32(p.len());
    assert(f.take(4) =~= be32(p.len()));
    assert(f.skip(4) =~= p);
    lemma_parse_payload_of(c);
}

// ---------------------------------------------------------------------------
// The executable encoder.
// ---------------------------------------------------------------------------

fn hex_digit_x(v: u8) -> (r: u8)
    requires
        v < 16,
    ensures
        r == hex_digit(v),
{
    if v < 10 {
        48 + v
    } else {
        87 + v
    }
}

fn push_esc_byte(out: &mut Vec<u8>, x: u8)
    ensures
        final(out)@ == old(out)@ + esc_byte(x),
{
    if x == 34 {
        out.push(92);
        out.push(34);
    } else if x == 92 {
        out.push(92);
        out.push(92);
    } else if x == 8 {
        out.push(92);
        out.push(98);
    } else if x == 9 {
        out.push(92);
        out.push(116);
    } else if x == 10 {
        out.push(92);
        out.push(110);
    } else if x == 12 {
        out.push(92);
        out.push(102);
    } else if x == 13 {
        out.push(92);
        out.push(114);
    } else if x < 32 {
        out.push(92);
        out.push(117);
        out.push(48);
        out.push(48);
        out.push(hex_digit_x(x / 16));
        out.push(hex_digit_x(x % 16));
    } else {
        out.push(x);
    }
    proof {
        assert(out@ =~= old(out)@ + esc_byte(x));
    }
}

fn push_json_str(out: &mut Vec<u8>, s: &String)
    ensures
        final(out)@ == old(out)@ + json_str(s@),
{
    let b: &[u8] = s.as_str().as_bytes();
    proof {
        assert(b@ == encode_utf8(s@));
    }
    let n = b.len();
    let mut i: usize = 0;
    while i < n
        invariant
            n == b@.len(),
            i <= n,
            b@ == encode_utf8(s@),
            out@ == old(out)@ + esc_bytes(b@.take(i as int)),
        decreases n - i,
    {
        let x = b[i];
        push_esc_byte(out, x);
        proof {
            lemma_esc_snoc(b@.take(i as int), x);
            assert(b@.take(i + 1) =~= b@.take(i as int).push(x));
            assert(out@ =~= old(out)@ + esc_bytes(b@.take(i + 1)));
        }
        i += 1;
    }
    out.push(34);
    proof {
        assert(b@.take(n as int) =~= b@);
        assert(out@ =~= old(out)@ + json_str(s@));
    }
}

fn lit_set_vec() -> (r: Vec<u8>)
    ensures
        r@ == lit_set(),
{
    let mut v: Vec<u8> = Vec::new();
    v.push(123);
    v.push(34);
    v.push(83);
    v.push(101);
    v.push(116);
    v.push(34);
    v.push(58);
    v.push(123);
    v.push(34);
    v.push(107);
    v.push(101);
    v.push(121);
    v.push(34);
    v.push(58);
    v.push(34);
    proof {
        assert(v@ =~= lit_set());
    }
    v
}

fn lit_value_vec() -> (r: Vec<u8>)
    ensures
        r@ == lit_value(),
{
    let mut v: Vec<u8> = Vec::new();
    v.push(44);
    v.push(34);
    v.push(118);
    v.push(97);
    v.push(108);
    v.push(117);
    v.push(101);
    v.push(34);
    v.push(58);
    v.push(34);
    proof {
        assert(v@ =~= lit_value());
    }
    v
}

fn lit_remove_vec() -> (r: Vec<u8>)
    ensures
        r@ == lit_remove(),
{
    let mut v: Vec<u8> = Vec::new();
    v.push(123);
    v.push(34);
    v.push(82);
    v.push(101);
    v.push(109);
    v.push(111);
    v.push(118);
    v.push(101);
    v.push(34);
    v.push(58);
    v.push(123);
    v.push(34);
    v.push(107);
    v.push(101);
    v.push(121);
    v.push(34);
    v.push(58);
    v.push(34);
    proof {
        assert(v@ =~= lit_remove());
    }
    v
}

fn lit_end_vec() -> (r: Vec<u8>)
    ensures
        r@ == lit_end(),
{
    let mut v: Vec<u8> = Vec::new();
    v.push(125);
    v.push(125);
    proof {
        assert(v@ =~= lit_end());
    }
    v
}

/// Encode a command into its canonical JSON payload bytes.
pub fn encode_command(cmd: &Command) -> (r: Vec<u8>)
    ensures
        r@ == payload_of(cmd@),
{
    let mut out: Vec<u8> = Vec::new();
    match cmd {
        Command::Put { key, value } => {
            let mut l = lit_set_vec();
            out.append(&mut l);
            push_json_str(&mut out, key);
            let mut l2 = lit_value_vec();
            out.append(&mut l2);
            push_json_str(&mut out, value);
            let mut l3 = lit_end_vec();
            out.append(&mut l3);
            proof {
                assert(out@ =~= payload_of(cmd@));
            }
        },
        Command::Rm { key } => {
            let mut l = lit_remove_vec();
            out.append(&mut l);
            push_json_str(&mut out, key);
            let mut l3 = lit_end_vec();
            out.append(&mut l3);
            proof {
                assert(out@ =~= payload_of(cmd@));
            }
        },
    }
    out
}

/// Encode a whole log entry: the 4-byte big-endian length header, then the
/// canonical payload.
pub fn encode_frame(cmd: &Command) -> (r: Vec<u8>)
    requires
        payload_of(cmd@).len() <= 0xFFFFFFFF,
    ensures
        r@ == frame_of(cmd@),
{
    let payload = encode_command(cmd);
    let n = payload.len();
    let mut out: Vec<u8> = Vec::new();
    out.push(((n / 0x1000000) % 256) as u8);
    out.push(((n / 0x10000) % 256) as u8);
    out.push(((n / 0x100) % 256) as u8);
    out.push((n % 256) as u8);
    proof {
        assert(out@ =~= be32(payload_of(cmd@).len()));
    }
    let mut p = payload;
    out.append(&mut p);
    proof {
        assert(out@ =~= frame_of(cmd@));
    }
    out
}

// ---------------------------------------------------------------------------
// The executable reader.
// ---------------------------------------------------------------------------

/// Relies on `String::from_utf8`: it returns `Ok` exactly on valid UTF-8,
/// yielding the string those bytes encode.
#[verifier::external_body]
fn bytes_to_string(bytes: &Vec<u8>) -> (r: Option<String>)
    ensures
        r is Some <==> valid_utf8(bytes@),
        r matches Some(s) ==> s@ == decode_utf8(bytes@) && encode_utf8(s@) == bytes@,
{
    match String::from_utf8(bytes.clone()) {
        Ok(s) => Some(s),
        Err(_) => None,
    }
}

fn hex_val_x(b: u8) -> (r: Option<u8>)
    ensures
        r == hex_val(b),
{
    if 48 <= b && b <= 57 {
        Some(b - 48)
    } else if 97 <= b && b <= 102 {
        Some(b - 87)
    } else if 65 <= b && b <= 70 {
        Some(b - 55)
    } else {
        None
    }
}

fn unesc_byte_x(e: u8) -> (r: Option<u8>)
    ensures
        r == unesc_byte(e),
{
    if e == 34 {
        Some(34)
    } else if e == 92 {
        Some(92)
    } else if e == 47 {
        Some(47)
    } else if e == 98 {
        Some(8)
    } else if e == 102 {
        Some(12)
    } else if e == 110 {
        Some(10)
    } else if e == 114 {
        Some(13)
    } else if e == 116 {
        Some(9)
    } else {
        None
    }
}

fn match_lit(b: &[u8], at: usize, lit: &Vec<u8>) -> (r: bool)
    requires
        at <= b@.len(),
    ensures
        r == starts_with(b@.skip(at as int), lit@),
{
    let blen = b.len();
    if blen - at < lit.len() {
        return false;
    }
    let mut i: usize = 0;
    while i < lit.len()
        invariant
            blen == b@.len(),
            at <= b@.len(),
            i <= lit@.len(),
            b@.len() - at >= lit@.len(),
            forall|j: int| 0 <= j < i ==> b@[at + j] == lit@[j],
        decreases lit@.len() - i,
    {
        if b[at + i] != lit[i] {
            proof {
                assert(!starts_with(b@.skip(at as int), lit@)) by {
                    if starts_with(b@.skip(at as int), lit@) {
                        assert(b@.skip(at as int).take(lit@.len() as int)[i as int]
                            == lit@[i as int]);
                    }
                };
            }
            return false;
        }
        i += 1;
    }
    proof {
        assert(b@.skip(at as int).take(lit@.len() as int) =~= lit@);
    }
    true
}

/// Run the string-body reader over `b` from index `start`, per [`parse_str`]:
/// the unescaped bytes and the index just past the closing quote.
fn parse_str_x(b: &[u8], start: usize) -> (r: Option<(Vec<u8>, usize)>)
    requires
        start <= b@.len(),
    ensures
        match r {
            Some(p) => parse_str(b@.skip(start as int)) == Some((p.0@, (p.1 - start) as nat))
                && start < p.1 <= b@.len(),
            None => parse_str(b@.skip(start as int)) is None,
        },
{
    let mut acc: Vec<u8> = Vec::new();
    let mut i: usize = start;
    loop
        invariant
            start <= i <= b@.len(),
            (match parse_str(b@.skip(i as int)) {
                Some(p) => parse_str(b@.skip(start as int)) == Some(
                    (acc@ + p.0, (i - start + p.1) as nat),
                ),
                None => parse_str(b@.skip(start as int)) is None,
            }),
        decreases b@.len() - i,
    {
        if i == b.len() {
            proof {
                assert(b@.skip(i as int) =~= Seq::<u8>::empty());
            }
            return None;
        }
        let x = b[i];
        proof {
            assert(b@.skip(i as int)[0] == x);
        }
        if x == 34 {
            proof {
                assert(parse_str(b@.skip(i as int)) == Some((Seq::<u8>::empty(), 1nat)));
                assert(acc@ + Seq::<u8>::empty() =~= acc@);
            }
            return Some((acc, i + 1));
        } else if x == 92 {
            if b.len() - i < 2 {
                return None;
            }
            let e = b[i + 1];
            proof {
                assert(b@.skip(i as int)[1] == e);
            }
            if e == 117 {
                if b.len() - i < 6 {
                    return None;
                }
                let h0 = hex_val_x(b[i + 2]);
                let h1 = hex_val_x(b[i + 3]);
                let h2 = hex_val_x(b[i + 4]);
                let h3 = hex_val_x(b[i + 5]);
                proof {
                    assert(b@.skip(i as int)[2] == b@[i + 2]);
                    assert(b@.skip(i as int)[3] == b@[i + 3]);
                    assert(b@.skip(i as int)[4] == b@[i + 4]);
                    assert(b@.skip(i as int)[5] == b@[i + 5]);
                }
                match (h0, h1, h2, h3) {
                    (Some(d0), Some(d1), Some(d2), Some(d3)) => {
                        let cp: u32 = (d0 as u32) * 4096 + (d1 as u32) * 256 + (d2 as u32) * 16
                            + (d3 as u32);
                        if cp >= 128 {
                            return None;
                        }
                        let ghost acc0 = acc@;
                        acc.push(cp as u8);
                        proof {
                            assert(b@.skip(i as int).skip(6) =~= b@.skip(i + 6));
                            assert(acc@ =~= acc0 + seq![cp as u8]);
                            match parse_str(b@.skip(i + 6)) {
                                Some(p) => {
                                    assert(acc0 + (seq![cp as u8] + p.0) =~= acc@ + p.0);
                                },
                                None => {},
                            }
                        }
                        i += 6;
                    },
                    _ => {
                        return None;
                    },
                }
            } else {
                match unesc_byte_x(e) {
                    Some(u) => {
                        let ghost acc0 = acc@;
                        acc.push(u);
                        proof {
                            assert(b@.skip(i as int).skip(2) =~= b@.skip(i + 2));
                            assert(acc@ =~= acc0 + seq![u]);
                            match parse_str(b@.skip(i + 2)) {
                                Some(p) => {
                                    assert(acc0 + (seq![u] + p.0) =~= acc@ + p.0);
                                },
                                None => {},
                            }
                        }
                        i += 2;
                    },
                    None => {
                        return None;
                    },
                }
            }
        } else if x < 32 {
            return None;
        } else {
            let ghost acc0 = acc@;
            acc.push(x);
            proof {
                assert(b@.skip(i as int).skip(1) =~= b@.skip(i + 1));
                assert(acc@ =~= acc0 + seq![x]);
                match parse_str(b@.skip(i + 1)) {
                    Some(p) => {
                        assert(acc0 + (seq![x] + p.0) =~= acc@ + p.0);
                    },
                    None => {},
                }
            }
            i += 1;
        }
    }
}

/// Decode a payload.  Returns exactly what the reader specification
/// [`parse_payload`] yields: the command on a well-formed payload, and a
/// serialization error on everything else.
#[verifier::rlimit(100)]
pub fn decode_command(b: &[u8]) -> (r: Result<Command, RuskError>)
    ensures
        match parse_payload(b@) {
            Some(c) => r matches Ok(d) && d@ == c,
            None => r matches Err(RuskError::Serde),
        },
{
    let blen = b.len();
    let ls = lit_set_vec();
    let lr = lit_remove_vec();
    proof {
        assert(b@.skip(0) =~= b@);
    }
    if match_lit(b, 0, &ls) {
        match parse_str_x(b, 15) {
            None => { proof { assert(parse_payload(b@) is None); } Err(RuskError::Serde) },
            Some((kb, p1)) => {
                let lv = lit_value_vec();
                proof {
                    assert(b@.skip(15int).skip(p1 - 15) =~= b@.skip(p1 as int));
                }
                if match_lit(b, p1, &lv) {
                    proof {
                        assert(p1 + 10 <= b@.len());
                    }
                    match parse_str_x(b, p1 + 10) {
                        None => {
                            proof {
                                assert(b@.skip(p1 as int).skip(10) =~= b@.skip(p1 + 10));
                            }
                            proof { assert(parse_payload(b@) is None); }
                            Err(RuskError::Serde)
                        },
                        Some((vb, p2)) => {
                            proof {
                                assert(b@.skip(p1 as int).skip(10) =~= b@.skip(p1 + 10));
                                assert(b@.skip(p1 as int).skip(10 + (p2 - (p1 + 10))) =~= b@.skip(
                                    p2 as int,
                                ));
                            }
                            let le = lit_end_vec();
                            if b.len() - p2 == 2 && match_lit(b, p2, &le) {
                                proof {
                                    assert(b@.skip(p2 as int) =~= lit_end());
                                }
                                let ko = bytes_to_string(&kb);
                                let vo = bytes_to_string(&vb);
                                match (ko, vo) {
                                    (Some(k), Some(v)) => Ok(Command::Put { key: k, value: v }),
                                    _ => { proof { assert(parse_payload(b@) is None); } Err(RuskError::Serde) },
                                }
                            } else {
                                proof {
                                    if b@.skip(p2 as int) == lit_end() {
                                        assert(b@.len() - p2 == 2);
                                        assert(b@.skip(p2 as int).take(2int) =~= b@.skip(
                                            p2 as int,
                                        ));
                                        assert(starts_with(b@.skip(p2 as int), lit_end()));
                                    }
                                }
                                proof { assert(parse_payload(b@) is None); }
                                Err(RuskError::Serde)
                            }
                        },
                    }
                } else {
                    proof { assert(parse_payload(b@) is None); }
                    Err(RuskError::Serde)
                }
            },
        }
    } else if match_lit(b, 0, &lr) {
        match parse_str_x(b, 18) {
            None => { proof { assert(parse_payload(b@) is None); } Err(RuskError::Serde) },
            Some((kb, p1)) => {
                proof {
                    assert(b@.skip(18int).skip(p1 - 18) =~= b@.skip(p1 as int));
                }
                let le = lit_end_vec();
                if b.len() - p1 == 2 && match_lit(b, p1, &le) {
                    proof {
                        assert(b@.skip(p1 as int) =~= lit_end());
                    }
                    match bytes_to_string(&kb) {
                        Some(k) => Ok(Command::Rm { key: k }),
                        None => { proof { assert(parse_payload(b@) is None); } Err(RuskError::Serde) },
                    }
                } else {
                    proof {
                        if b@.skip(p1 as int) == lit_end() {
                            assert(b@.len() - p1 == 2);
                            assert(b@.skip(p1 as int).take(2int) =~= b@.skip(p1 as int));
                            assert(starts_with(b@.skip(p1 as int), lit_end()));
                        }
                    }
                    proof { assert(parse_payload(b@) is None); }
                    Err(RuskError::Serde)
                }
            },
        }
    } else {
        proof { assert(parse_payload(b@) is None); }
        Err(RuskError::Serde)
    }
}

/// Decode a whole log entry, per [`parse_frame`].
pub fn decode_frame(b: &[u8]) -> (r: Result<Command, RuskError>)
    ensures
        match parse_frame(b@) {
            Some(c) => r matches Ok(d) && d@ == c,
            None => r matches Err(RuskError::Serde),
        },
{
    if b.len() < 4 {
        return Err(RuskError::Serde);
    }
    let n: u64 = (b[0] as u64) * 0x1000000 + (b[1] as u64) * 0x10000 + (b[2] as u64) * 0x100 + (
    b[3] as u64);
    proof {
        assert(b@.take(4)[0] == b@[0] && b@.take(4)[1] == b@[1] && b@.take(4)[2] == b@[2] && b@.take(
            4,
        )[3] == b@[3]);
    }
    if (b.len() - 4) as u64 != n {
        return Err(RuskError::Serde);
    }
    let payload: &[u8] = &b[4..b.len()];
    proof {
        assert(payload@ =~= b@.skip(4));
    }
    decode_command(payload)
}

} // verus!
