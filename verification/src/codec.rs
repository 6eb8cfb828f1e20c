//! The wire format of [`SignalMessage`]: a tagged JSON text frame, encoded
//! and decoded here as verified functions over bytes. The encoder is
//! canonical — fixed key order, no whitespace, a fixed escape for every
//! byte — and the decoder accepts exactly the canonical encodings, so a
//! frame decodes if and only if it is the encoding of a message, and
//! decoding failure is a typed error, never a panic.

use vstd::prelude::*;
use vstd::utf8::{encode_utf8, valid_utf8, encode_utf8_valid_utf8, encode_utf8_decode_utf8};
use crate::hex::hex_digit_byte;
use crate::messages::{SignalMessage, SignalView};

verus! {

// ---------------------------------------------------------------------------
// The canonical escape
// ---------------------------------------------------------------------------
/// The canonical escape of one byte inside a JSON string: `\"` for a quote,
/// `\\` for a backslash, `\u00xy` (lowercase hex) for a control byte, and
/// the byte itself otherwise. Bytes of multi-byte UTF-8 characters are at
/// least 0x80 and pass through unchanged.
pub open spec fn escape_byte(b: u8) -> Seq<u8> {
    if b == 34 {
        seq![92u8, 34u8]
    } else if b == 92 {
        seq![92u8, 92u8]
    } else if b < 32 {
        seq![92u8, 117u8, 48u8, 48u8, hex_digit_byte(b / 16), hex_digit_byte(b % 16)]
    } else {
        seq![b]
    }
}

/// The canonical escape of a byte sequence.
pub open spec fn escape_bytes(s: Seq<u8>) -> Seq<u8>
    decreases s.len(),
{
    if s.len() == 0 {
        Seq::empty()
    } else {
        escape_byte(s[0]) + escape_bytes(s.drop_first())
    }
}

/// The bytes of one string field on the wire: its UTF-8 bytes, escaped.
pub open spec fn escape_field(f: Seq<char>) -> Seq<u8> {
    escape_bytes(encode_utf8(f))
}

// ---------------------------------------------------------------------------
// The frame structure
// ---------------------------------------------------------------------------
/// The opening of a `join` frame, up to its field value.
pub open spec fn open_join() -> Seq<u8> {
    encode_utf8("{\"type\":\"join\",\"device_id\":\""@)
}

/// The opening of an `offer` frame, up to its payload value.
pub open spec fn open_offer() -> Seq<u8> {
    encode_utf8("{\"type\":\"offer\",\"payload\":\""@)
}

/// The opening of an `answer` frame, up to its payload value.
pub open spec fn open_answer() -> Seq<u8> {
    encode_utf8("{\"type\":\"answer\",\"payload\":\""@)
}

/// The opening of an `ice_candidate` frame, up to its payload value.
pub open spec fn open_ice_candidate() -> Seq<u8> {
    encode_utf8("{\"type\":\"ice_candidate\",\"payload\":\""@)
}

/// The opening of a `peer_disconnected` frame, up to its field value.
pub open spec fn open_peer_disconnected() -> Seq<u8> {
    encode_utf8("{\"type\":\"peer_disconnected\",\"device_id\":\""@)
}

/// The opening of an `error` frame, up to its field value.
pub open spec fn open_error() -> Seq<u8> {
    encode_utf8("{\"type\":\"error\",\"message\":\""@)
}

/// The separator between a payload value and the target key.
pub open spec fn mid_target() -> Seq<u8> {
    encode_utf8("\",\"target\":\""@)
}

/// The closing of every frame.
pub open spec fn close_frame() -> Seq<u8> {
    encode_utf8("\"}"@)
}

/// The canonical encoding of a message view: the frame opening for its
/// tag, its escaped field values, and the frame closing.
pub open spec fn spec_encode(m: SignalView) -> Seq<u8> {
    match m {
        SignalView::Join { device_id } => open_join() + escape_field(device_id) + close_frame(),
        SignalView::Offer { payload, target } => open_offer() + escape_field(payload)
            + mid_target() + escape_field(target) + close_frame(),
        SignalView::Answer { payload, target } => open_answer() + escape_field(payload)
            + mid_target() + escape_field(target) + close_frame(),
        SignalView::IceCandidate { payload, target } => open_ice_candidate() + escape_field(
            payload,
        ) + mid_target() + escape_field(target) + close_frame(),
        SignalView::PeerDisconnected { device_id } => open_peer_disconnected() + escape_field(
            device_id,
        ) + close_frame(),
        SignalView::Error { message } => open_error() + escape_field(message) + close_frame(),
    }
}

// ---------------------------------------------------------------------------
// Encoding
// ---------------------------------------------------------------------------
/// Escaping distributes over concatenation.
proof fn lemma_escape_bytes_concat(a: Seq<u8>, b: Seq<u8>)
    ensures
        escape_bytes(a + b) == escape_bytes(a) + escape_bytes(b),
    decreases a.len(),
{
    if a.len() == 0 {
        assert(a + b =~= b);
        assert(escape_bytes(a) + escape_bytes(b) =~= escape_bytes(b));
    } else {
        lemma_escape_bytes_concat(a.drop_first(), b);
        assert((a + b).drop_first() =~= a.drop_first() + b);
        assert(escape_byte(a[0]) + (escape_bytes(a.drop_first()) + escape_bytes(b)) =~= (
        escape_byte(a[0]) + escape_bytes(a.drop_first())) + escape_bytes(b));
    }
}

/// Escaping one more byte appends that byte's escape.
proof fn lemma_escape_bytes_take_succ(s: Seq<u8>, i: int)
    requires
        0 <= i < s.len(),
    ensures
        escape_bytes(s.take(i + 1)) == escape_bytes(s.take(i)) + escape_byte(s[i]),
{
    assert(s.take(i + 1) =~= s.take(i) + seq![s[i]]);
    lemma_escape_bytes_concat(s.take(i), seq![s[i]]);
    assert(seq![s[i]].drop_first() =~= Seq::<u8>::empty());
    assert(escape_bytes(Seq::<u8>::empty()) =~= Seq::<u8>::empty());
    assert(escape_bytes(seq![s[i]]) =~= escape_byte(s[i]));
}

/// Appends the bytes of a literal piece of the frame.
fn append_str_bytes(out: &mut Vec<u8>, s: &str)
    ensures
        final(out)@ == old(out)@ + encode_utf8(s@),
{
    let bytes = s.as_bytes_vec();
    let mut i: usize = 0;
    while i < bytes.len()
        invariant
            i <= bytes@.len(),
            out@ == old(out)@ + bytes@.take(i as int),
        decreases bytes@.len() - i,
    {
        out.push(bytes[i]);
        proof {
            assert(old(out)@ + bytes@.take(i + 1) =~= (old(out)@ + bytes@.take(i as int)).push(
                bytes@[i as int],
            ));
        }
        i = i + 1;
    }
    proof {
        assert(bytes@.take(bytes@.len() as int) =~= bytes@);
    }
}

/// The exec form of one hexadecimal digit byte.
fn hex_nibble(n: u8) -> (r: u8)
    requires
        n < 16,
    ensures
        r == hex_digit_byte(n),
{
    if n < 10 {
        48 + n
    } else {
        87 + n
    }
}

/// Appends the escaped bytes of one string field.
fn append_escaped(out: &mut Vec<u8>, s: &str)
    ensures
        final(out)@ == old(out)@ + escape_field(s@),
{
    let bytes = s.as_bytes_vec();
    let mut i: usize = 0;
    proof {
        assert(escape_bytes(bytes@.take(0int)) =~= Seq::<u8>::empty());
        assert(out@ =~= old(out)@ + escape_bytes(bytes@.take(0int)));
    }
    while i < bytes.len()
        invariant
            i <= bytes@.len(),
            out@ == old(out)@ + escape_bytes(bytes@.take(i as int)),
        decreases bytes@.len() - i,
    {
        let b = bytes[i];
        if b == 34 {
            out.push(92);
            out.push(34);
        } else if b == 92 {
            out.push(92);
            out.push(92);
        } else if b < 32 {
            out.push(92);
            out.push(117);
            out.push(48);
            out.push(48);
            out.push(hex_nibble(b / 16));
            out.push(hex_nibble(b % 16));
        } else {
            out.push(b);
        }
        proof {
            lemma_escape_bytes_take_succ(bytes@, i as int);
            assert(out@ =~= old(out)@ + (escape_bytes(bytes@.take(i as int)) + escape_byte(b)));
        }
        i = i + 1;
    }
    proof {
        assert(bytes@.take(bytes@.len() as int) =~= bytes@);
    }
}

// ---------------------------------------------------------------------------
// Uniqueness of the escape: the canonical escape is a prefix code whose
// codewords never begin with a quote, so a frame parses one way only.
// ---------------------------------------------------------------------------
/// Every escape is short, nonempty, and never begins with a quote.
proof fn lemma_escape_byte_head(b: u8)
    ensures
        1 <= escape_byte(b).len() <= 6,
        escape_byte(b)[0] != 34,
{
}

/// Digit bytes determine their digits.
proof fn lemma_hex_digit_byte_injective(n1: u8, n2: u8)
    requires
        n1 < 16,
        n2 < 16,
        hex_digit_byte(n1) == hex_digit_byte(n2),
    ensures
        n1 == n2,
{
}

/// Two escapes that begin the same byte sequence are the same escape of
/// the same byte.
proof fn lemma_escape_byte_prefix(b1: u8, b2: u8, t1: Seq<u8>, t2: Seq<u8>)
    requires
        escape_byte(b1) + t1 == escape_byte(b2) + t2,
    ensures
        b1 == b2,
        t1 == t2,
{
    let s = escape_byte(b1) + t1;
    let e1 = escape_byte(b1);
    let e2 = escape_byte(b2);
    assert(s[0] == e1[0]);
    assert(s[0] == e2[0]);
    if b1 == 34 || b1 == 92 || b1 < 32 {
        // `b1` escapes; its first byte is a backslash, so `b2` escapes too.
        assert(e1[0] == 92);
        if !(b2 == 34 || b2 == 92 || b2 < 32) {
            assert(e2[0] == b2 && b2 != 92);
            assert(false);
        }
        assert(s[1] == e1[1]);
        assert(s[1] == e2[1]);
        if b1 == 34 {
            assert(e1[1] == 34);
            if b2 == 92 {
                assert(e2[1] == 92);
                assert(false);
            }
            if b2 < 32 {
                assert(e2[1] == 117);
                assert(false);
            }
            assert(b2 == 34);
        } else if b1 == 92 {
            assert(e1[1] == 92);
            if b2 == 34 {
                assert(false);
            }
            if b2 < 32 {
                assert(false);
            }
            assert(b2 == 92);
        } else {
            assert(e1[1] == 117);
            if b2 == 34 || b2 == 92 {
                assert(false);
            }
            assert(b2 < 32);
            assert(s[4] == e1[4] && s[4] == e2[4]);
            assert(s[5] == e1[5] && s[5] == e2[5]);
            lemma_hex_digit_byte_injective(b1 / 16, b2 / 16);
            lemma_hex_digit_byte_injective(b1 % 16, b2 % 16);
            assert(b1 == b2);
        }
    } else {
        // `b1` stands raw, so its first byte is not a backslash and `b2`
        // stands raw too.
        assert(e1[0] == b1 && b1 != 92);
        if b2 == 34 || b2 == 92 || b2 < 32 {
            assert(e2[0] == 92);
            assert(false);
        }
        assert(b1 == b2);
    }
    assert(e1.len() == e2.len());
    assert(t1.len() == t2.len());
    assert forall|i: int| 0 <= i < t1.len() implies t1[i] == t2[i] by {
        assert(t1[i] == (e1 + t1)[e1.len() + i]);
        assert(t2[i] == (e2 + t2)[e2.len() + i]);
    }
    assert(t1 =~= t2);
}

/// Scanning is deterministic: a scanned prefix of a well-terminated
/// escaped region is a prefix of its field, with the rest still to come.
proof fn lemma_escape_parse(u: Seq<u8>, f: Seq<u8>, r: Seq<u8>, t: Seq<u8>)
    requires
        escape_bytes(u) + r == escape_bytes(f) + seq![34u8] + t,
    ensures
        u.len() <= f.len(),
        u == f.take(u.len() as int),
        r == escape_bytes(f.skip(u.len() as int)) + seq![34u8] + t,
    decreases u.len(),
{
    if u.len() == 0 {
        assert(escape_bytes(u) =~= Seq::<u8>::empty());
        assert(u =~= f.take(0int));
        assert(f.skip(0int) =~= f);
        assert(r =~= escape_bytes(f) + seq![34u8] + t);
    } else if f.len() == 0 {
        lemma_escape_byte_head(u[0]);
        assert(escape_bytes(f) =~= Seq::<u8>::empty());
        assert((escape_bytes(f) + seq![34u8] + t)[0] == 34);
        assert((escape_bytes(u) + r)[0] == escape_byte(u[0])[0]);
        assert(false);
    } else {
        let u2 = u.drop_first();
        let f2 = f.drop_first();
        assert(escape_byte(u[0]) + (escape_bytes(u2) + r) =~= escape_bytes(u) + r);
        assert(escape_byte(f[0]) + (escape_bytes(f2) + seq![34u8] + t) =~= escape_bytes(f)
            + seq![34u8] + t);
        lemma_escape_byte_prefix(
            u[0],
            f[0],
            escape_bytes(u2) + r,
            escape_bytes(f2) + seq![34u8] + t,
        );
        lemma_escape_parse(u2, f2, r, t);
        assert forall|i: int| 0 <= i < u.len() implies u[i] == f.take(u.len() as int)[i] by {
            if i == 0 {
                assert(u[0] == f[0]);
            } else {
                assert(u[i] == u2[i - 1]);
                assert(u2[i - 1] == f2.take(u2.len() as int)[i - 1]);
                assert(f2[i - 1] == f[i]);
            }
        }
        assert(u =~= f.take(u.len() as int));
        assert(f2.skip(u.len() - 1) =~= f.skip(u.len() as int));
    }
}

/// A well-terminated escaped region decomposes one way only.
proof fn lemma_escape_unique(f1: Seq<u8>, t1: Seq<u8>, f2: Seq<u8>, t2: Seq<u8>)
    requires
        escape_bytes(f1) + seq![34u8] + t1 == escape_bytes(f2) + seq![34u8] + t2,
    ensures
        f1 == f2,
        t1 == t2,
{
    assert(escape_bytes(f1) + (seq![34u8] + t1) =~= escape_bytes(f1) + seq![34u8] + t1);
    lemma_escape_parse(f1, f2, seq![34u8] + t1, t2);
    if f1.len() < f2.len() {
        let rest = f2.skip(f1.len() as int);
        assert(rest.len() > 0);
        lemma_escape_byte_head(rest[0]);
        assert((escape_bytes(rest) + seq![34u8] + t2)[0] == escape_byte(rest[0])[0]);
        assert((seq![34u8] + t1)[0] == 34);
        assert(false);
    }
    assert(f1 =~= f2.take(f1.len() as int));
    assert(f1 =~= f2);
    assert(seq![34u8] + t1 =~= escape_bytes(f2.skip(f1.len() as int)) + seq![34u8] + t2);
    assert(f2.skip(f1.len() as int) =~= Seq::<u8>::empty());
    assert(escape_bytes(Seq::<u8>::empty()) =~= Seq::<u8>::empty());
    assert(seq![34u8] + t1 =~= seq![34u8] + t2);
    assert(t1.len() == t2.len());
    assert forall|i: int| 0 <= i < t1.len() implies t1[i] == t2[i] by {
        assert(t1[i] == (seq![34u8] + t1)[1 + i]);
        assert(t2[i] == (seq![34u8] + t2)[1 + i]);
    }
    assert(t1 =~= t2);
}

// ---------------------------------------------------------------------------
// Scanning
// ---------------------------------------------------------------------------
/// The digit below 16 whose lowercase hexadecimal byte this is, if any.
fn hex_digit_value(b: u8) -> (r: Option<u8>)
    ensures
        match r {
            Some(n) => n < 16 && b == hex_digit_byte(n),
            None => forall|n: u8| n < 16 ==> b != hex_digit_byte(n),
        },
{
    if 48 <= b && b <= 57 {
        Some(b - 48)
    } else if 97 <= b && b <= 102 {
        Some(b - 87)
    } else {
        None
    }
}

/// Scans one escaped field value from `start` up to its unescaped closing
/// quote, undoing the canonical escape; rejects anything the canonical
/// escape never produces.
fn scan_field(b: &Vec<u8>, start: usize) -> (r: Option<(Vec<u8>, usize)>)
    requires
        start <= b@.len(),
    ensures
        match r {
            Some(fe) => {
                &&& start <= fe.1 < b@.len()
                &&& b@[fe.1 as int] == 34
                &&& b@.subrange(start as int, fe.1 as int) == escape_bytes(fe.0@)
            },
            None => forall|f: Seq<u8>, t: Seq<u8>|
                b@.subrange(start as int, b@.len() as int) != escape_bytes(f) + seq![34u8] + t,
        },
{
    let mut u: Vec<u8> = Vec::new();
    let mut p: usize = start;
    proof {
        assert(escape_bytes(u@) =~= b@.subrange(start as int, start as int));
    }
    loop
        invariant
            start <= p <= b@.len(),
            escape_bytes(u@) == b@.subrange(start as int, p as int),
        decreases b@.len() - p,
    {
        proof {
            assert(b@.subrange(start as int, b@.len() as int) =~= escape_bytes(u@) + b@.subrange(
                p as int,
                b@.len() as int,
            ));
        }
        let ghost rem = b@.subrange(p as int, b@.len() as int);
        let ghost old_u = u@;
        if p >= b.len() {
            proof {
                assert forall|f: Seq<u8>, t: Seq<u8>|
                    b@.subrange(start as int, b@.len() as int) != escape_bytes(f) + seq![34u8]
                        + t by {
                    if b@.subrange(start as int, b@.len() as int) == escape_bytes(f) + seq![34u8]
                        + t {
                        lemma_escape_parse(u@, f, rem, t);
                        assert(rem.len() == 0);
                        assert((escape_bytes(f.skip(u@.len() as int)) + seq![34u8] + t).len() >= 1);
                        assert(false);
                    }
                }
            }
            return None;
        }
        let c = b[p];
        if c == 34 {
            return Some((u, p));
        } else if c == 92 {
            proof {
                assert(rem[0] == 92);
            }
            if b.len() - p < 2 {
                proof {
                    scan_reject_short(b@, start, p, u@, 2);
                }
                return None;
            }
            let d = b[p + 1];
            proof {
                assert(rem[1] == d);
            }
            if d == 34 {
                u.push(34);
                proof {
                    assert(u@.drop_last() =~= old_u);
                    assert(escape_byte(34) =~= b@.subrange(p as int, p as int + 2));
                    scan_step(b@, start, p, u@, 34, 2);
                }
                p = p + 2;
            } else if d == 92 {
                u.push(92);
                proof {
                    assert(u@.drop_last() =~= old_u);
                    assert(escape_byte(92) =~= b@.subrange(p as int, p as int + 2));
                    scan_step(b@, start, p, u@, 92, 2);
                }
                p = p + 2;
            } else if d == 117 {
                if b.len() - p < 6 {
                    proof {
                        scan_reject_short(b@, start, p, u@, 6);
                    }
                    return None;
                }
                let z1 = b[p + 2];
                let z2 = b[p + 3];
                let h1 = b[p + 4];
                let h2 = b[p + 5];
                proof {
                    assert(rem[2] == z1 && rem[3] == z2 && rem[4] == h1 && rem[5] == h2);
                }
                if z1 != 48 || z2 != 48 {
                    proof {
                        scan_reject_unit(b@, start, p, u@);
                    }
                    return None;
                }
                let dx = hex_digit_value(h1);
                let dy = hex_digit_value(h2);
                match (dx, dy) {
                    (Some(x), Some(y)) => {
                        let val = x * 16 + y;
                        if val < 32 {
                            u.push(val);
                            proof {
                                assert(u@.drop_last() =~= old_u);
                                assert(val / 16 == x && val % 16 == y) by (nonlinear_arith)
                                    requires
                                        x < 16,
                                        y < 16,
                                        val == x * 16 + y,
                                ;
                                assert(escape_byte(val) =~= seq![92u8, 117u8, 48u8, 48u8, h1, h2]);
                                assert(b@.subrange(p as int, p as int + 6) =~= seq![
                                    92u8,
                                    117u8,
                                    48u8,
                                    48u8,
                                    h1,
                                    h2,
                                ]);
                                scan_step(b@, start, p, u@, val, 6);
                            }
                            p = p + 6;
                        } else {
                            proof {
                                scan_reject_unit(b@, start, p, u@);
                            }
                            return None;
                        }
                    },
                    _ => {
                        proof {
                            scan_reject_unit(b@, start, p, u@);
                        }
                        return None;
                    },
                }
            } else {
                proof {
                    scan_reject_unit(b@, start, p, u@);
                }
                return None;
            }
        } else if c < 32 {
            proof {
                scan_reject_unit(b@, start, p, u@);
            }
            return None;
        } else {
            u.push(c);
            proof {
                assert(u@.drop_last() =~= old_u);
                assert(escape_byte(c) =~= b@.subrange(p as int, p as int + 1));
                scan_step(b@, start, p, u@, c, 1);
            }
            p = p + 1;
        }
    }
}

/// Restores the scan invariant after one accepted unit: the bytes from `p`
/// on begin with the canonical escape of `c`, `len` bytes long.
proof fn scan_step(bv: Seq<u8>, start: usize, p: usize, u_new: Seq<u8>, c: u8, len: int)
    requires
        start <= p,
        1 <= len <= 6,
        p + len <= bv.len(),
        u_new.len() >= 1,
        escape_bytes(u_new.drop_last()) == bv.subrange(start as int, p as int),
        u_new.last() == c,
        escape_byte(c) == bv.subrange(p as int, p + len),
    ensures
        escape_bytes(u_new) == bv.subrange(start as int, p + len),
{
    let u_old = u_new.drop_last();
    let a = bv.subrange(start as int, p as int);
    let b = bv.subrange(p as int, p as int + len);
    let w = bv.subrange(start as int, p as int + len);
    assert(u_new =~= u_old + seq![c]);
    lemma_escape_bytes_concat(u_old, seq![c]);
    assert(seq![c].drop_first() =~= Seq::<u8>::empty());
    assert(escape_bytes(Seq::<u8>::empty()) =~= Seq::<u8>::empty());
    assert(escape_bytes(seq![c]) =~= escape_byte(c));
    assert(escape_bytes(u_new) == escape_bytes(u_old) + escape_bytes(seq![c]));
    assert(escape_bytes(u_new) == a + b);
    assert((a + b).len() == w.len());
    assert forall|i: int| 0 <= i < w.len() implies (a + b)[i] == #[trigger] w[i] by {
        assert(w[i] == bv[start + i]);
        if i < a.len() {
            assert((a + b)[i] == a[i]);
            assert(a[i] == bv[start + i]);
        } else {
            assert((a + b)[i] == b[i - a.len()]);
            assert(b[i - a.len()] == bv[p + (i - a.len())]);
        }
    }
    assert(a + b =~= w);
}

/// Discharges a scan rejection when fewer bytes remain than any matching
/// unit would need.
proof fn scan_reject_short(bv: Seq<u8>, start: usize, p: usize, u: Seq<u8>, need: int)
    requires
        start <= p < bv.len(),
        escape_bytes(u) == bv.subrange(start as int, p as int),
        bv[p as int] == 92,
        bv.len() - p < need,
        need <= 6,
        need == 2 || (need == 6 && p + 1 < bv.len() && bv[p + 1] == 117),
    ensures
        forall|f: Seq<u8>, t: Seq<u8>|
            bv.subrange(start as int, bv.len() as int) != escape_bytes(f) + seq![34u8] + t,
{
    let rem = bv.subrange(p as int, bv.len() as int);
    assert(bv.subrange(start as int, bv.len() as int) =~= escape_bytes(u) + rem);
    assert forall|f: Seq<u8>, t: Seq<u8>|
        bv.subrange(start as int, bv.len() as int) != escape_bytes(f) + seq![34u8] + t by {
        if bv.subrange(start as int, bv.len() as int) == escape_bytes(f) + seq![34u8] + t {
            lemma_escape_parse(u, f, rem, t);
            let rest = f.skip(u.len() as int);
            if rest.len() == 0 {
                assert(escape_bytes(rest) =~= Seq::<u8>::empty());
                assert(rem =~= seq![34u8] + t);
                assert(rem[0] == 34);
                assert(false);
            } else {
                assert(escape_bytes(rest) =~= escape_byte(rest[0]) + escape_bytes(
                    rest.drop_first(),
                ));
                let e = escape_byte(rest[0]);
                lemma_escape_byte_head(rest[0]);
                assert(rem[0] == e[0]);
                assert(e[0] == 92);
                assert(rest[0] == 34 || rest[0] == 92 || rest[0] < 32);
                if need == 2 {
                    // every backslash escape is at least two bytes long
                    assert(e.len() >= 2);
                    assert(rem.len() >= 2);
                    assert(false);
                } else {
                    assert(rem[1] == e[1]);
                    if rest[0] == 34 || rest[0] == 92 {
                        assert(e[1] != 117);
                        assert(false);
                    } else {
                        assert(e.len() == 6);
                        assert(rem.len() >= 6);
                        assert(false);
                    }
                }
            }
        }
    }
}

/// Discharges a scan rejection at a byte sequence that no canonical escape
/// unit and no closing quote can begin.
proof fn scan_reject_unit(bv: Seq<u8>, start: usize, p: usize, u: Seq<u8>)
    requires
        start <= p < bv.len(),
        escape_bytes(u) == bv.subrange(start as int, p as int),
        ({
            let rem = bv.subrange(p as int, bv.len() as int);
            ||| rem[0] < 32
            ||| (rem[0] == 92 && rem.len() >= 2 && rem[1] != 34 && rem[1] != 92 && rem[1] != 117)
            ||| (rem[0] == 92 && rem.len() >= 6 && rem[1] == 117 && !(rem[2] == 48 && rem[3] == 48
                && (exists|x: u8, y: u8|
                    x < 16 && y < 16 && x * 16 + y < 32 && rem[4] == hex_digit_byte(x) && rem[5]
                        == hex_digit_byte(y))))
        }),
    ensures
        forall|f: Seq<u8>, t: Seq<u8>|
            bv.subrange(start as int, bv.len() as int) != escape_bytes(f) + seq![34u8] + t,
{
    let rem = bv.subrange(p as int, bv.len() as int);
    assert(bv.subrange(start as int, bv.len() as int) =~= escape_bytes(u) + rem);
    assert forall|f: Seq<u8>, t: Seq<u8>|
        bv.subrange(start as int, bv.len() as int) != escape_bytes(f) + seq![34u8] + t by {
        if bv.subrange(start as int, bv.len() as int) == escape_bytes(f) + seq![34u8] + t {
            lemma_escape_parse(u, f, rem, t);
            let rest = f.skip(u.len() as int);
            if rest.len() == 0 {
                assert(escape_bytes(rest) =~= Seq::<u8>::empty());
                assert(rem =~= seq![34u8] + t);
                assert(rem[0] == 34);
                assert(false);
            } else {
                assert(escape_bytes(rest) =~= escape_byte(rest[0]) + escape_bytes(
                    rest.drop_first(),
                ));
                let c = rest[0];
                let e = escape_byte(c);
                lemma_escape_byte_head(c);
                assert(rem[0] == e[0]);
                if c == 34 || c == 92 || c < 32 {
                    assert(e[0] == 92);
                    assert(rem[1] == e[1]);
                    if c == 34 {
                        assert(e[1] == 34);
                        assert(false);
                    } else if c == 92 {
                        assert(e[1] == 92);
                        assert(false);
                    } else {
                        assert(e[1] == 117);
                        assert(e.len() == 6);
                        assert(rem.len() >= 6);
                        assert(rem[2] == e[2] && rem[3] == e[3] && rem[4] == e[4] && rem[5]
                            == e[5]);
                        assert(e[2] == 48 && e[3] == 48);
                        assert(c / 16 < 16 && c % 16 < 16);
                        assert((c / 16) * 16 + c % 16 == c) by (nonlinear_arith)
                            requires
                                c < 32,
                        ;
                        assert(exists|x: u8, y: u8|
                            x < 16 && y < 16 && x * 16 + y < 32 && rem[4] == hex_digit_byte(x)
                                && rem[5] == hex_digit_byte(y));
                        assert(false);
                    }
                } else {
                    assert(e[0] == c);
                    assert(c >= 32 && c != 92);
                    assert(rem[0] >= 32 && rem[0] != 92);
                    assert(false);
                }
            }
        }
    }
}

/// A subrange splits at any interior point.
proof fn lemma_subrange_split(bv: Seq<u8>, a: int, m: int, z: int)
    requires
        0 <= a <= m <= z <= bv.len(),
    ensures
        bv.subrange(a, z) == bv.subrange(a, m) + bv.subrange(m, z),
{
    let w = bv.subrange(a, z);
    let x = bv.subrange(a, m);
    let y = bv.subrange(m, z);
    assert((x + y).len() == w.len());
    assert forall|i: int| 0 <= i < w.len() implies (x + y)[i] == #[trigger] w[i] by {
        assert(w[i] == bv[a + i]);
        if i < x.len() {
            assert((x + y)[i] == x[i]);
            assert(x[i] == bv[a + i]);
        } else {
            assert((x + y)[i] == y[i - x.len()]);
            assert(y[i - x.len()] == bv[m + (i - x.len())]);
        }
    }
    assert(x + y =~= w);
}

/// The closing of a frame is a quote byte and a closing-brace byte.
proof fn lemma_close_frame_bytes()
    ensures
        close_frame() == seq![34u8, 125u8],
{
    reveal_strlit("\"}");
    let s = ("\"}")@;
    assert(s.len() == 2);
    assert(s[0] == '"' && s[1] == '}');
    assert forall|i: int| 0 <= i < s.len() implies '\0' <= #[trigger] s[i] <= '\u{7f}' by {
        assert(s[0] == '"' && s[1] == '}');
    }
    assert(vstd::utf8::is_ascii_chars(s));
    vstd::utf8::is_ascii_chars_encode_utf8(s);
    assert(close_frame() =~= seq![34u8, 125u8]);
}

/// The separator before the target key begins with a quote byte.
proof fn lemma_mid_target_bytes()
    ensures
        mid_target().len() == 12,
        mid_target()[0] == 34,
{
    reveal_strlit("\",\"target\":\"");
    let s = ("\",\"target\":\"")@;
    assert(s.len() == 12);
    assert(s[0] == '"');
    assert(s[1] == ',' && s[2] == '"' && s[3] == 't' && s[4] == 'a' && s[5] == 'r' && s[6] == 'g'
        && s[7] == 'e' && s[8] == 't' && s[9] == '"' && s[10] == ':' && s[11] == '"');
    assert forall|i: int| 0 <= i < s.len() implies '\0' <= #[trigger] s[i] <= '\u{7f}' by {
        assert(s[0] == '"' && s[1] == ',' && s[2] == '"' && s[3] == 't' && s[4] == 'a' && s[5]
            == 'r' && s[6] == 'g' && s[7] == 'e' && s[8] == 't' && s[9] == '"' && s[10] == ':'
            && s[11] == '"');
    }
    assert(vstd::utf8::is_ascii_chars(s));
    vstd::utf8::is_ascii_chars_encode_utf8(s);
    assert(mid_target().len() == 12);
    assert(mid_target()[0] == s[0] as u8);
}

/// Whether the bytes at `at` are exactly the bytes of the literal `lit`.
fn match_at(b: &Vec<u8>, at: usize, lit: &str) -> (r: bool)
    requires
        at <= b@.len(),
    ensures
        r == (at + encode_utf8(lit@).len() <= b@.len() && b@.subrange(
            at as int,
            at + encode_utf8(lit@).len(),
        ) == encode_utf8(lit@)),
{
    let lb = lit.as_bytes_vec();
    let n = lb.len();
    if b.len() - at < n {
        return false;
    }
    let mut i: usize = 0;
    while i < n
        invariant
            i <= n,
            at + n <= b@.len(),
            b@.len() <= usize::MAX,
            n == lb@.len(),
            lb@ == encode_utf8(lit@),
            forall|j: int| 0 <= j < i ==> b@[at + j] == lb@[j],
        decreases n - i,
    {
        if b[at + i] != lb[i] {
            proof {
                assert(b@.subrange(at as int, at + n)[i as int] == b@[at + i]);
            }
            return false;
        }
        i = i + 1;
    }
    proof {
        assert(b@.subrange(at as int, at + n) =~= lb@);
    }
    true
}

/// Relies on String::from_utf8: accepts exactly the valid UTF-8 byte
/// sequences, and returns the string over exactly the given bytes.
#[verifier::external_body]
fn string_from_utf8(v: Vec<u8>) -> (r: Option<String>)
    ensures
        r matches Some(s) ==> encode_utf8(s@) == v@,
        valid_utf8(v@) ==> r is Some,
{
    String::from_utf8(v).ok()
}

/// Parses one escaped field value followed by the frame closing and the
/// end of the input.
fn parse_tail_one(b: &Vec<u8>, start: usize) -> (r: Option<String>)
    requires
        start <= b@.len(),
    ensures
        match r {
            Some(s) => b@.subrange(start as int, b@.len() as int) == escape_field(s@)
                + close_frame(),
            None => forall|f: Seq<char>|
                b@.subrange(start as int, b@.len() as int) != escape_field(f) + close_frame(),
        },
{
    proof {
        lemma_close_frame_bytes();
    }
    let ghost whole = b@.subrange(start as int, b@.len() as int);
    match scan_field(b, start) {
        None => {
            proof {
                assert forall|f: Seq<char>| whole != escape_field(f) + close_frame() by {
                    if whole == escape_field(f) + close_frame() {
                        assert(escape_field(f) + close_frame() =~= escape_bytes(encode_utf8(f))
                            + seq![34u8] + seq![125u8]);
                        assert(false);
                    }
                }
            }
            None
        },
        Some(fe) => {
            let (fb, end) = fe;
            let ghost fbv = fb@;
            let ghost rest = b@.subrange(end + 1, b@.len() as int);
            proof {
                lemma_subrange_split(b@, start as int, end as int, b@.len() as int);
                lemma_subrange_split(b@, end as int, end + 1, b@.len() as int);
                assert(b@.subrange(end as int, end + 1) =~= seq![34u8]);
                assert(whole =~= escape_bytes(fbv) + seq![34u8] + rest);
            }
            if b.len() - end == 2 && b[end + 1] == 125 {
                proof {
                    assert(rest =~= seq![125u8]);
                }
                match string_from_utf8(fb) {
                    Some(s) => {
                        proof {
                            assert(whole =~= escape_field(s@) + close_frame());
                        }
                        Some(s)
                    },
                    None => {
                        proof {
                            assert forall|f: Seq<char>| whole != escape_field(f)
                                + close_frame() by {
                                if whole == escape_field(f) + close_frame() {
                                    assert(escape_bytes(fbv) + seq![34u8] + seq![125u8]
                                        =~= escape_bytes(encode_utf8(f)) + seq![34u8]
                                        + seq![125u8]);
                                    lemma_escape_unique(
                                        fbv,
                                        seq![125u8],
                                        encode_utf8(f),
                                        seq![125u8],
                                    );
                                    encode_utf8_valid_utf8(f);
                                    assert(false);
                                }
                            }
                        }
                        None
                    },
                }
            } else {
                proof {
                    assert forall|f: Seq<char>| whole != escape_field(f) + close_frame() by {
                        if whole == escape_field(f) + close_frame() {
                            assert(escape_bytes(fbv) + seq![34u8] + rest =~= escape_bytes(
                                encode_utf8(f),
                            ) + seq![34u8] + seq![125u8]);
                            lemma_escape_unique(fbv, rest, encode_utf8(f), seq![125u8]);
                            assert(rest.len() == 1 && rest[0] == 125);
                            assert(b@.len() - end == 2);
                            assert(b@[end + 1] == 125);
                            assert(false);
                        }
                    }
                }
                None
            }
        },
    }
}

/// Parses two escaped field values separated by the target key and
/// followed by the frame closing and the end of the input.
#[verifier::rlimit(100)]
fn parse_tail_two(b: &Vec<u8>, start: usize) -> (r: Option<(String, String)>)
    requires
        start <= b@.len(),
    ensures
        match r {
            Some(pt) => b@.subrange(start as int, b@.len() as int) == escape_field(pt.0@)
                + mid_target() + escape_field(pt.1@) + close_frame(),
            None => forall|pp: Seq<char>, tt: Seq<char>|
                b@.subrange(start as int, b@.len() as int) != escape_field(pp) + mid_target()
                    + escape_field(tt) + close_frame(),
        },
{
    proof {
        lemma_close_frame_bytes();
        lemma_mid_target_bytes();
    }
    let ghost whole = b@.subrange(start as int, b@.len() as int);
    let ghost mid_rest = mid_target().skip(1);
    proof {
        assert(mid_target() =~= seq![34u8] + mid_rest);
    }
    match scan_field(b, start) {
        None => {
            proof {
                assert forall|pp: Seq<char>, tt: Seq<char>|
                    whole != escape_field(pp) + mid_target() + escape_field(tt)
                        + close_frame() by {
                    if whole == escape_field(pp) + mid_target() + escape_field(tt)
                        + close_frame() {
                        assert(whole =~= escape_bytes(encode_utf8(pp)) + seq![34u8] + (mid_rest
                            + escape_field(tt) + close_frame()));
                        assert(false);
                    }
                }
            }
            None
        },
        Some(fe1) => {
            let (fb1, end1) = fe1;
            let ghost f1 = fb1@;
            let ghost rest1 = b@.subrange(end1 + 1, b@.len() as int);
            proof {
                lemma_subrange_split(b@, start as int, end1 as int, b@.len() as int);
                lemma_subrange_split(b@, end1 as int, end1 + 1, b@.len() as int);
                assert(b@.subrange(end1 as int, end1 + 1) =~= seq![34u8]);
                assert(whole =~= escape_bytes(f1) + seq![34u8] + rest1);
            }
            let mid_lit = "\",\"target\":\"";
            let mlen = mid_lit.as_bytes_vec().len();
            let blen = b.len();
            if match_at(b, end1, mid_lit) {
                proof {
                    assert(end1 + mlen <= blen);
                }
                let start2 = end1 + mlen;
                proof {
                    assert(mlen == mid_target().len());
                    lemma_subrange_split(b@, end1 as int, start2 as int, b@.len() as int);
                }
                let ghost rest2 = b@.subrange(start2 as int, b@.len() as int);
                proof {
                    assert(b@.subrange(end1 as int, b@.len() as int) =~= mid_target() + rest2);
                    assert(whole =~= escape_bytes(f1) + mid_target() + rest2);
                }
                match scan_field(b, start2) {
                    None => {
                        proof {
                            assert forall|pp: Seq<char>, tt: Seq<char>|
                                whole != escape_field(pp) + mid_target() + escape_field(tt)
                                    + close_frame() by {
                                if whole == escape_field(pp) + mid_target() + escape_field(tt)
                                    + close_frame() {
                                    assert(whole =~= escape_bytes(encode_utf8(pp)) + seq![34u8] + (
                                    mid_rest + escape_field(tt) + close_frame()));
                                    assert(escape_bytes(f1) + seq![34u8] + rest1 =~= escape_bytes(
                                        encode_utf8(pp),
                                    ) + seq![34u8] + (mid_rest + escape_field(tt)
                                        + close_frame()));
                                    lemma_escape_unique(
                                        f1,
                                        rest1,
                                        encode_utf8(pp),
                                        mid_rest + escape_field(tt) + close_frame(),
                                    );
                                    assert(rest1 =~= mid_rest + escape_field(tt) + close_frame());
                                    assert(rest2.len() == rest1.len() - mid_rest.len());
                                    assert forall|i: int| 0 <= i < rest2.len() implies #[trigger] rest2[i]
                                        == (escape_field(tt) + close_frame())[i] by {
                                        assert(rest2[i] == b@[start2 + i]);
                                        assert(rest1[mid_rest.len() + i] == b@[end1 + 1
                                            + mid_rest.len() + i]);
                                    }
                                    assert(rest2 =~= escape_field(tt) + close_frame());
                                    assert(rest2 =~= escape_bytes(encode_utf8(tt)) + seq![34u8]
                                        + seq![125u8]);
                                    assert(false);
                                }
                            }
                        }
                        None
                    },
                    Some(fe2) => {
                        let (fb2, end2) = fe2;
                        let ghost f2 = fb2@;
                        let ghost rest3 = b@.subrange(end2 + 1, b@.len() as int);
                        proof {
                            lemma_subrange_split(b@, start2 as int, end2 as int, b@.len() as int);
                            lemma_subrange_split(b@, end2 as int, end2 + 1, b@.len() as int);
                            assert(b@.subrange(end2 as int, end2 + 1) =~= seq![34u8]);
                            assert(rest2 =~= escape_bytes(f2) + seq![34u8] + rest3);
                        }
                        if b.len() - end2 == 2 && b[end2 + 1] == 125 {
                            proof {
                                assert(rest3 =~= seq![125u8]);
                            }
                            let ghost whole_ok = escape_bytes(f1) + mid_target() + escape_bytes(f2)
                                + seq![34u8] + seq![125u8];
                            let r1 = string_from_utf8(fb1);
                            let r2 = string_from_utf8(fb2);
                            match (r1, r2) {
                                (Some(s1), Some(s2)) => {
                                    proof {
                                        assert(whole =~= escape_field(s1@) + mid_target()
                                            + escape_field(s2@) + close_frame());
                                    }
                                    Some((s1, s2))
                                },
                                _ => {
                                    proof {
                                        lemma_subrange_split(
                                            b@,
                                            end1 + 1,
                                            start2 as int,
                                            b@.len() as int,
                                        );
                                        assert forall|i: int|
                                            0 <= i < mid_rest.len() implies #[trigger] b@.subrange(
                                            end1 + 1,
                                            start2 as int,
                                        )[i] == mid_rest[i] by {
                                            assert(b@.subrange(end1 as int, start2 as int)[i + 1]
                                                == b@[end1 + 1 + i]);
                                            assert(b@.subrange(end1 + 1, start2 as int)[i]
                                                == b@[end1 + 1 + i]);
                                            assert(mid_target()[i + 1] == mid_rest[i]);
                                        }
                                        assert(b@.subrange(end1 + 1, start2 as int) =~= mid_rest);
                                        assert(rest1 =~= mid_rest + rest2);
                                        parse_two_reject(
                                            whole,
                                            f1,
                                            f2,
                                            rest1,
                                            rest2,
                                            seq![125u8],
                                            mid_rest,
                                        );
                                        assert forall|pp: Seq<char>, tt: Seq<char>|
                                            whole != escape_field(pp) + mid_target()
                                                + escape_field(tt) + close_frame() by {
                                            if whole == escape_field(pp) + mid_target()
                                                + escape_field(tt) + close_frame() {
                                                assert(valid_utf8(f1) && valid_utf8(f2));
                                                assert(false);
                                            }
                                        }
                                    }
                                    None
                                },
                            }
                        } else {
                            proof {
                                assert forall|pp: Seq<char>, tt: Seq<char>|
                                    whole != escape_field(pp) + mid_target() + escape_field(tt)
                                        + close_frame() by {
                                    if whole == escape_field(pp) + mid_target() + escape_field(tt)
                                        + close_frame() {
                                        assert(escape_bytes(f1) + seq![34u8] + rest1
                                            =~= escape_bytes(encode_utf8(pp)) + seq![34u8] + (
                                        mid_rest + escape_field(tt) + close_frame()));
                                        lemma_escape_unique(
                                            f1,
                                            rest1,
                                            encode_utf8(pp),
                                            mid_rest + escape_field(tt) + close_frame(),
                                        );
                                        assert(rest1 =~= mid_rest + escape_field(tt)
                                            + close_frame());
                                        assert forall|i: int|
                                            0 <= i < rest2.len() implies #[trigger] rest2[i] == (
                                        escape_field(tt) + close_frame())[i] by {
                                            assert(rest2[i] == b@[start2 + i]);
                                            assert(rest1[mid_rest.len() + i] == b@[end1 + 1
                                                + mid_rest.len() + i]);
                                        }
                                        assert(rest2 =~= escape_bytes(encode_utf8(tt)) + seq![34u8]
                                            + seq![125u8]);
                                        assert(escape_bytes(f2) + seq![34u8] + rest3
                                            =~= escape_bytes(encode_utf8(tt)) + seq![34u8]
                                            + seq![125u8]);
                                        lemma_escape_unique(
                                            f2,
                                            rest3,
                                            encode_utf8(tt),
                                            seq![125u8],
                                        );
                                        assert(rest3.len() == 1 && rest3[0] == 125);
                                        assert(b@.len() - end2 == 2);
                                        assert(b@[end2 + 1] == 125);
                                        assert(false);
                                    }
                                }
                            }
                            None
                        }
                    },
                }
            } else {
                proof {
                    assert forall|pp: Seq<char>, tt: Seq<char>|
                        whole != escape_field(pp) + mid_target() + escape_field(tt)
                            + close_frame() by {
                        if whole == escape_field(pp) + mid_target() + escape_field(tt)
                            + close_frame() {
                            assert(escape_bytes(f1) + seq![34u8] + rest1 =~= escape_bytes(
                                encode_utf8(pp),
                            ) + seq![34u8] + (mid_rest + escape_field(tt) + close_frame()));
                            lemma_escape_unique(
                                f1,
                                rest1,
                                encode_utf8(pp),
                                mid_rest + escape_field(tt) + close_frame(),
                            );
                            assert(rest1 =~= mid_rest + escape_field(tt) + close_frame());
                            assert(end1 + mid_target().len() <= b@.len());
                            assert forall|i: int|
                                0 <= i < mid_target().len() implies #[trigger] b@.subrange(
                                end1 as int,
                                end1 + mid_target().len(),
                            )[i] == mid_target()[i] by {
                                assert(b@.subrange(end1 as int, end1 + mid_target().len())[i]
                                    == b@[end1 + i]);
                                if i == 0 {
                                    assert(b@[end1 as int] == 34);
                                } else {
                                    assert(rest1[i - 1] == b@[end1 + 1 + (i - 1)]);
                                    assert(rest1[i - 1] == mid_rest[i - 1]);
                                }
                            }
                            assert(b@.subrange(end1 as int, end1 + mid_target().len())
                                =~= mid_target());
                            assert(false);
                        }
                    }
                }
                None
            }
        },
    }
}

/// Discharges the rejection of a two-field tail whose field bytes are not
/// valid UTF-8: any matching decomposition would force both fields to be
/// UTF-8 encodings.
proof fn parse_two_reject(
    whole: Seq<u8>,
    f1: Seq<u8>,
    f2: Seq<u8>,
    rest1: Seq<u8>,
    rest2: Seq<u8>,
    rest3: Seq<u8>,
    mid_rest: Seq<u8>,
)
    requires
        mid_target() == seq![34u8] + mid_rest,
        whole == escape_bytes(f1) + seq![34u8] + rest1,
        rest1 == mid_rest + rest2,
        rest2 == escape_bytes(f2) + seq![34u8] + rest3,
        rest3 == seq![125u8],
    ensures
        forall|pp: Seq<char>, tt: Seq<char>|
            whole == escape_field(pp) + mid_target() + escape_field(tt) + close_frame() ==> (
            valid_utf8(f1) && valid_utf8(f2)),
{
    lemma_close_frame_bytes();
    assert forall|pp: Seq<char>, tt: Seq<char>|
        whole == escape_field(pp) + mid_target() + escape_field(tt) + close_frame() implies (
    valid_utf8(f1) && valid_utf8(f2)) by {
        assert(escape_bytes(f1) + seq![34u8] + rest1 =~= escape_bytes(encode_utf8(pp)) + seq![34u8]
            + (mid_rest + escape_field(tt) + close_frame()));
        lemma_escape_unique(f1, rest1, encode_utf8(pp), mid_rest + escape_field(tt)
            + close_frame());
        assert(f1 == encode_utf8(pp));
        encode_utf8_valid_utf8(pp);
        assert(mid_rest + rest2 =~= mid_rest + (escape_field(tt) + close_frame()));
        assert forall|i: int| 0 <= i < rest2.len() implies #[trigger] rest2[i] == (escape_field(tt)
            + close_frame())[i] by {
            assert(rest2[i] == (mid_rest + rest2)[mid_rest.len() + i]);
            assert((mid_rest + (escape_field(tt) + close_frame()))[mid_rest.len() + i] == (
            escape_field(tt) + close_frame())[i]);
        }
        assert(rest2 =~= escape_field(tt) + close_frame());
        assert(escape_bytes(f2) + seq![34u8] + rest3 =~= escape_bytes(encode_utf8(tt)) + seq![34u8]
            + seq![125u8]);
        lemma_escape_unique(f2, rest3, encode_utf8(tt), seq![125u8]);
        assert(f2 == encode_utf8(tt));
        encode_utf8_valid_utf8(tt);
    }
}

/// Encodes a message into its canonical wire frame.
pub fn encode_message(m: &SignalMessage) -> (r: Vec<u8>)
    ensures
        r@ == spec_encode(m@),
{
    let mut out: Vec<u8> = Vec::new();
    match m {
        SignalMessage::Join { device_id } => {
            append_str_bytes(&mut out, "{\"type\":\"join\",\"device_id\":\"");
            append_escaped(&mut out, device_id.as_str());
            append_str_bytes(&mut out, "\"}");
            proof {
                assert(out@ =~= open_join() + escape_field(device_id@) + close_frame());
            }
        },
        SignalMessage::Offer { payload, target } => {
            append_str_bytes(&mut out, "{\"type\":\"offer\",\"payload\":\"");
            append_escaped(&mut out, payload.as_str());
            append_str_bytes(&mut out, "\",\"target\":\"");
            append_escaped(&mut out, target.as_str());
            append_str_bytes(&mut out, "\"}");
            proof {
                assert(out@ =~= open_offer() + escape_field(payload@) + mid_target()
                    + escape_field(target@) + close_frame());
            }
        },
        SignalMessage::Answer { payload, target } => {
            append_str_bytes(&mut out, "{\"type\":\"answer\",\"payload\":\"");
            append_escaped(&mut out, payload.as_str());
            append_str_bytes(&mut out, "\",\"target\":\"");
            append_escaped(&mut out, target.as_str());
            append_str_bytes(&mut out, "\"}");
            proof {
                assert(out@ =~= open_answer() + escape_field(payload@) + mid_target()
                    + escape_field(target@) + close_frame());
            }
        },
        SignalMessage::IceCandidate { payload, target } => {
            append_str_bytes(&mut out, "{\"type\":\"ice_candidate\",\"payload\":\"");
            append_escaped(&mut out, payload.as_str());
            append_str_bytes(&mut out, "\",\"target\":\"");
            append_escaped(&mut out, target.as_str());
            append_str_bytes(&mut out, "\"}");
            proof {
                assert(out@ =~= open_ice_candidate() + escape_field(payload@) + mid_target()
                    + escape_field(target@) + close_frame());
            }
        },
        SignalMessage::PeerDisconnected { device_id } => {
            append_str_bytes(&mut out, "{\"type\":\"peer_disconnected\",\"device_id\":\"");
            append_escaped(&mut out, device_id.as_str());
            append_str_bytes(&mut out, "\"}");
            proof {
                assert(out@ =~= open_peer_disconnected() + escape_field(device_id@)
                    + close_frame());
            }
        },
        SignalMessage::Error { message } => {
            append_str_bytes(&mut out, "{\"type\":\"error\",\"message\":\"");
            append_escaped(&mut out, message.as_str());
            append_str_bytes(&mut out, "\"}");
            proof {
                assert(out@ =~= open_error() + escape_field(message@) + close_frame());
            }
        },
    }
    out
}

/// A frame that is not the canonical encoding of any message.
#[derive(Debug, Clone, Copy, PartialEq, Eq, Structural)]
pub enum DecodeError {
    Malformed,
}

/// A concatenation determines its prefix and its suffix.
proof fn lemma_prefix_suffix(bv: Seq<u8>, p: Seq<u8>, x: Seq<u8>)
    requires
        bv == p + x,
    ensures
        p.len() <= bv.len(),
        bv.subrange(0, p.len() as int) == p,
        bv.subrange(p.len() as int, bv.len() as int) == x,
{
    assert forall|i: int| 0 <= i < p.len() implies #[trigger] bv.subrange(0, p.len() as int)[i]
        == p[i] by {
        assert(bv[i] == (p + x)[i]);
    }
    assert(bv.subrange(0, p.len() as int) =~= p);
    assert forall|i: int|
        0 <= i < x.len() implies #[trigger] bv.subrange(p.len() as int, bv.len() as int)[i]
        == x[i] by {
        assert(bv[p.len() + i] == (p + x)[p.len() + i]);
    }
    assert(bv.subrange(p.len() as int, bv.len() as int) =~= x);
}


/// Tries to read the frame as a `join` message.
fn try_join(b: &Vec<u8>) -> (r: Option<SignalMessage>)
    ensures
        match r {
            Some(m) => b@ == spec_encode(m@),
            None => forall|d: Seq<char>| b@ != spec_encode(SignalView::Join { device_id: d }),
        },
{
    proof {
        assert(b@.subrange(0, b@.len() as int) =~= b@);
    }
    let lit = "{\"type\":\"join\",\"device_id\":\"";
    if match_at(b, 0, lit) {
        let n = lit.as_bytes_vec().len();
        match parse_tail_one(b, n) {
            Some(s) => {
                proof {
                    lemma_subrange_split(b@, 0, open_join().len() as int, b@.len() as int);
                    assert(b@ =~= open_join() + escape_field(s@) + close_frame());
                }
                Some(SignalMessage::Join { device_id: s })
            },
            None => {
                proof {
                    assert forall|d: Seq<char>| b@ != spec_encode(SignalView::Join { device_id: d }) by {
                        if b@ == spec_encode(SignalView::Join { device_id: d }) {
                            assert(b@ =~= open_join() + (escape_field(d) + close_frame()));
                            lemma_prefix_suffix(b@, open_join(), escape_field(d) + close_frame());
                            assert(false);
                        }
                    }
                }
                None
            },
        }
    } else {
        proof {
            assert forall|d: Seq<char>| b@ != spec_encode(SignalView::Join { device_id: d }) by {
                if b@ == spec_encode(SignalView::Join { device_id: d }) {
                    assert(b@ =~= open_join() + (escape_field(d) + close_frame()));
                    lemma_prefix_suffix(b@, open_join(), escape_field(d) + close_frame());
                    assert(false);
                }
            }
        }
        None
    }
}

/// Tries to read the frame as a `offer` message.
fn try_offer(b: &Vec<u8>) -> (r: Option<SignalMessage>)
    ensures
        match r {
            Some(m) => b@ == spec_encode(m@),
            None => forall|p: Seq<char>, t: Seq<char>| b@ != spec_encode(SignalView::Offer { payload: p, target: t }),
        },
{
    proof {
        assert(b@.subrange(0, b@.len() as int) =~= b@);
    }
    let lit = "{\"type\":\"offer\",\"payload\":\"";
    if match_at(b, 0, lit) {
        let n = lit.as_bytes_vec().len();
        match parse_tail_two(b, n) {
            Some(pt) => {
                proof {
                    lemma_subrange_split(b@, 0, open_offer().len() as int, b@.len() as int);
                    assert(b@ =~= open_offer() + escape_field(pt.0@) + mid_target() + escape_field(
                        pt.1@,
                    ) + close_frame());
                }
                let (payload, target) = pt;
                Some(SignalMessage::Offer { payload, target })
            },
            None => {
                proof {
                    assert forall|p: Seq<char>, t: Seq<char>| b@ != spec_encode(SignalView::Offer { payload: p, target: t }) by {
                        if b@ == spec_encode(SignalView::Offer { payload: p, target: t }) {
                            assert(b@ =~= open_offer() + (escape_field(p) + mid_target()
                                + escape_field(t) + close_frame()));
                            lemma_prefix_suffix(b@, open_offer(), escape_field(p) + mid_target()
                                + escape_field(t) + close_frame());
                            assert(false);
                        }
                    }
                }
                None
            },
        }
    } else {
        proof {
            assert forall|p: Seq<char>, t: Seq<char>| b@ != spec_encode(SignalView::Offer { payload: p, target: t }) by {
                if b@ == spec_encode(SignalView::Offer { payload: p, target: t }) {
                    assert(b@ =~= open_offer() + (escape_field(p) + mid_target() + escape_field(t)
                        + close_frame()));
                    lemma_prefix_suffix(b@, open_offer(), escape_field(p) + mid_target()
                        + escape_field(t) + close_frame());
                    assert(false);
                }
            }
        }
        None
    }
}

/// Tries to read the frame as a `answer` message.
fn try_answer(b: &Vec<u8>) -> (r: Option<SignalMessage>)
    ensures
        match r {
            Some(m) => b@ == spec_encode(m@),
            None => forall|p: Seq<char>, t: Seq<char>| b@ != spec_encode(SignalView::Answer { payload: p, target: t }),
        },
{
    proof {
        assert(b@.subrange(0, b@.len() as int) =~= b@);
    }
    let lit = "{\"type\":\"answer\",\"payload\":\"";
    if match_at(b, 0, lit) {
        let n = lit.as_bytes_vec().len();
        match parse_tail_two(b, n) {
            Some(pt) => {
                proof {
                    lemma_subrange_split(b@, 0, open_answer().len() as int, b@.len() as int);
                    assert(b@ =~= open_answer() + escape_field(pt.0@) + mid_target() + escape_field(
                        pt.1@,
                    ) + close_frame());
                }
                let (payload, target) = pt;
                Some(SignalMessage::Answer { payload, target })
            },
            None => {
                proof {
                    assert forall|p: Seq<char>, t: Seq<char>| b@ != spec_encode(SignalView::Answer { payload: p, target: t }) by {
                        if b@ == spec_encode(SignalView::Answer { payload: p, target: t }) {
                            assert(b@ =~= open_answer() + (escape_field(p) + mid_target()
                                + escape_field(t) + close_frame()));
                            lemma_prefix_suffix(b@, open_answer(), escape_field(p) + mid_target()
                                + escape_field(t) + close_frame());
                            assert(false);
                        }
                    }
                }
                None
            },
        }
    } else {
        proof {
            assert forall|p: Seq<char>, t: Seq<char>| b@ != spec_encode(SignalView::Answer { payload: p, target: t }) by {
                if b@ == spec_encode(SignalView::Answer { payload: p, target: t }) {
                    assert(b@ =~= open_answer() + (escape_field(p) + mid_target() + escape_field(t)
                        + close_frame()));
                    lemma_prefix_suffix(b@, open_answer(), escape_field(p) + mid_target()
                        + escape_field(t) + close_frame());
                    assert(false);
                }
            }
        }
        None
    }
}

/// Tries to read the frame as a `ice_candidate` message.
fn try_ice_candidate(b: &Vec<u8>) -> (r: Option<SignalMessage>)
    ensures
        match r {
            Some(m) => b@ == spec_encode(m@),
            None => forall|p: Seq<char>, t: Seq<char>| b@ != spec_encode(SignalView::IceCandidate { payload: p, target: t }),
        },
{
    proof {
        assert(b@.subrange(0, b@.len() as int) =~= b@);
    }
    let lit = "{\"type\":\"ice_candidate\",\"payload\":\"";
    if match_at(b, 0, lit) {
        let n = lit.as_bytes_vec().len();
        match parse_tail_two(b, n) {
            Some(pt) => {
                proof {
                    lemma_subrange_split(b@, 0, open_ice_candidate().len() as int, b@.len() as int);
                    assert(b@ =~= open_ice_candidate() + escape_field(pt.0@) + mid_target() + escape_field(
                        pt.1@,
                    ) + close_frame());
                }
                let (payload, target) = pt;
                Some(SignalMessage::IceCandidate { payload, target })
            },
            None => {
                proof {
                    assert forall|p: Seq<char>, t: Seq<char>| b@ != spec_encode(SignalView::IceCandidate { payload: p, target: t }) by {
                        if b@ == spec_encode(SignalView::IceCandidate { payload: p, target: t }) {
                            assert(b@ =~= open_ice_candidate() + (escape_field(p) + mid_target()
                                + escape_field(t) + close_frame()));
                            lemma_prefix_suffix(b@, open_ice_candidate(), escape_field(p) + mid_target()
                                + escape_field(t) + close_frame());
                            assert(false);
                        }
                    }
                }
                None
            },
        }
    } else {
        proof {
            assert forall|p: Seq<char>, t: Seq<char>| b@ != spec_encode(SignalView::IceCandidate { payload: p, target: t }) by {
                if b@ == spec_encode(SignalView::IceCandidate { payload: p, target: t }) {
                    assert(b@ =~= open_ice_candidate() + (escape_field(p) + mid_target() + escape_field(t)
                        + close_frame()));
                    lemma_prefix_suffix(b@, open_ice_candidate(), escape_field(p) + mid_target()
                        + escape_field(t) + close_frame());
                    assert(false);
                }
            }
        }
        None
    }
}

/// Tries to read the frame as a `peer_disconnected` message.
fn try_peer_disconnected(b: &Vec<u8>) -> (r: Option<SignalMessage>)
    ensures
        match r {
            Some(m) => b@ == spec_encode(m@),
            None => forall|d: Seq<char>| b@ != spec_encode(SignalView::PeerDisconnected { device_id: d }),
        },
{
    proof {
        assert(b@.subrange(0, b@.len() as int) =~= b@);
    }
    let lit = "{\"type\":\"peer_disconnected\",\"device_id\":\"";
    if match_at(b, 0, lit) {
        let n = lit.as_bytes_vec().len();
        match parse_tail_one(b, n) {
            Some(s) => {
                proof {
                    lemma_subrange_split(b@, 0, open_peer_disconnected().len() as int, b@.len() as int);
                    assert(b@ =~= open_peer_disconnected() + escape_field(s@) + close_frame());
                }
                Some(SignalMessage::PeerDisconnected { device_id: s })
            },
            None => {
                proof {
                    assert forall|d: Seq<char>| b@ != spec_encode(SignalView::PeerDisconnected { device_id: d }) by {
                        if b@ == spec_encode(SignalView::PeerDisconnected { device_id: d }) {
                            assert(b@ =~= open_peer_disconnected() + (escape_field(d) + close_frame()));
                            lemma_prefix_suffix(b@, open_peer_disconnected(), escape_field(d) + close_frame());
                            assert(false);
                        }
                    }
                }
                None
            },
        }
    } else {
        proof {
            assert forall|d: Seq<char>| b@ != spec_encode(SignalView::PeerDisconnected { device_id: d }) by {
                if b@ == spec_encode(SignalView::PeerDisconnected { device_id: d }) {
                    assert(b@ =~= open_peer_disconnected() + (escape_field(d) + close_frame()));
                    lemma_prefix_suffix(b@, open_peer_disconnected(), escape_field(d) + close_frame());
                    assert(false);
                }
            }
        }
        None
    }
}

/// Tries to read the frame as a `error` message.
fn try_error(b: &Vec<u8>) -> (r: Option<SignalMessage>)
    ensures
        match r {
            Some(m) => b@ == spec_encode(m@),
            None => forall|d: Seq<char>| b@ != spec_encode(SignalView::Error { message: d }),
        },
{
    proof {
        assert(b@.subrange(0, b@.len() as int) =~= b@);
    }
    let lit = "{\"type\":\"error\",\"message\":\"";
    if match_at(b, 0, lit) {
        let n = lit.as_bytes_vec().len();
        match parse_tail_one(b, n) {
            Some(s) => {
                proof {
                    lemma_subrange_split(b@, 0, open_error().len() as int, b@.len() as int);
                    assert(b@ =~= open_error() + escape_field(s@) + close_frame());
                }
                Some(SignalMessage::Error { message: s })
            },
            None => {
                proof {
                    assert forall|d: Seq<char>| b@ != spec_encode(SignalView::Error { message: d }) by {
                        if b@ == spec_encode(SignalView::Error { message: d }) {
                            assert(b@ =~= open_error() + (escape_field(d) + close_frame()));
                            lemma_prefix_suffix(b@, open_error(), escape_field(d) + close_frame());
                            assert(false);
                        }
                    }
                }
                None
            },
        }
    } else {
        proof {
            assert forall|d: Seq<char>| b@ != spec_encode(SignalView::Error { message: d }) by {
                if b@ == spec_encode(SignalView::Error { message: d }) {
                    assert(b@ =~= open_error() + (escape_field(d) + close_frame()));
                    lemma_prefix_suffix(b@, open_error(), escape_field(d) + close_frame());
                    assert(false);
                }
            }
        }
        None
    }
}

/// Decodes one wire frame. Decoding succeeds exactly on the canonical
/// encodings: `Ok(m)` says the frame is precisely the encoding of `m`, and
/// `Err` says no message at all encodes to this frame, which the relay
/// answers by dropping the frame silently.
pub fn decode_message(b: &Vec<u8>) -> (r: Result<SignalMessage, DecodeError>)
    ensures
        match r {
            Ok(m) => b@ == spec_encode(m@),
            Err(_) => forall|v: SignalView| b@ != spec_encode(v),
        },
{
    if let Some(m) = try_join(b) {
        return Ok(m);
    }
    if let Some(m) = try_offer(b) {
        return Ok(m);
    }
    if let Some(m) = try_answer(b) {
        return Ok(m);
    }
    if let Some(m) = try_ice_candidate(b) {
        return Ok(m);
    }
    if let Some(m) = try_peer_disconnected(b) {
        return Ok(m);
    }
    if let Some(m) = try_error(b) {
        return Ok(m);
    }
    proof {
        assert forall|v: SignalView| b@ != spec_encode(v) by {
            if b@ == spec_encode(v) {
                match v {
                    SignalView::Join { device_id } => {
                        assert(false);
                    },
                    SignalView::Offer { payload, target } => {
                        assert(false);
                    },
                    SignalView::Answer { payload, target } => {
                        assert(false);
                    },
                    SignalView::IceCandidate { payload, target } => {
                        assert(false);
                    },
                    SignalView::PeerDisconnected { device_id } => {
                        assert(false);
                    },
                    SignalView::Error { message } => {
                        assert(false);
                    },
                }
            }
        }
    }
    Err(DecodeError::Malformed)
}


/// The `join` frame opening: its length and its tag byte.
proof fn lemma_open_join_bytes()
    ensures
        open_join().len() == 28,
        open_join()[9] == 106,
{
    reveal_strlit("{\"type\":\"join\",\"device_id\":\"");
    let s = ("{\"type\":\"join\",\"device_id\":\"")@;
    assert(s.len() == 28);
    assert(s[0] == '{' && s[1] == '"' && s[2] == 't' && s[3] == 'y' && s[4] == 'p' && s[5] == 'e' && s[6] == '"' && s[7] == ':' && s[8] == '"' && s[9] == 'j' && s[10] == 'o' && s[11] == 'i' && s[12] == 'n' && s[13] == '"' && s[14] == ',' && s[15] == '"' && s[16] == 'd' && s[17] == 'e' && s[18] == 'v' && s[19] == 'i' && s[20] == 'c' && s[21] == 'e' && s[22] == '_' && s[23] == 'i' && s[24] == 'd' && s[25] == '"' && s[26] == ':' && s[27] == '"');
    assert forall|i: int| 0 <= i < s.len() implies '\0' <= #[trigger] s[i] <= '\u{7f}' by {
        assert(s[0] == '{' && s[1] == '"' && s[2] == 't' && s[3] == 'y' && s[4] == 'p' && s[5] == 'e' && s[6] == '"' && s[7] == ':' && s[8] == '"' && s[9] == 'j' && s[10] == 'o' && s[11] == 'i' && s[12] == 'n' && s[13] == '"' && s[14] == ',' && s[15] == '"' && s[16] == 'd' && s[17] == 'e' && s[18] == 'v' && s[19] == 'i' && s[20] == 'c' && s[21] == 'e' && s[22] == '_' && s[23] == 'i' && s[24] == 'd' && s[25] == '"' && s[26] == ':' && s[27] == '"');
    }
    assert(vstd::utf8::is_ascii_chars(s));
    vstd::utf8::is_ascii_chars_encode_utf8(s);
    assert(open_join()[9] == s[9] as u8);
}

/// The `offer` frame opening: its length and its tag byte.
proof fn lemma_open_offer_bytes()
    ensures
        open_offer().len() == 27,
        open_offer()[9] == 111,
{
    reveal_strlit("{\"type\":\"offer\",\"payload\":\"");
    let s = ("{\"type\":\"offer\",\"payload\":\"")@;
    assert(s.len() == 27);
    assert(s[0] == '{' && s[1] == '"' && s[2] == 't' && s[3] == 'y' && s[4] == 'p' && s[5] == 'e' && s[6] == '"' && s[7] == ':' && s[8] == '"' && s[9] == 'o' && s[10] == 'f' && s[11] == 'f' && s[12] == 'e' && s[13] == 'r' && s[14] == '"' && s[15] == ',' && s[16] == '"' && s[17] == 'p' && s[18] == 'a' && s[19] == 'y' && s[20] == 'l' && s[21] == 'o' && s[22] == 'a' && s[23] == 'd' && s[24] == '"' && s[25] == ':' && s[26] == '"');
    assert forall|i: int| 0 <= i < s.len() implies '\0' <= #[trigger] s[i] <= '\u{7f}' by {
        assert(s[0] == '{' && s[1] == '"' && s[2] == 't' && s[3] == 'y' && s[4] == 'p' && s[5] == 'e' && s[6] == '"' && s[7] == ':' && s[8] == '"' && s[9] == 'o' && s[10] == 'f' && s[11] == 'f' && s[12] == 'e' && s[13] == 'r' && s[14] == '"' && s[15] == ',' && s[16] == '"' && s[17] == 'p' && s[18] == 'a' && s[19] == 'y' && s[20] == 'l' && s[21] == 'o' && s[22] == 'a' && s[23] == 'd' && s[24] == '"' && s[25] == ':' && s[26] == '"');
    }
    assert(vstd::utf8::is_ascii_chars(s));
    vstd::utf8::is_ascii_chars_encode_utf8(s);
    assert(open_offer()[9] == s[9] as u8);
}

/// The `answer` frame opening: its length and its tag byte.
proof fn lemma_open_answer_bytes()
    ensures
        open_answer().len() == 28,
        open_answer()[9] == 97,
{
    reveal_strlit("{\"type\":\"answer\",\"payload\":\"");
    let s = ("{\"type\":\"answer\",\"payload\":\"")@;
    assert(s.len() == 28);
    assert(s[0] == '{' && s[1] == '"' && s[2] == 't' && s[3] == 'y' && s[4] == 'p' && s[5] == 'e' && s[6] == '"' && s[7] == ':' && s[8] == '"' && s[9] == 'a' && s[10] == 'n' && s[11] == 's' && s[12] == 'w' && s[13] == 'e' && s[14] == 'r' && s[15] == '"' && s[16] == ',' && s[17] == '"' && s[18] == 'p' && s[19] == 'a' && s[20] == 'y' && s[21] == 'l' && s[22] == 'o' && s[23] == 'a' && s[24] == 'd' && s[25] == '"' && s[26] == ':' && s[27] == '"');
    assert forall|i: int| 0 <= i < s.len() implies '\0' <= #[trigger] s[i] <= '\u{7f}' by {
        assert(s[0] == '{' && s[1] == '"' && s[2] == 't' && s[3] == 'y' && s[4] == 'p' && s[5] == 'e' && s[6] == '"' && s[7] == ':' && s[8] == '"' && s[9] == 'a' && s[10] == 'n' && s[11] == 's' && s[12] == 'w' && s[13] == 'e' && s[14] == 'r' && s[15] == '"' && s[16] == ',' && s[17] == '"' && s[18] == 'p' && s[19] == 'a' && s[20] == 'y' && s[21] == 'l' && s[22] == 'o' && s[23] == 'a' && s[24] == 'd' && s[25] == '"' && s[26] == ':' && s[27] == '"');
    }
    assert(vstd::utf8::is_ascii_chars(s));
    vstd::utf8::is_ascii_chars_encode_utf8(s);
    assert(open_answer()[9] == s[9] as u8);
}

/// The `ice_candidate` frame opening: its length and its tag byte.
proof fn lemma_open_ice_candidate_bytes()
    ensures
        open_ice_candidate().len() == 35,
        open_ice_candidate()[9] == 105,
{
    reveal_strlit("{\"type\":\"ice_candidate\",\"payload\":\"");
    let s = ("{\"type\":\"ice_candidate\",\"payload\":\"")@;
    assert(s.len() == 35);
    assert(s[0] == '{' && s[1] == '"' && s[2] == 't' && s[3] == 'y' && s[4] == 'p' && s[5] == 'e' && s[6] == '"' && s[7] == ':' && s[8] == '"' && s[9] == 'i' && s[10] == 'c' && s[11] == 'e' && s[12] == '_' && s[13] == 'c' && s[14] == 'a' && s[15] == 'n' && s[16] == 'd' && s[17] == 'i' && s[18] == 'd' && s[19] == 'a' && s[20] == 't' && s[21] == 'e' && s[22] == '"' && s[23] == ',' && s[24] == '"' && s[25] == 'p' && s[26] == 'a' && s[27] == 'y' && s[28] == 'l' && s[29] == 'o' && s[30] == 'a' && s[31] == 'd' && s[32] == '"' && s[33] == ':' && s[34] == '"');
    assert forall|i: int| 0 <= i < s.len() implies '\0' <= #[trigger] s[i] <= '\u{7f}' by {
        assert(s[0] == '{' && s[1] == '"' && s[2] == 't' && s[3] == 'y' && s[4] == 'p' && s[5] == 'e' && s[6] == '"' && s[7] == ':' && s[8] == '"' && s[9] == 'i' && s[10] == 'c' && s[11] == 'e' && s[12] == '_' && s[13] == 'c' && s[14] == 'a' && s[15] == 'n' && s[16] == 'd' && s[17] == 'i' && s[18] == 'd' && s[19] == 'a' && s[20] == 't' && s[21] == 'e' && s[22] == '"' && s[23] == ',' && s[24] == '"' && s[25] == 'p' && s[26] == 'a' && s[27] == 'y' && s[28] == 'l' && s[29] == 'o' && s[30] == 'a' && s[31] == 'd' && s[32] == '"' && s[33] == ':' && s[34] == '"');
    }
    assert(vstd::utf8::is_ascii_chars(s));
    vstd::utf8::is_ascii_chars_encode_utf8(s);
    assert(open_ice_candidate()[9] == s[9] as u8);
}

/// The `peer_disconnected` frame opening: its length and its tag byte.
proof fn lemma_open_peer_disconnected_bytes()
    ensures
        open_peer_disconnected().len() == 41,
        open_peer_disconnected()[9] == 112,
{
    reveal_strlit("{\"type\":\"peer_disconnected\",\"device_id\":\"");
    let s = ("{\"type\":\"peer_disconnected\",\"device_id\":\"")@;
    assert(s.len() == 41);
    assert(s[0] == '{' && s[1] == '"' && s[2] == 't' && s[3] == 'y' && s[4] == 'p' && s[5] == 'e' && s[6] == '"' && s[7] == ':' && s[8] == '"' && s[9] == 'p' && s[10] == 'e' && s[11] == 'e' && s[12] == 'r' && s[13] == '_' && s[14] == 'd' && s[15] == 'i' && s[16] == 's' && s[17] == 'c' && s[18] == 'o' && s[19] == 'n' && s[20] == 'n' && s[21] == 'e' && s[22] == 'c' && s[23] == 't' && s[24] == 'e' && s[25] == 'd' && s[26] == '"' && s[27] == ',' && s[28] == '"' && s[29] == 'd' && s[30] == 'e' && s[31] == 'v' && s[32] == 'i' && s[33] == 'c' && s[34] == 'e' && s[35] == '_' && s[36] == 'i' && s[37] == 'd' && s[38] == '"' && s[39] == ':' && s[40] == '"');
    assert forall|i: int| 0 <= i < s.len() implies '\0' <= #[trigger] s[i] <= '\u{7f}' by {
        assert(s[0] == '{' && s[1] == '"' && s[2] == 't' && s[3] == 'y' && s[4] == 'p' && s[5] == 'e' && s[6] == '"' && s[7] == ':' && s[8] == '"' && s[9] == 'p' && s[10] == 'e' && s[11] == 'e' && s[12] == 'r' && s[13] == '_' && s[14] == 'd' && s[15] == 'i' && s[16] == 's' && s[17] == 'c' && s[18] == 'o' && s[19] == 'n' && s[20] == 'n' && s[21] == 'e' && s[22] == 'c' && s[23] == 't' && s[24] == 'e' && s[25] == 'd' && s[26] == '"' && s[27] == ',' && s[28] == '"' && s[29] == 'd' && s[30] == 'e' && s[31] == 'v' && s[32] == 'i' && s[33] == 'c' && s[34] == 'e' && s[35] == '_' && s[36] == 'i' && s[37] == 'd' && s[38] == '"' && s[39] == ':' && s[40] == '"');
    }
    assert(vstd::utf8::is_ascii_chars(s));
    vstd::utf8::is_ascii_chars_encode_utf8(s);
    assert(open_peer_disconnected()[9] == s[9] as u8);
}

/// The `error` frame opening: its length and its tag byte.
proof fn lemma_open_error_bytes()
    ensures
        open_error().len() == 27,
        open_error()[9] == 101,
{
    reveal_strlit("{\"type\":\"error\",\"message\":\"");
    let s = ("{\"type\":\"error\",\"message\":\"")@;
    assert(s.len() == 27);
    assert(s[0] == '{' && s[1] == '"' && s[2] == 't' && s[3] == 'y' && s[4] == 'p' && s[5] == 'e' && s[6] == '"' && s[7] == ':' && s[8] == '"' && s[9] == 'e' && s[10] == 'r' && s[11] == 'r' && s[12] == 'o' && s[13] == 'r' && s[14] == '"' && s[15] == ',' && s[16] == '"' && s[17] == 'm' && s[18] == 'e' && s[19] == 's' && s[20] == 's' && s[21] == 'a' && s[22] == 'g' && s[23] == 'e' && s[24] == '"' && s[25] == ':' && s[26] == '"');
    assert forall|i: int| 0 <= i < s.len() implies '\0' <= #[trigger] s[i] <= '\u{7f}' by {
        assert(s[0] == '{' && s[1] == '"' && s[2] == 't' && s[3] == 'y' && s[4] == 'p' && s[5] == 'e' && s[6] == '"' && s[7] == ':' && s[8] == '"' && s[9] == 'e' && s[10] == 'r' && s[11] == 'r' && s[12] == 'o' && s[13] == 'r' && s[14] == '"' && s[15] == ',' && s[16] == '"' && s[17] == 'm' && s[18] == 'e' && s[19] == 's' && s[20] == 's' && s[21] == 'a' && s[22] == 'g' && s[23] == 'e' && s[24] == '"' && s[25] == ':' && s[26] == '"');
    }
    assert(vstd::utf8::is_ascii_chars(s));
    vstd::utf8::is_ascii_chars_encode_utf8(s);
    assert(open_error()[9] == s[9] as u8);
}

/// Equal sequences with an equal prefix have equal suffixes.
proof fn lemma_cancel_prefix(a: Seq<u8>, x: Seq<u8>, y: Seq<u8>)
    requires
        a + x == a + y,
    ensures
        x == y,
{
    assert((a + x).len() == a.len() + x.len());
    assert((a + y).len() == a.len() + y.len());
    assert(x.len() == y.len());
    assert forall|i: int| 0 <= i < x.len() implies x[i] == #[trigger] y[i] by {
        assert(x[i] == (a + x)[a.len() + i]);
        assert(y[i] == (a + y)[a.len() + i]);
    }
    assert(x =~= y);
}

/// A one-field frame determines its field.
proof fn lemma_one_field_unambiguous(open: Seq<u8>, d1: Seq<char>, d2: Seq<char>)
    requires
        open + escape_field(d1) + close_frame() == open + escape_field(d2) + close_frame(),
    ensures
        d1 == d2,
{
    lemma_close_frame_bytes();
    assert(open + (escape_field(d1) + close_frame()) =~= open + escape_field(d1) + close_frame());
    assert(open + (escape_field(d2) + close_frame()) =~= open + escape_field(d2) + close_frame());
    lemma_cancel_prefix(
        open,
        escape_field(d1) + close_frame(),
        escape_field(d2) + close_frame(),
    );
    assert(escape_bytes(encode_utf8(d1)) + seq![34u8] + seq![125u8] =~= escape_field(d1)
        + close_frame());
    assert(escape_bytes(encode_utf8(d2)) + seq![34u8] + seq![125u8] =~= escape_field(d2)
        + close_frame());
    lemma_escape_unique(encode_utf8(d1), seq![125u8], encode_utf8(d2), seq![125u8]);
    encode_utf8_decode_utf8(d1);
    encode_utf8_decode_utf8(d2);
    assert(d1 == d2);
}

/// A two-field frame determines both of its fields.
proof fn lemma_two_field_unambiguous(
    open: Seq<u8>,
    p1: Seq<char>,
    t1: Seq<char>,
    p2: Seq<char>,
    t2: Seq<char>,
)
    requires
        open + escape_field(p1) + mid_target() + escape_field(t1) + close_frame() == open
            + escape_field(p2) + mid_target() + escape_field(t2) + close_frame(),
    ensures
        p1 == p2,
        t1 == t2,
{
    lemma_close_frame_bytes();
    lemma_mid_target_bytes();
    let mid_rest = mid_target().skip(1);
    assert(mid_target() =~= seq![34u8] + mid_rest);
    let x1 = escape_field(p1) + mid_target() + escape_field(t1) + close_frame();
    let x2 = escape_field(p2) + mid_target() + escape_field(t2) + close_frame();
    assert(open + x1 =~= open + escape_field(p1) + mid_target() + escape_field(t1)
        + close_frame());
    assert(open + x2 =~= open + escape_field(p2) + mid_target() + escape_field(t2)
        + close_frame());
    lemma_cancel_prefix(open, x1, x2);
    let r1 = mid_rest + escape_field(t1) + close_frame();
    let r2 = mid_rest + escape_field(t2) + close_frame();
    assert(escape_bytes(encode_utf8(p1)) + seq![34u8] + r1 =~= x1);
    assert(escape_bytes(encode_utf8(p2)) + seq![34u8] + r2 =~= x2);
    lemma_escape_unique(encode_utf8(p1), r1, encode_utf8(p2), r2);
    encode_utf8_decode_utf8(p1);
    encode_utf8_decode_utf8(p2);
    assert(p1 == p2);
    assert(mid_rest + (escape_field(t1) + close_frame()) =~= r1);
    assert(mid_rest + (escape_field(t2) + close_frame()) =~= r2);
    lemma_cancel_prefix(
        mid_rest,
        escape_field(t1) + close_frame(),
        escape_field(t2) + close_frame(),
    );
    assert(escape_bytes(encode_utf8(t1)) + seq![34u8] + seq![125u8] =~= escape_field(t1)
        + close_frame());
    assert(escape_bytes(encode_utf8(t2)) + seq![34u8] + seq![125u8] =~= escape_field(t2)
        + close_frame());
    lemma_escape_unique(encode_utf8(t1), seq![125u8], encode_utf8(t2), seq![125u8]);
    encode_utf8_decode_utf8(t1);
    encode_utf8_decode_utf8(t2);
    assert(t1 == t2);
}

/// The tag byte of an encoded frame: the byte at index 9 names the variant.
proof fn lemma_tag_byte(v: SignalView)
    ensures
        spec_encode(v).len() > 9,
        spec_encode(v)[9] == match v {
            SignalView::Join { .. } => 106u8,
            SignalView::Offer { .. } => 111u8,
            SignalView::Answer { .. } => 97u8,
            SignalView::IceCandidate { .. } => 105u8,
            SignalView::PeerDisconnected { .. } => 112u8,
            SignalView::Error { .. } => 101u8,
        },
{
    lemma_open_join_bytes();
    lemma_open_offer_bytes();
    lemma_open_answer_bytes();
    lemma_open_ice_candidate_bytes();
    lemma_open_peer_disconnected_bytes();
    lemma_open_error_bytes();
    match v {
        SignalView::Join { device_id } => {
            assert(spec_encode(v)[9] == open_join()[9]);
        },
        SignalView::Offer { payload, target } => {
            assert(spec_encode(v)[9] == open_offer()[9]);
        },
        SignalView::Answer { payload, target } => {
            assert(spec_encode(v)[9] == open_answer()[9]);
        },
        SignalView::IceCandidate { payload, target } => {
            assert(spec_encode(v)[9] == open_ice_candidate()[9]);
        },
        SignalView::PeerDisconnected { device_id } => {
            assert(spec_encode(v)[9] == open_peer_disconnected()[9]);
        },
        SignalView::Error { message } => {
            assert(spec_encode(v)[9] == open_error()[9]);
        },
    }
}

/// Unambiguity law of the wire format: two messages with the same canonical
/// frame are the same message, so together with the decoder's exactness a
/// frame decodes to at most one message, and every encoded message decodes
/// back to itself.
pub proof fn lemma_encode_unambiguous(v1: SignalView, v2: SignalView)
    requires
        spec_encode(v1) == spec_encode(v2),
    ensures
        v1 == v2,
{
    lemma_tag_byte(v1);
    lemma_tag_byte(v2);
    match (v1, v2) {
        (SignalView::Join { device_id: d1 }, SignalView::Join { device_id: d2 }) => {
            lemma_one_field_unambiguous(open_join(), d1, d2);
        },
        (
            SignalView::Offer { payload: p1, target: t1 },
            SignalView::Offer { payload: p2, target: t2 },
        ) => {
            lemma_two_field_unambiguous(open_offer(), p1, t1, p2, t2);
        },
        (
            SignalView::Answer { payload: p1, target: t1 },
            SignalView::Answer { payload: p2, target: t2 },
        ) => {
            lemma_two_field_unambiguous(open_answer(), p1, t1, p2, t2);
        },
        (
            SignalView::IceCandidate { payload: p1, target: t1 },
            SignalView::IceCandidate { payload: p2, target: t2 },
        ) => {
            lemma_two_field_unambiguous(open_ice_candidate(), p1, t1, p2, t2);
        },
        (
            SignalView::PeerDisconnected { device_id: d1 },
            SignalView::PeerDisconnected { device_id: d2 },
        ) => {
            lemma_one_field_unambiguous(open_peer_disconnected(), d1, d2);
        },
        (SignalView::Error { message: m1 }, SignalView::Error { message: m2 }) => {
            lemma_one_field_unambiguous(open_error(), m1, m2);
        },
        _ => {
            assert(spec_encode(v1)[9] == spec_encode(v2)[9]);
            assert(false);
        },
    }
}

} // verus!
