//! Primitive pieces of the binary wire format: variable-length integers,
//! length-prefixed UTF-8 strings and byte strings.
//!
//! The layout is that of bincode's standard configuration: an integer below
//! 251 is one byte; larger ones are a marker byte (251, 252, 253) followed by
//! 2, 4 or 8 little-endian bytes. A string is its UTF-8 length as such an
//! integer, then its bytes.
//!
//! Each reader is stated against a parser over `Seq<u8>` that returns the
//! value and the number of bytes it consumed; each writer against the
//! encoding. The lemmas show that parsing an encoding, followed by anything,
//! gives back the value and consumes exactly the encoding.
use vstd::prelude::*;
use vstd::utf8::{decode_utf8, encode_utf8, valid_utf8};

verus! {

broadcast use vstd::utf8::encode_utf8_valid_utf8, vstd::utf8::encode_utf8_decode_utf8;

pub open spec fn pow256(n: nat) -> nat
    decreases n,
{
    if n == 0 {
        1
    } else {
        256 * pow256((n - 1) as nat)
    }
}

/// The `n` low bytes of `v`, least significant first.
pub open spec fn le_bytes(v: nat, n: nat) -> Seq<u8>
    decreases n,
{
    if n == 0 {
        Seq::empty()
    } else {
        seq![(v % 256) as u8] + le_bytes(v / 256, (n - 1) as nat)
    }
}

/// The number that little-endian bytes `b` stand for.
pub open spec fn le_value(b: Seq<u8>) -> nat
    decreases b.len(),
{
    if b.len() == 0 {
        0
    } else {
        b[0] as nat + 256 * le_value(b.drop_first())
    }
}

pub proof fn lemma_le_bytes_len(v: nat, n: nat)
    ensures
        le_bytes(v, n).len() == n,
    decreases n,
{
    if n > 0 {
        lemma_le_bytes_len(v / 256, (n - 1) as nat);
    }
}

pub proof fn lemma_le_round_trip(v: nat, n: nat)
    requires
        v < pow256(n),
    ensures
        le_value(le_bytes(v, n)) == v,
        le_bytes(v, n).len() == n,
    decreases n,
{
    lemma_le_bytes_len(v, n);
    if n > 0 {
        let p = pow256((n - 1) as nat);
        assert(v / 256 < p) by (nonlinear_arith)
            requires
                v < 256 * p,
        ;
        lemma_le_round_trip(v / 256, (n - 1) as nat);
        assert(le_bytes(v, n).drop_first() =~= le_bytes(v / 256, (n - 1) as nat));
        assert(v == v % 256 + 256 * (v / 256)) by (nonlinear_arith);
    }
}

pub proof fn lemma_le_value_bound(b: Seq<u8>)
    ensures
        le_value(b) < pow256(b.len()),
    decreases b.len(),
{
    if b.len() > 0 {
        lemma_le_value_bound(b.drop_first());
        let r = le_value(b.drop_first());
        let p = pow256(b.drop_first().len());
        let x = b[0] as nat;
        assert(x + 256 * r < 256 * p) by (nonlinear_arith)
            requires
                r < p,
                x < 256,
        ;
    }
}

/// Encoding of an integer.
pub open spec fn enc_varint(v: u64) -> Seq<u8> {
    if v < 251 {
        seq![v as u8]
    } else if v < 0x1_0000 {
        seq![251u8] + le_bytes(v as nat, 2)
    } else if v < 0x1_0000_0000 {
        seq![252u8] + le_bytes(v as nat, 4)
    } else {
        seq![253u8] + le_bytes(v as nat, 8)
    }
}

/// Reads an integer: its value and the bytes consumed.
pub open spec fn parse_varint(b: Seq<u8>) -> Option<(u64, nat)> {
    if b.len() == 0 {
        None
    } else if b[0] < 251 {
        Some((b[0] as u64, 1))
    } else if b[0] == 251 {
        if b.len() >= 3 {
            Some((le_value(b.subrange(1, 3)) as u64, 3))
        } else {
            None
        }
    } else if b[0] == 252 {
        if b.len() >= 5 {
            Some((le_value(b.subrange(1, 5)) as u64, 5))
        } else {
            None
        }
    } else if b[0] == 253 {
        if b.len() >= 9 {
            Some((le_value(b.subrange(1, 9)) as u64, 9))
        } else {
            None
        }
    } else {
        None
    }
}

pub proof fn lemma_varint_round_trip(v: u64, rest: Seq<u8>)
    ensures
        parse_varint(enc_varint(v) + rest) == Some((v, enc_varint(v).len())),
{
    reveal_with_fuel(pow256, 9);
    let e = enc_varint(v);
    let b = e + rest;
    if v < 251 {
    } else if v < 0x1_0000 {
        lemma_le_round_trip(v as nat, 2);
        assert(b.subrange(1, 3) =~= le_bytes(v as nat, 2));
    } else if v < 0x1_0000_0000 {
        lemma_le_round_trip(v as nat, 4);
        assert(b.subrange(1, 5) =~= le_bytes(v as nat, 4));
    } else {
        lemma_le_round_trip(v as nat, 8);
        assert(b.subrange(1, 9) =~= le_bytes(v as nat, 8));
    }
}

/// Encoding of a string: UTF-8 length, then UTF-8 bytes.
pub open spec fn enc_str(s: Seq<char>) -> Seq<u8> {
    enc_varint(encode_utf8(s).len() as u64) + encode_utf8(s)
}

/// Reads a string: its characters and the bytes consumed.
pub open spec fn parse_str(b: Seq<u8>) -> Option<(Seq<char>, nat)> {
    match parse_varint(b) {
        None => None,
        Some((len, k)) => if k + len <= b.len() && valid_utf8(b.subrange(k as int, k + len)) {
            Some((decode_utf8(b.subrange(k as int, k + len)), (k + len) as nat))
        } else {
            None
        },
    }
}

pub proof fn lemma_str_round_trip(s: Seq<char>, rest: Seq<u8>)
    requires
        encode_utf8(s).len() <= u64::MAX,
    ensures
        parse_str(enc_str(s) + rest) == Some((s, enc_str(s).len())),
{
    let u = encode_utf8(s);
    let n = u.len() as u64;
    let b = enc_str(s) + rest;
    assert(b =~= enc_varint(n) + (u + rest));
    lemma_varint_round_trip(n, u + rest);
    let k = enc_varint(n).len();
    assert(b.subrange(k as int, k + n) =~= u);
}

/// Encoding of a byte string: its length, then the bytes.
pub open spec fn enc_bytes(v: Seq<u8>) -> Seq<u8> {
    enc_varint(v.len() as u64) + v
}

// ----- writers -----

/// Appends the `n` low bytes of `v`, least significant first.
pub fn write_le(out: &mut Vec<u8>, v: u64, n: usize)
    ensures
        final(out)@ == old(out)@ + le_bytes(v as nat, n as nat),
    decreases n,
{
    if n > 0 {
        let ghost before = out@;
        out.push((v % 256) as u8);
        write_le(out, v / 256, n - 1);
        assert(final(out)@ =~= before + le_bytes(v as nat, n as nat)) by {
            assert(le_bytes(v as nat, n as nat) == seq![(v % 256) as u8] + le_bytes(
                (v / 256) as nat,
                (n - 1) as nat,
            ));
        }
    } else {
        assert(final(out)@ =~= old(out)@ + le_bytes(v as nat, n as nat));
    }
}

pub fn write_varint(out: &mut Vec<u8>, v: u64)
    ensures
        final(out)@ == old(out)@ + enc_varint(v),
{
    let ghost before = out@;
    if v < 251 {
        out.push(v as u8);
    } else if v < 0x1_0000 {
        out.push(251u8);
        write_le(out, v, 2);
    } else if v < 0x1_0000_0000 {
        out.push(252u8);
        write_le(out, v, 4);
    } else {
        out.push(253u8);
        write_le(out, v, 8);
    }
    assert(final(out)@ =~= before + enc_varint(v));
}

/// Appends the bytes of `b`.
pub fn write_raw(out: &mut Vec<u8>, b: &[u8])
    ensures
        final(out)@ == old(out)@ + b@,
{
    let ghost before = out@;
    let mut i: usize = 0;
    while i < b.len()
        invariant
            i <= b@.len(),
            out@ == before + b@.subrange(0, i as int),
        decreases b@.len() - i,
    {
        out.push(b[i]);
        i = i + 1;
        assert(out@ =~= before + b@.subrange(0, i as int));
    }
    assert(b@.subrange(0, b@.len() as int) =~= b@);
}

pub fn write_str(out: &mut Vec<u8>, s: &str)
    ensures
        final(out)@ == old(out)@ + enc_str(s@),
{
    let ghost before = out@;
    let b = s.as_bytes();
    write_varint(out, b.len() as u64);
    write_raw(out, b);
    assert(final(out)@ =~= before + enc_str(s@));
}

// ----- readers -----

/// Reads `n` little-endian bytes at `pos`.
pub fn read_le(b: &[u8], pos: usize, n: usize) -> (r: u64)
    requires
        n <= 8,
        pos + n <= b@.len(),
    ensures
        r == le_value(b@.subrange(pos as int, pos + n)),
    decreases n,
{
    if n == 0 {
        0
    } else {
        let len = b.len();
        assert(pos + 1 <= len);
        let hi = read_le(b, pos + 1, n - 1);
        proof {
            let s = b@.subrange(pos as int, pos + n);
            assert(s.drop_first() =~= b@.subrange(pos + 1, pos + n));
            lemma_le_value_bound(s.drop_first());
            reveal_with_fuel(pow256, 8);
            assert(pow256((n - 1) as nat) <= pow256(7));
            let x = b@[pos as int] as nat;
            assert(x + 256 * (hi as nat) < 256 * pow256(7)) by (nonlinear_arith)
                requires
                    (hi as nat) < pow256((n - 1) as nat),
                    pow256((n - 1) as nat) <= pow256(7),
                    x < 256,
            ;
        }
        b[pos] as u64 + 256 * hi
    }
}

/// Reads an integer at `pos`: its value and the position after it.
pub fn read_varint(b: &[u8], pos: usize) -> (r: Option<(u64, usize)>)
    requires
        pos <= b@.len(),
    ensures
        r matches Some((v, next)) ==> pos < next <= b@.len(),
        r matches Some((v, next)) ==> parse_varint(b@.skip(pos as int)) == Some(
            (v, (next - pos) as nat),
        ),
        r is None ==> parse_varint(b@.skip(pos as int)) is None,
        r == (match parse_varint(b@.skip(pos as int)) {
            None => None,
            Some((v, k)) => Some((v, (pos + k) as usize)),
        }),
{
    let ghost t = b@.skip(pos as int);
    if pos >= b.len() {
        return None;
    }
    let m = b[pos];
    assert(t[0] == m);
    if m < 251 {
        Some((m as u64, pos + 1))
    } else if m == 251 {
        if b.len() - pos >= 3 {
            let v = read_le(b, pos + 1, 2);
            assert(t.subrange(1, 3) =~= b@.subrange(pos + 1, pos + 3));
            Some((v, pos + 3))
        } else {
            None
        }
    } else if m == 252 {
        if b.len() - pos >= 5 {
            let v = read_le(b, pos + 1, 4);
            assert(t.subrange(1, 5) =~= b@.subrange(pos + 1, pos + 5));
            Some((v, pos + 5))
        } else {
            None
        }
    } else if m == 253 {
        if b.len() - pos >= 9 {
            let v = read_le(b, pos + 1, 8);
            assert(t.subrange(1, 9) =~= b@.subrange(pos + 1, pos + 9));
            Some((v, pos + 9))
        } else {
            None
        }
    } else {
        None
    }
}

/// Relies on `String::from_utf8`: it succeeds exactly on valid UTF-8, and
/// the string then holds the characters that the bytes encode.
#[verifier::external_body]
fn string_from_utf8(v: Vec<u8>) -> (r: Option<String>)
    ensures
        r is Some <==> valid_utf8(v@),
        r matches Some(s) ==> s@ == decode_utf8(v@),
{
    String::from_utf8(v).ok()
}

/// Reads a string at `pos`: the string and the position after it.
pub fn read_str(b: &[u8], pos: usize) -> (r: Option<(String, usize)>)
    requires
        pos <= b@.len(),
    ensures
        r matches Some((s, next)) ==> pos < next <= b@.len(),
        r matches Some((s, next)) ==> parse_str(b@.skip(pos as int)) == Some((s@, (next - pos) as nat)),
        r is None ==> parse_str(b@.skip(pos as int)) is None,
{
    let ghost t = b@.skip(pos as int);
    match read_varint(b, pos) {
        None => None,
        Some((len, start)) => {
            if len > (b.len() - start) as u64 {
                return None;
            }
            let end = start + len as usize;
            let mut v: Vec<u8> = Vec::new();
            let mut i: usize = start;
            while i < end
                invariant
                    start <= i <= end <= b@.len(),
                    v@ == b@.subrange(start as int, i as int),
                decreases end - i,
            {
                v.push(b[i]);
                i = i + 1;
                assert(v@ =~= b@.subrange(start as int, i as int));
            }
            let ghost k = (start - pos) as nat;
            assert(t.subrange(k as int, k + len) =~= b@.subrange(start as int, end as int));
            match string_from_utf8(v) {
                Some(s) => Some((s, end)),
                None => None,
            }
        },
    }
}

} // verus!
