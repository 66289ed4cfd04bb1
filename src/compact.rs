//! The compact integer framing: four size modes picked by magnitude.
use vstd::prelude::*;
use crate::error::DecodeError;

verus! {

/// `256^n`.
pub open spec fn pow256(n: nat) -> nat
    decreases n,
{
    if n == 0 {
        1
    } else {
        256 * pow256((n - 1) as nat)
    }
}

/// The unsigned value of little-endian bytes.
pub open spec fn le_value(s: Seq<u8>) -> nat
    decreases s.len(),
{
    if s.len() == 0 {
        0
    } else {
        s[0] as nat + 256 * le_value(s.drop_first())
    }
}

/// The `n` low bytes of `v`, least significant first.
pub open spec fn le_bytes(v: nat, n: nat) -> Seq<u8>
    decreases n,
{
    if n == 0 {
        seq![]
    } else {
        seq![(v % 256) as u8] + le_bytes(v / 256, (n - 1) as nat)
    }
}

/// The fewest bytes that hold `v` (at least one).
pub open spec fn min_bytes(v: nat) -> nat
    decreases v,
{
    if v < 256 {
        1
    } else {
        1 + min_bytes(v / 256)
    }
}

/// The canonical compact encoding of `v`.
pub open spec fn compact_encoding(v: nat) -> Seq<u8> {
    if v < 0x40 {
        le_bytes(v * 4, 1)
    } else if v < 0x4000 {
        le_bytes(v * 4 + 1, 2)
    } else if v < 0x4000_0000 {
        le_bytes(v * 4 + 2, 4)
    } else {
        seq![((min_bytes(v) - 4) * 4 + 3) as u8] + le_bytes(v, min_bytes(v))
    }
}

/// What decoding a compact integer at the start of `b` gives: the value and
/// the number of bytes taken, or the failure.
pub open spec fn compact_decoding(b: Seq<u8>) -> Result<(u128, nat), DecodeError> {
    if b.len() == 0 {
        Err(DecodeError::BufferUnderrun)
    } else {
        let mode = b[0] % 4;
        if mode == 0 {
            Ok(((b[0] / 4) as u128, 1nat))
        } else if mode == 1 {
            if b.len() < 2 {
                Err(DecodeError::BufferUnderrun)
            } else if le_value(b.take(2)) / 4 < 0x40 {
                Err(DecodeError::InvalidCompactEncoding)
            } else {
                Ok(((le_value(b.take(2)) / 4) as u128, 2nat))
            }
        } else if mode == 2 {
            if b.len() < 4 {
                Err(DecodeError::BufferUnderrun)
            } else if le_value(b.take(4)) / 4 < 0x4000 {
                Err(DecodeError::InvalidCompactEncoding)
            } else {
                Ok(((le_value(b.take(4)) / 4) as u128, 4nat))
            }
        } else {
            let n = (b[0] / 4) as nat + 4;
            if n > 16 {
                Err(DecodeError::InvalidCompactEncoding)
            } else if b.len() < n + 1 {
                Err(DecodeError::BufferUnderrun)
            } else {
                let v = le_value(b.subrange(1, n as int + 1));
                if v < 0x4000_0000 || min_bytes(v) != n {
                    Err(DecodeError::InvalidCompactEncoding)
                } else {
                    Ok((v as u128, n + 1))
                }
            }
        }
    }
}

pub proof fn lemma_pow256_mono(a: nat, b: nat)
    requires
        a <= b,
    ensures
        1 <= pow256(a) <= pow256(b),
    decreases b,
{
    if b > 0 {
        if a < b {
            lemma_pow256_mono(a, (b - 1) as nat);
        }
        lemma_pow256_mono(0, (b - 1) as nat);
    }
}

pub proof fn lemma_pow256_16()
    ensures
        pow256(16) == 0x1_0000_0000_0000_0000_0000_0000_0000_0000,
        pow256(3) == 0x100_0000,
{
    reveal_with_fuel(pow256, 17);
}

/// Little-endian bytes of length `n` hold less than `256^n`.
pub proof fn lemma_le_value_bound(s: Seq<u8>)
    ensures
        le_value(s) < pow256(s.len()),
    decreases s.len(),
{
    if s.len() > 0 {
        lemma_le_value_bound(s.drop_first());
        let r = le_value(s.drop_first());
        let p = pow256((s.len() - 1) as nat);
        let h = s[0] as nat;
        assert(h + 256 * r < 256 * p) by (nonlinear_arith)
            requires
                h < 256,
                r < p,
        ;
    }
}

/// Reading back `n` written bytes gives the value, when it fits.
pub proof fn lemma_le_roundtrip(v: nat, n: nat)
    requires
        v < pow256(n),
    ensures
        le_bytes(v, n).len() == n,
        le_value(le_bytes(v, n)) == v,
    decreases n,
{
    if n > 0 {
        let p = pow256((n - 1) as nat);
        assert(v / 256 < p) by (nonlinear_arith)
            requires
                v < 256 * p,
        ;
        lemma_le_roundtrip(v / 256, (n - 1) as nat);
        let s = le_bytes(v, n);
        assert(s.drop_first() =~= le_bytes(v / 256, (n - 1) as nat));
        assert(v == v % 256 + 256 * (v / 256)) by (nonlinear_arith);
    } else {
        assert(pow256(0) == 1);
    }
}

/// `min_bytes` is the exact byte count of `v`.
pub proof fn lemma_min_bytes(v: nat, k: nat)
    ensures
        min_bytes(v) >= 1,
        v < pow256(min_bytes(v)),
        k >= 1 && v < pow256(k) ==> min_bytes(v) <= k,
        k >= 1 && v >= pow256((k - 1) as nat) ==> min_bytes(v) >= k,
    decreases v,
{
    if v >= 256 {
        let k1 = if k > 0 { (k - 1) as nat } else { 0 };
        lemma_min_bytes(v / 256, k1);
        let m = min_bytes(v / 256);
        let pm = pow256(m);
        assert(v < 256 * pm) by (nonlinear_arith)
            requires
                v / 256 < pm,
        ;
        if k > 0 {
            let p = pow256(k1);
            assert(pow256(k) == 256 * p);
            if v < pow256(k) {
                assert(v / 256 < p) by (nonlinear_arith)
                    requires
                        v < 256 * p,
                ;
            }
            if k >= 2 && v >= pow256((k - 1) as nat) {
                let q = pow256((k - 2) as nat);
                assert(v / 256 >= q) by (nonlinear_arith)
                    requires
                        v >= 256 * q,
                ;
            }
        } else {
            assert(pow256(0) == 1);
        }
    } else {
        assert(pow256(1) == 256) by {
            reveal_with_fuel(pow256, 2);
        }
        if k >= 2 {
            lemma_pow256_mono(1, (k - 1) as nat);
        }
        if k == 0 {
            assert(pow256(0) == 1);
        }
        if k >= 1 {
            lemma_pow256_mono(1, k);
        }
    }
}

/// Reads `width` little-endian bytes at `start`.
pub fn read_le(data: &[u8], start: usize, width: usize) -> (r: u128)
    requires
        width <= 16,
        start + width <= data@.len(),
    ensures
        r as nat == le_value(data@.subrange(start as int, start + width)),
{
    let mut i: usize = width;
    let mut acc: u128 = 0;
    proof {
        lemma_pow256_16();
        assert(data@.subrange(start + i, start + width).len() == 0);
    }
    while i > 0
        invariant
            i <= width <= 16,
            start + width <= data.len(),
            acc as nat == le_value(data@.subrange(start + i, start + width)),
            pow256(16) == 0x1_0000_0000_0000_0000_0000_0000_0000_0000,
        decreases i,
    {
        let ghost s = data@.subrange(start + i - 1, start + width);
        proof {
            assert(s.drop_first() =~= data@.subrange(start + i, start + width));
            lemma_le_value_bound(s);
            lemma_pow256_mono(s.len(), 16);
        }
        i -= 1;
        assert(start + i < data@.len());
        let b = data[start + i];
        acc = acc * 256 + b as u128;
    }
    acc
}

/// Appends the `n` low bytes of `x`, least significant first.
fn push_le(out: &mut Vec<u8>, x: u128, n: usize)
    ensures
        final(out)@ == old(out)@ + le_bytes(x as nat, n as nat),
{
    let mut cur: u128 = x;
    let mut i: usize = 0;
    while i < n
        invariant
            i <= n,
            old(out)@ + le_bytes(x as nat, n as nat) == out@ + le_bytes(cur as nat, (n - i) as nat),
        decreases n - i,
    {
        let ghost before = out@;
        out.push((cur % 256) as u8);
        proof {
            let rest = le_bytes(cur as nat / 256, (n - i - 1) as nat);
            assert(le_bytes(cur as nat, (n - i) as nat) == seq![(cur as nat % 256) as u8] + rest);
            assert(out@ + rest =~= before + (seq![(cur as nat % 256) as u8] + rest));
        }
        cur = cur / 256;
        i += 1;
    }
    assert(le_bytes(cur as nat, 0) =~= seq![]);
    assert(out@ + seq![] =~= out@);
}

/// The number of bytes that hold `v`.
fn min_byte_len(v: u128) -> (n: usize)
    ensures
        n == min_bytes(v as nat),
        1 <= n <= 16,
    decreases v,
{
    proof {
        lemma_pow256_16();
        lemma_min_bytes(v as nat, 16);
    }
    if v < 256 {
        1
    } else {
        1 + min_byte_len(v / 256)
    }
}

/// Encodes `v` in its minimal compact form.
pub fn encode_compact(v: u128) -> (r: Vec<u8>)
    ensures
        r@ == compact_encoding(v as nat),
{
    let mut out: Vec<u8> = Vec::new();
    if v < 0x40 {
        push_le(&mut out, v * 4, 1);
    } else if v < 0x4000 {
        push_le(&mut out, v * 4 + 1, 2);
    } else if v < 0x4000_0000 {
        push_le(&mut out, v * 4 + 2, 4);
    } else {
        let n = min_byte_len(v);
        proof {
            lemma_pow256_16();
            lemma_min_bytes(v as nat, 4);
            assert(pow256(3) <= 0x4000_0000);
        }
        out.push(((n - 4) * 4 + 3) as u8);
        push_le(&mut out, v, n);
    }
    assert(out@ =~= compact_encoding(v as nat));
    out
}

/// Decodes a compact integer at `pos`, giving its value and the position
/// just after it.
pub fn decode_compact(data: &[u8], pos: usize) -> (r: Result<(u128, usize), DecodeError>)
    requires
        pos <= data@.len(),
    ensures
        match r {
            Ok((v, p)) => p >= pos && compact_decoding(data@.skip(pos as int)) == Ok::<
                (u128, nat),
                DecodeError,
            >((v, (p - pos) as nat)),
            Err(e) => compact_decoding(data@.skip(pos as int)) == Err::<(u128, nat), DecodeError>(e),
        },
{
    let ghost b = data@.skip(pos as int);
    let avail = data.len() - pos;
    if avail == 0 {
        return Err(DecodeError::BufferUnderrun);
    }
    let first = data[pos];
    let mode = first % 4;
    if mode == 0 {
        Ok(((first / 4) as u128, pos + 1))
    } else if mode == 1 {
        if avail < 2 {
            return Err(DecodeError::BufferUnderrun);
        }
        let x = read_le(data, pos, 2);
        proof {
            assert(data@.subrange(pos as int, pos + 2) =~= b.take(2));
        }
        if x / 4 < 0x40 {
            Err(DecodeError::InvalidCompactEncoding)
        } else {
            Ok((x / 4, pos + 2))
        }
    } else if mode == 2 {
        if avail < 4 {
            return Err(DecodeError::BufferUnderrun);
        }
        let x = read_le(data, pos, 4);
        proof {
            assert(data@.subrange(pos as int, pos + 4) =~= b.take(4));
        }
        if x / 4 < 0x4000 {
            Err(DecodeError::InvalidCompactEncoding)
        } else {
            Ok((x / 4, pos + 4))
        }
    } else {
        let n = (first / 4) as usize + 4;
        if n > 16 {
            return Err(DecodeError::InvalidCompactEncoding);
        }
        if avail < n + 1 {
            return Err(DecodeError::BufferUnderrun);
        }
        let v = read_le(data, pos + 1, n);
        proof {
            assert(data@.subrange(pos + 1, pos + 1 + n) =~= b.subrange(1, n as int + 1));
        }
        if v < 0x4000_0000 || min_byte_len(v) != n {
            Err(DecodeError::InvalidCompactEncoding)
        } else {
            Ok((v, pos + 1 + n))
        }
    }
}

/// Decoding the encoding of any value, whatever follows it, gives the value
/// back and takes exactly the encoding's bytes; the encoding is the shortest
/// form for the value's magnitude.
pub proof fn lemma_compact_round_trip(v: u128, tail: Seq<u8>)
    ensures
        compact_decoding(compact_encoding(v as nat) + tail) == Ok::<(u128, nat), DecodeError>(
            (v, compact_encoding(v as nat).len()),
        ),
        v < 0x40 ==> compact_encoding(v as nat).len() == 1,
        0x40 <= v < 0x4000 ==> compact_encoding(v as nat).len() == 2,
        0x4000 <= v < 0x4000_0000 ==> compact_encoding(v as nat).len() == 4,
        0x4000_0000 <= v ==> compact_encoding(v as nat).len() == 1 + min_bytes(v as nat),
{
    let x = v as nat;
    let e = compact_encoding(x);
    let b = e + tail;
    reveal_with_fuel(pow256, 5);
    lemma_pow256_16();
    if x < 0x40 {
        lemma_le_roundtrip(x * 4, 1);
        assert(b[0] == (x * 4) as u8);
    } else if x < 0x4000 {
        lemma_le_roundtrip(x * 4 + 1, 2);
        assert(b.take(2) =~= e);
        assert(b[0] == ((x * 4 + 1) % 256) as u8);
        assert(((x * 4 + 1) % 256) % 4 == 1) by (nonlinear_arith);
    } else if x < 0x4000_0000 {
        lemma_le_roundtrip(x * 4 + 2, 4);
        assert(b.take(4) =~= e);
        assert(b[0] == ((x * 4 + 2) % 256) as u8);
        assert(((x * 4 + 2) % 256) % 4 == 2) by (nonlinear_arith);
    } else {
        let n = min_bytes(x);
        lemma_min_bytes(x, 16);
        lemma_min_bytes(x, 4);
        lemma_le_roundtrip(x, n);
        assert(b.subrange(1, n as int + 1) =~= le_bytes(x, n));
        assert(b[0] == ((n - 4) * 4 + 3) as u8);
    }
}

/// A big-integer-mode encoding whose declared length is longer than the
/// value needs is refused.
pub proof fn lemma_compact_rejects_padding(b: Seq<u8>)
    requires
        b.len() >= 1,
        b[0] % 4 == 3,
        b[0] / 4 + 4 <= 16,
        b.len() >= b[0] / 4 + 5,
        min_bytes(le_value(b.subrange(1, b[0] / 4 + 5))) < b[0] / 4 + 4,
    ensures
        compact_decoding(b) == Err::<(u128, nat), DecodeError>(DecodeError::InvalidCompactEncoding),
{
}

} // verus!
