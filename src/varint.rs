//! Unsigned LEB128 integers: seven bits per byte, least significant group
//! first, the high bit set on every byte but the last.
use vstd::prelude::*;

verus! {

/// Why a varint could not be read.
#[derive(Debug, Clone, Copy, PartialEq, Eq, Structural)]
pub enum VarintError {
    /// The bytes ended before a byte without the continuation bit.
    Truncated,
    /// The value needs more than 64 bits.
    Overflow,
}

/// The most bytes a 64-bit value takes.
pub const MAX_VARINT_LEN: usize = 10;

/// `128` to the power `k`.
pub open spec fn pow128(k: nat) -> nat
    decreases k,
{
    if k == 0 {
        1
    } else {
        128 * pow128((k - 1) as nat)
    }
}

/// The encoding of `v`.
pub open spec fn varint_spec(v: nat) -> Seq<u8>
    decreases v,
{
    if v < 128 {
        seq![v as u8]
    } else {
        seq![((v % 128) + 128) as u8] + varint_spec(v / 128)
    }
}

/// Reading a varint that starts at `pos`, with `k` bytes already consumed
/// and `acc` their accumulated value; on success the value and the position
/// just past the varint.
pub open spec fn varint_read(s: Seq<u8>, pos: nat, k: nat, acc: nat) -> Result<(u64, nat), VarintError>
    decreases 10 - k,
{
    if k >= 10 {
        Err(VarintError::Overflow)
    } else if pos + k >= s.len() {
        Err(VarintError::Truncated)
    } else {
        let b = s[(pos + k) as int];
        let acc2 = acc + (b % 128) as nat * pow128(k);
        if b < 128 {
            if acc2 <= u64::MAX {
                Ok((acc2 as u64, pos + k + 1))
            } else {
                Err(VarintError::Overflow)
            }
        } else {
            varint_read(s, pos, k + 1, acc2)
        }
    }
}

/// The varint at `pos` of `s`.
pub open spec fn varint_at(s: Seq<u8>, pos: nat) -> Result<(u64, nat), VarintError> {
    varint_read(s, pos, 0, 0)
}

pub proof fn lemma_pow128_mono(j: nat, k: nat)
    requires
        j <= k,
    ensures
        1 <= pow128(j) <= pow128(k),
    decreases k,
{
    if k > j {
        lemma_pow128_mono(j, (k - 1) as nat);
    } else if k > 0 {
        lemma_pow128_mono(0, (k - 1) as nat);
    }
}

pub proof fn lemma_pow128_ten()
    ensures
        pow128(10) == 0x40_0000_0000_0000_0000,
{
    reveal_with_fuel(pow128, 11);
}

/// A value below `128^m` takes at most `m` bytes, and always at least one.
pub proof fn lemma_varint_len(v: nat, m: nat)
    requires
        m >= 1,
        v < pow128(m),
    ensures
        1 <= varint_spec(v).len() <= m,
    decreases v,
{
    if v >= 128 {
        assert(m >= 2) by {
            if m == 1 {
                reveal_with_fuel(pow128, 2);
            }
        }
        assert(v / 128 < pow128((m - 1) as nat));
        lemma_varint_len(v / 128, (m - 1) as nat);
    }
}

/// Every 64-bit value takes between one and ten bytes.
pub proof fn lemma_varint_len_u64(v: u64)
    ensures
        1 <= varint_spec(v as nat).len() <= 10,
{
    lemma_pow128_ten();
    lemma_varint_len(v as nat, 10);
}

proof fn lemma_varint_read_from(s: Seq<u8>, pos: nat, k: nat, acc: nat, w: nat, v: nat)
    requires
        v <= u64::MAX,
        acc < pow128(k),
        acc + w * pow128(k) == v,
        k + varint_spec(w).len() <= 10,
        pos + k + varint_spec(w).len() <= s.len(),
        s.subrange((pos + k) as int, (pos + k + varint_spec(w).len()) as int) == varint_spec(w),
    ensures
        varint_read(s, pos, k, acc) == Ok::<(u64, nat), VarintError>((v as u64, pos + k + varint_spec(w).len())),
    decreases w,
{
    let e = varint_spec(w);
    assert(s[(pos + k) as int] == e[0]);
    let p = pow128(k);
    if w < 128 {
        assert((w % 128) == w);
    } else {
        let w2 = w / 128;
        let e2 = varint_spec(w2);
        assert(e == seq![((w % 128) + 128) as u8] + e2);
        let b = s[(pos + k) as int];
        assert(b % 128 == w % 128);
        let acc2 = acc + (b % 128) as nat * p;
        assert(acc2 < pow128(k + 1)) by {
            assert((b % 128) as nat * p <= 127 * p) by (nonlinear_arith)
                requires (b % 128) <= 127;
        }
        assert(acc2 + w2 * pow128(k + 1) == v) by {
            assert(pow128(k + 1) == 128 * p);
            assert(w == 128 * w2 + w % 128);
            assert(w * p == (w % 128) * p + w2 * (128 * p)) by (nonlinear_arith)
                requires w == 128 * w2 + w % 128;
        }
        assert(s.subrange((pos + k + 1) as int, (pos + k + 1 + e2.len()) as int) =~= e2) by {
            assert forall|i: int| 0 <= i < e2.len() implies s[(pos + k + 1) as int + i] == e2[i] by {
                assert(s.subrange((pos + k) as int, (pos + k + e.len()) as int)[i + 1] == e[i + 1]);
            }
        }
        lemma_varint_read_from(s, pos, k + 1, acc2, w2, v);
    }
}

/// Reading back an encoded value, whatever surrounds it, gives the value and
/// the position just past it.
pub proof fn lemma_varint_round_trip(pre: Seq<u8>, v: u64, rest: Seq<u8>)
    ensures
        varint_at(pre + varint_spec(v as nat) + rest, pre.len()) == Ok::<(u64, nat), VarintError>(
            (v, pre.len() + varint_spec(v as nat).len()),
        ),
{
    let e = varint_spec(v as nat);
    let s = pre + e + rest;
    lemma_varint_len_u64(v);
    assert(pow128(0) == 1);
    assert(s.subrange(pre.len() as int, (pre.len() + e.len()) as int) =~= e);
    lemma_varint_read_from(s, pre.len(), 0, 0, v as nat, v as nat);
}

/// Appends the encoding of `v` to `out`.
pub fn write_varint(out: &mut Vec<u8>, v: u64)
    ensures
        final(out)@ == old(out)@ + varint_spec(v as nat),
{
    let ghost start = out@;
    let mut x: u64 = v;
    while x >= 128
        invariant
            out@ + varint_spec(x as nat) == start + varint_spec(v as nat),
        decreases x,
    {
        let b: u8 = ((x % 128) + 128) as u8;
        assert(varint_spec(x as nat) == seq![b] + varint_spec((x / 128) as nat));
        assert(out@.push(b) + varint_spec((x / 128) as nat) =~= out@ + varint_spec(x as nat));
        out.push(b);
        x = x / 128;
    }
    assert(varint_spec(x as nat) == seq![x as u8]);
    assert(out@.push(x as u8) =~= out@ + varint_spec(x as nat));
    out.push(x as u8);
}

/// The encoding of `v` as a fresh vector.
pub fn encode_varint(v: u64) -> (r: Vec<u8>)
    ensures
        r@ == varint_spec(v as nat),
{
    let mut out: Vec<u8> = Vec::new();
    write_varint(&mut out, v);
    assert(out@ =~= Seq::<u8>::empty() + varint_spec(v as nat));
    out
}

/// Reads the varint at `pos` of `s`: its value and the position just past it.
pub fn read_varint(s: &[u8], pos: usize) -> (r: Result<(u64, usize), VarintError>)
    ensures
        match varint_at(s@, pos as nat) {
            Ok((v, e)) => r == Ok::<(u64, usize), VarintError>((v, e as usize)) && pos < e <= s@.len(),
            Err(x) => r == Err::<(u64, usize), VarintError>(x),
        },
{
    let mut k: usize = 0;
    let mut acc: u128 = 0;
    let mut mul: u128 = 1;
    proof {
        lemma_pow128_ten();
    }
    while k < MAX_VARINT_LEN
        invariant
            k <= 10,
            mul == pow128(k as nat),
            acc < mul,
            pow128(10) == 0x40_0000_0000_0000_0000,
            varint_at(s@, pos as nat) == varint_read(s@, pos as nat, k as nat, acc as nat),
        decreases 10 - k,
    {
        if pos >= s.len() || k >= s.len() - pos {
            return Err(VarintError::Truncated);
        }
        let b: u8 = s[pos + k];
        proof {
            lemma_pow128_mono(k as nat, 10);
            assert((b % 128) as nat * mul <= 127 * mul) by (nonlinear_arith)
                requires (b % 128) <= 127;
        }
        let acc2: u128 = acc + (b % 128) as u128 * mul;
        if b < 128 {
            if acc2 <= u64::MAX as u128 {
                return Ok((acc2 as u64, pos + k + 1));
            } else {
                return Err(VarintError::Overflow);
            }
        }
        acc = acc2;
        mul = mul * 128;
        k = k + 1;
    }
    Err(VarintError::Overflow)
}

} // verus!
