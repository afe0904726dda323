//! Big-endian integer framing used by the batch files and the peer frames.
use vstd::prelude::*;

verus! {

/// `256` to the power `n`.
pub open spec fn pow256(n: nat) -> nat
    decreases n,
{
    if n == 0 {
        1
    } else {
        256 * pow256((n - 1) as nat)
    }
}

/// The unsigned value of a big-endian byte sequence.
pub open spec fn be_val(s: Seq<u8>) -> nat
    decreases s.len(),
{
    if s.len() == 0 {
        0
    } else {
        be_val(s.drop_last()) * 256 + s.last() as nat
    }
}

/// The `n` big-endian bytes of `v` (for `v < 256^n`).
pub open spec fn be_bytes(v: nat, n: nat) -> Seq<u8>
    decreases n,
{
    if n == 0 {
        seq![]
    } else {
        be_bytes(v / 256, (n - 1) as nat).push((v % 256) as u8)
    }
}

/// Two's complement reading of an `n`-byte unsigned value.
pub open spec fn signed_of(u: nat, n: nat) -> int {
    if u < pow256(n) / 2 {
        u as int
    } else {
        u - pow256(n)
    }
}

/// Two's complement `n`-byte encoding of a signed value.
pub open spec fn unsigned_of(x: int, n: nat) -> nat {
    if x >= 0 {
        x as nat
    } else {
        (x + pow256(n)) as nat
    }
}

/// The signed big-endian value of the `n` bytes at `pos`.
pub open spec fn signed_at(s: Seq<u8>, pos: int, n: nat) -> int {
    signed_of(be_val(s.subrange(pos, pos + n)), n)
}

/// The powers of 256 that the integer widths use.
pub proof fn lemma_pow256_values()
    ensures
        pow256(1) == 0x100,
        pow256(2) == 0x1_0000,
        pow256(4) == 0x1_0000_0000,
        pow256(7) == 0x100_0000_0000_0000,
        pow256(8) == 0x1_0000_0000_0000_0000,
{
    reveal_with_fuel(pow256, 9);
}

/// Powers of 256 grow with the exponent.
pub proof fn lemma_pow256_mono(a: nat, b: nat)
    requires
        a <= b,
    ensures
        pow256(a) <= pow256(b),
    decreases b,
{
    if a < b {
        lemma_pow256_mono(a, (b - 1) as nat);
    }
}

/// `n` bytes hold a value below `256^n`.
pub proof fn lemma_be_val_bound(s: Seq<u8>)
    ensures
        be_val(s) < pow256(s.len()),
    decreases s.len(),
{
    if s.len() > 0 {
        let p = s.drop_last();
        lemma_be_val_bound(p);
        let a = be_val(p);
        let q = pow256(p.len());
        let b = s.last() as nat;
        assert(a * 256 + b < 256 * q) by (nonlinear_arith)
            requires
                a < q,
                b < 256,
        ;
    }
}

/// Reading back the bytes written for `v` gives `v`.
pub proof fn lemma_be_round_trip(v: nat, n: nat)
    requires
        v < pow256(n),
    ensures
        be_bytes(v, n).len() == n,
        be_val(be_bytes(v, n)) == v,
    decreases n,
{
    if n > 0 {
        let q = v / 256;
        let p = pow256((n - 1) as nat);
        assert(v == 256 * q + v % 256) by {
            vstd::arithmetic::div_mod::lemma_fundamental_div_mod(v as int, 256);
        }
        assert(q < p) by (nonlinear_arith)
            requires
                v == 256 * q + v % 256,
                v < 256 * p,
                0 <= v % 256,
        ;
        lemma_be_round_trip(q, (n - 1) as nat);
        let b = be_bytes(v, n);
        assert(b.drop_last() =~= be_bytes(q, (n - 1) as nat));
    }
}

/// Signed values survive the two's complement encoding.
pub proof fn lemma_signed_round_trip(x: int, n: nat)
    requires
        n > 0,
        -(pow256(n) / 2) <= x < pow256(n) / 2,
    ensures
        unsigned_of(x, n) < pow256(n),
        signed_of(unsigned_of(x, n), n) == x,
{
}

/// Reads the unsigned big-endian value of the `n` bytes at `pos`.
pub fn read_uint(data: &Vec<u8>, pos: usize, n: usize) -> (r: u64)
    requires
        n <= 8,
        pos + n <= data@.len(),
    ensures
        r as nat == be_val(data@.subrange(pos as int, pos + n)),
{
    let len = data.len();
    let mut acc: u64 = 0;
    let mut k: usize = 0;
    while k < n
        invariant
            k <= n <= 8,
            pos + n <= data@.len(),
            data@.len() == len,
            acc as nat == be_val(data@.subrange(pos as int, pos + k)),
        decreases n - k,
    {
        let ghost prev = data@.subrange(pos as int, pos + k);
        let ghost next = data@.subrange(pos as int, pos + k + 1);
        proof {
            lemma_pow256_values();
            lemma_be_val_bound(prev);
            lemma_pow256_mono(k as nat, 7);
            assert(next.drop_last() =~= prev);
        }
        assert(acc < 0x100_0000_0000_0000);
        let b = data[pos + k];
        assert(acc * 256 + b < 0x1_0000_0000_0000_0000) by (nonlinear_arith)
            requires
                acc < 0x100_0000_0000_0000,
                b < 256,
        ;
        acc = acc * 256 + b as u64;
        k = k + 1;
    }
    acc
}

/// Appends the `n` big-endian bytes of `v`.
pub fn write_uint(out: &mut Vec<u8>, v: u64, n: usize)
    requires
        n <= 8,
        (v as nat) < pow256(n as nat),
    ensures
        final(out)@ == old(out)@ + be_bytes(v as nat, n as nat),
    decreases n,
{
    if n > 0 {
        write_uint(out, v / 256, n - 1);
        out.push((v % 256) as u8);
        assert(final(out)@ =~= old(out)@ + be_bytes(v as nat, n as nat));
    } else {
        assert(final(out)@ =~= old(out)@ + be_bytes(v as nat, n as nat));
    }
}

/// Width in bytes of an integer field: 1, 2, 4 or 8.
pub open spec fn is_width(n: nat) -> bool {
    n == 1 || n == 2 || n == 4 || n == 8
}

/// Smallest and largest signed value of `n` bytes.
pub open spec fn fits_signed(x: int, n: nat) -> bool {
    -(pow256(n) / 2) <= x < pow256(n) / 2
}

/// Reads the signed (two's complement) big-endian value of the `n` bytes at `pos`.
pub fn read_int(data: &Vec<u8>, pos: usize, n: usize) -> (r: i64)
    requires
        is_width(n as nat),
        pos + n <= data@.len(),
    ensures
        r as int == signed_at(data@, pos as int, n as nat),
        fits_signed(r as int, n as nat),
{
    let u = read_uint(data, pos, n);
    proof {
        lemma_pow256_values();
        lemma_be_val_bound(data@.subrange(pos as int, pos + n));
    }
    if n == 8 {
        if u < 0x8000_0000_0000_0000 {
            u as i64
        } else {
            ((u - 0x8000_0000_0000_0000) as i64) + i64::MIN
        }
    } else {
        let p: u64 = if n == 1 {
            0x100
        } else if n == 2 {
            0x1_0000
        } else {
            0x1_0000_0000
        };
        if u < p / 2 {
            u as i64
        } else {
            u as i64 - p as i64
        }
    }
}

/// Appends the two's complement big-endian bytes of `x`, `n` of them.
pub fn write_int(out: &mut Vec<u8>, x: i64, n: usize)
    requires
        is_width(n as nat),
        fits_signed(x as int, n as nat),
    ensures
        final(out)@ == old(out)@ + be_bytes(unsigned_of(x as int, n as nat), n as nat),
{
    proof {
        lemma_pow256_values();
    }
    let u: u64 = if x >= 0 {
        x as u64
    } else if n == 8 {
        ((x - i64::MIN) as u64) + 0x8000_0000_0000_0000
    } else {
        let p: i64 = if n == 1 {
            0x100
        } else if n == 2 {
            0x1_0000
        } else {
            0x1_0000_0000
        };
        (x + p) as u64
    };
    write_uint(out, u, n);
}

} // verus!
