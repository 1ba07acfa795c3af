//! Big-endian byte encoding of unsigned integers.
//!
//! Every integer on the wire is big-endian. `be_bytes(x, n)` is the
//! mathematical n-byte big-endian encoding of `x`; `be_value(s)` is the
//! integer a byte string denotes. The exec helpers mirror the two spec
//! functions and are the only place the arithmetic is done.

use vstd::arithmetic::div_mod::{lemma_fundamental_div_mod, lemma_fundamental_div_mod_converse};
use vstd::arithmetic::power::{lemma_pow_adds, lemma_pow_increases, lemma_pow_positive, pow};
use vstd::prelude::*;

verus! {

/// The powers of 256 at each integer width the wire format uses.
pub proof fn lemma_pow256_vals()
    ensures
        pow(256, 0) == 1,
        pow(256, 1) == 256,
        pow(256, 2) == 0x1_0000,
        pow(256, 4) == 0x1_0000_0000,
        pow(256, 8) == 0x1_0000_0000_0000_0000,
        pow(256, 16) == 0x1_0000_0000_0000_0000_0000_0000_0000_0000,
{
    reveal_with_fuel(vstd::arithmetic::power::pow, 17);
}

/// The `n`-byte big-endian encoding of `x` (low digits last); only the
/// lowest `n` base-256 digits of `x` are kept.
pub open spec fn be_bytes(x: nat, n: nat) -> Seq<u8>
    decreases n,
{
    if n == 0 {
        Seq::empty()
    } else {
        be_bytes(x / 256, (n - 1) as nat) + seq![(x % 256) as u8]
    }
}

/// The integer denoted by the big-endian byte string `s`.
pub open spec fn be_value(s: Seq<u8>) -> nat
    decreases s.len(),
{
    if s.len() == 0 {
        0
    } else {
        be_value(s.drop_last()) * 256 + (s.last() as nat)
    }
}

pub proof fn lemma_be_bytes_len(x: nat, n: nat)
    ensures
        be_bytes(x, n).len() == n,
    decreases n,
{
    if n > 0 {
        lemma_be_bytes_len(x / 256, (n - 1) as nat);
    }
}

pub proof fn lemma_be_value_bound(s: Seq<u8>)
    ensures
        be_value(s) < pow(256, s.len()),
    decreases s.len(),
{
    lemma_pow_positive(256, s.len());
    if s.len() > 0 {
        lemma_be_value_bound(s.drop_last());
        lemma_pow_adds(256, (s.len() - 1) as nat, 1);
        lemma_pow256_vals();
        assert(be_value(s.drop_last()) * 256 + s.last() < pow(256, (s.len() - 1) as nat) * 256)
            by (nonlinear_arith)
            requires
                be_value(s.drop_last()) < pow(256, (s.len() - 1) as nat),
                s.last() < 256,
        ;
    }
}

/// Decoding inverts encoding: the value of the `n`-byte encoding of `x` is
/// `x` itself, whenever `x` fits in `n` bytes.
pub proof fn lemma_be_value_of_be_bytes(x: nat, n: nat)
    requires
        x < pow(256, n),
    ensures
        be_value(be_bytes(x, n)) == x,
    decreases n,
{
    if n == 0 {
        lemma_pow256_vals();
    } else {
        let s = be_bytes(x, n);
        lemma_be_bytes_len(x / 256, (n - 1) as nat);
        assert(s.drop_last() =~= be_bytes(x / 256, (n - 1) as nat));
        lemma_pow_adds(256, (n - 1) as nat, 1);
        lemma_pow256_vals();
        lemma_pow_positive(256, (n - 1) as nat);
        assert(x / 256 < pow(256, (n - 1) as nat)) by (nonlinear_arith)
            requires
                x < pow(256, (n - 1) as nat) * 256,
                pow(256, (n - 1) as nat) > 0,
        ;
        lemma_be_value_of_be_bytes(x / 256, (n - 1) as nat);
        lemma_fundamental_div_mod(x as int, 256);
    }
}

/// Encoding inverts decoding: re-encoding the value of a byte string over
/// its own length gives the byte string back.
pub proof fn lemma_be_bytes_of_be_value(s: Seq<u8>)
    ensures
        be_bytes(be_value(s), s.len()) == s,
    decreases s.len(),
{
    if s.len() > 0 {
        let v = be_value(s) as int;
        let hi = be_value(s.drop_last()) as int;
        let lo = s.last() as int;
        lemma_fundamental_div_mod_converse(v, 256, hi, lo);
        lemma_be_bytes_of_be_value(s.drop_last());
        assert(be_bytes(be_value(s), s.len()) =~= s);
    }
}

/// Reads the big-endian value of up to 16 bytes.
pub fn be_read(bytes: &[u8]) -> (v: u128)
    requires
        bytes@.len() <= 16,
    ensures
        v as nat == be_value(bytes@),
{
    let n = bytes.len();
    let mut v: u128 = 0;
    let mut i: usize = 0;
    proof {
        assert(bytes@.take(0) =~= Seq::<u8>::empty());
        lemma_pow_positive(256, 0);
    }
    while i < n
        invariant
            i <= n,
            n == bytes@.len() <= 16,
            v as nat == be_value(bytes@.take(i as int)),
            v < pow(256, i as nat),
        decreases n - i,
    {
        proof {
            assert(bytes@.take(i + 1).drop_last() =~= bytes@.take(i as int));
            assert(bytes@.take(i + 1).last() == bytes@[i as int]);
            lemma_pow256_vals();
            lemma_pow_adds(256, i as nat, 1);
            assert(v * 256 + 255 < pow(256, (i + 1) as nat)) by (nonlinear_arith)
                requires
                    v < pow(256, i as nat),
                    pow(256, (i + 1) as nat) == pow(256, i as nat) * pow(256, 1),
                    pow(256, 1) == 256,
            ;
            lemma_pow_increases(256, (i + 1) as nat, 16);
        }
        v = v * 256 + bytes[i] as u128;
        i = i + 1;
    }
    proof {
        assert(bytes@.take(n as int) =~= bytes@);
    }
    v
}

/// Appends the `n`-byte big-endian encoding of `x` to `out`.
pub fn be_write(out: &mut Vec<u8>, x: u128, n: usize)
    ensures
        final(out)@ == old(out)@ + be_bytes(x as nat, n as nat),
    decreases n,
{
    if n == 0 {
        proof {
            assert(old(out)@ + be_bytes(x as nat, 0) =~= old(out)@);
        }
    } else {
        be_write(out, x / 256, n - 1);
        out.push((x % 256) as u8);
        proof {
            assert(out@ =~= old(out)@ + be_bytes(x as nat, n as nat));
        }
    }
}

} // verus!
