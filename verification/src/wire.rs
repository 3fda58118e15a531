//! Big-endian integer encoding used by every header on the wire.
use vstd::prelude::*;

verus! {

/// `256^n`.
pub open spec fn byte_pow(n: nat) -> nat
    decreases n,
{
    if n == 0 {
        1
    } else {
        256 * byte_pow((n - 1) as nat)
    }
}

/// The `n` low-order bytes of `x`, most significant first.
pub open spec fn be_bytes(x: nat, n: nat) -> Seq<u8>
    decreases n,
{
    if n == 0 {
        Seq::empty()
    } else {
        be_bytes(x / 256, (n - 1) as nat).push((x % 256) as u8)
    }
}

/// The number that a big-endian byte sequence denotes.
pub open spec fn be_value(s: Seq<u8>) -> nat
    decreases s.len(),
{
    if s.len() == 0 {
        0
    } else {
        be_value(s.drop_last()) * 256 + s.last() as nat
    }
}

pub proof fn lemma_byte_pow_positive(n: nat)
    ensures
        byte_pow(n) > 0,
    decreases n,
{
    if n > 0 {
        lemma_byte_pow_positive((n - 1) as nat);
    }
}

pub proof fn lemma_be_bytes_len(x: nat, n: nat)
    ensures
        be_bytes(x, n).len() == n,
    decreases n,
{
    if n > 0 {
        lemma_be_bytes_len(x / 256, (n - 1) as nat);
    }
}

/// Decoding the `n` bytes of `x` gives `x` modulo `256^n`.
pub proof fn lemma_be_value_of_bytes(x: nat, n: nat)
    ensures
        be_value(be_bytes(x, n)) == x % byte_pow(n),
    decreases n,
{
    if n == 0 {
        assert(be_bytes(x, 0) =~= Seq::<u8>::empty());
    } else {
        let p = byte_pow((n - 1) as nat);
        lemma_byte_pow_positive((n - 1) as nat);
        lemma_be_value_of_bytes(x / 256, (n - 1) as nat);
        let s = be_bytes(x, n);
        assert(s.drop_last() =~= be_bytes(x / 256, (n - 1) as nat));
        assert(s.last() == (x % 256) as u8);
        vstd::arithmetic::div_mod::lemma_mod_breakdown(x as int, 256, p as int);
        assert(x % byte_pow(n) == 256 * ((x / 256) % p) + x % 256);
        assert(be_value(s) == be_value(s.drop_last()) * 256 + s.last() as nat);
    }
}

/// A big-endian value always fits in as many bytes as it was read from.
pub proof fn lemma_be_value_bound(s: Seq<u8>)
    ensures
        be_value(s) < byte_pow(s.len()),
    decreases s.len(),
{
    if s.len() > 0 {
        lemma_be_value_bound(s.drop_last());
        assert(be_value(s.drop_last()) * 256 + 256 <= byte_pow((s.len() - 1) as nat) * 256)
            by (nonlinear_arith)
            requires
                be_value(s.drop_last()) < byte_pow((s.len() - 1) as nat),
        ;
    }
}

/// Encoding the value of a byte sequence gives the sequence back.
pub proof fn lemma_be_bytes_of_value(s: Seq<u8>)
    ensures
        be_bytes(be_value(s), s.len()) == s,
    decreases s.len(),
{
    if s.len() == 0 {
        assert(be_bytes(be_value(s), 0) =~= s);
    } else {
        let v = be_value(s);
        let q = be_value(s.drop_last());
        let r = s.last() as nat;
        assert(v == q * 256 + r);
        vstd::arithmetic::div_mod::lemma_fundamental_div_mod_converse(v as int, 256, q as int, r as int);
        lemma_be_bytes_of_value(s.drop_last());
        assert(be_bytes(v, s.len()) =~= s);
    }
}

/// Appends the `n` low-order bytes of `x` to `out`, most significant first.
pub fn push_be(out: &mut Vec<u8>, x: u128, n: usize)
    ensures
        final(out)@ == old(out)@ + be_bytes(x as nat, n as nat),
    decreases n,
{
    if n > 0 {
        push_be(out, x / 256, n - 1);
        out.push((x % 256) as u8);
        proof {
            assert(be_bytes(x as nat, n as nat) == be_bytes((x / 256) as nat, (n - 1) as nat).push(
                (x % 256) as u8,
            ));
        }
    }
}

/// Reads the big-endian number held in `bytes[start..start + n]`.
pub fn read_be(bytes: &[u8], start: usize, n: usize) -> (v: u128)
    requires
        start + n <= bytes@.len(),
        n <= 16,
    ensures
        v as nat == be_value(bytes@.subrange(start as int, start + n)),
{
    let len = bytes.len();
    let mut acc: u128 = 0;
    let mut i: usize = 0;
    while i < n
        invariant
            i <= n <= 16,
            len == bytes@.len(),
            start + n <= bytes@.len(),
            acc as nat == be_value(bytes@.subrange(start as int, start + i)),
        decreases n - i,
    {
        proof {
            lemma_be_value_bound(bytes@.subrange(start as int, start + i));
            lemma_byte_pow_mono(i as nat, 15);
            lemma_byte_pow_15();
        }
        let b = bytes[start + i];
        acc = acc * 256 + b as u128;
        proof {
            let s = bytes@.subrange(start as int, start + i + 1);
            assert(s.drop_last() =~= bytes@.subrange(start as int, start + i));
        }
        i = i + 1;
    }
    acc
}

proof fn lemma_byte_pow_15()
    ensures
        byte_pow(15) * 256 == u128::MAX + 1,
{
    reveal_with_fuel(byte_pow, 16);
}

pub proof fn lemma_byte_pow_mono(a: nat, b: nat)
    requires
        a <= b,
    ensures
        byte_pow(a) <= byte_pow(b),
    decreases b,
{
    if a < b {
        lemma_byte_pow_mono(a, (b - 1) as nat);
    }
}

/// Reduction modulo 2^32, the wrap-around of a `u32` sum.
pub open spec fn wrap32(x: nat) -> nat {
    x % 0x1_0000_0000
}

/// The sum of the bytes of a sequence.
pub open spec fn byte_sum(s: Seq<u8>) -> nat
    decreases s.len(),
{
    if s.len() == 0 {
        0
    } else {
        byte_sum(s.drop_last()) + s.last() as nat
    }
}

/// The sum of a prefix never exceeds the sum of the whole.
pub proof fn lemma_byte_sum_prefix(s: Seq<u8>, i: int)
    requires
        0 <= i <= s.len(),
    ensures
        byte_sum(s.subrange(0, i)) <= byte_sum(s),
    decreases s.len() - i,
{
    if i < s.len() {
        lemma_byte_sum_prefix(s, i + 1);
        assert(s.subrange(0, i + 1).drop_last() =~= s.subrange(0, i));
    } else {
        assert(s.subrange(0, i) =~= s);
    }
}

/// Adding to a wrapped sum wraps the plain sum.
pub proof fn lemma_wrap_add(acc: nat, y: nat)
    requires
        y < 0x1_0000_0000,
    ensures
        wrap32(wrap32(acc) + y) == wrap32(acc + y),
{
    vstd::arithmetic::div_mod::lemma_add_mod_noop(acc as int, y as int, 0x1_0000_0000);
    vstd::arithmetic::div_mod::lemma_small_mod(y, 0x1_0000_0000);
}

/// `a.wrapping_add(b)` where `a` already holds a wrapped sum.
pub fn wrapping_accumulate(acc: u32, y: u32, Ghost(total): Ghost<nat>) -> (res: u32)
    requires
        acc == wrap32(total),
    ensures
        res == wrap32(total + y as nat),
{
    proof {
        lemma_wrap_add(total, y as nat);
    }
    acc.wrapping_add(y)
}

} // verus!
