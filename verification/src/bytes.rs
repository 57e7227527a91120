//! Big-endian encodings of unsigned integers.

use vstd::arithmetic::power::pow;
use vstd::prelude::*;

verus! {

/// The number that `s` denotes when read big-endian.
pub open spec fn be_value(s: Seq<u8>) -> nat
    decreases s.len(),
{
    if s.len() == 0 {
        0
    } else {
        be_value(s.drop_last()) * 256 + s.last() as nat
    }
}

/// The `n` low-order base-256 digits of `v`, most significant first.
pub open spec fn be_bytes(v: nat, n: nat) -> Seq<u8>
    decreases n,
{
    if n == 0 {
        Seq::empty()
    } else {
        be_bytes(v / 256, (n - 1) as nat).push((v % 256) as u8)
    }
}

/// The number of values that `n` bytes can hold.
pub open spec fn span(n: nat) -> nat
    decreases n,
{
    if n == 0 {
        1
    } else {
        256 * span((n - 1) as nat)
    }
}

/// `n` bytes denote a number below `span(n)`.
pub proof fn lemma_be_value_bound(s: Seq<u8>)
    ensures
        be_value(s) < span(s.len()),
    decreases s.len(),
{
    if s.len() > 0 {
        lemma_be_value_bound(s.drop_last());
    }
}

/// The digits written are as many as asked for.
pub proof fn lemma_be_bytes_len(v: nat, n: nat)
    ensures
        be_bytes(v, n).len() == n,
    decreases n,
{
    if n > 0 {
        lemma_be_bytes_len(v / 256, (n - 1) as nat);
    }
}

/// Reading back the digits of a number that fits gives the number.
pub proof fn lemma_be_value_of_bytes(v: nat, n: nat)
    requires
        v < span(n),
    ensures
        be_value(be_bytes(v, n)) == v,
    decreases n,
{
    if n > 0 {
        let hi = be_bytes(v / 256, (n - 1) as nat);
        lemma_be_value_of_bytes(v / 256, (n - 1) as nat);
        assert(be_bytes(v, n).drop_last() =~= hi);
    }
}

/// The value of a concatenation.
pub proof fn lemma_be_value_concat(a: Seq<u8>, b: Seq<u8>)
    ensures
        be_value(a + b) == be_value(a) * span(b.len()) + be_value(b),
    decreases b.len(),
{
    if b.len() == 0 {
        assert(a + b =~= a);
        assert(be_value(a) * span(0) == be_value(a)) by (nonlinear_arith)
            requires
                span(0) == 1,
        ;
    } else {
        lemma_be_value_concat(a, b.drop_last());
        assert((a + b).drop_last() =~= a + b.drop_last());
        assert((a + b).last() == b.last());
        let x = be_value(a);
        let y = span((b.len() - 1) as nat);
        assert(x * span(b.len()) == (x * y) * 256) by (nonlinear_arith)
            requires
                span(b.len()) == 256 * y,
        ;
        assert(be_value(a + b) == (x * y + be_value(b.drop_last())) * 256 + b.last() as nat);
    }
}

/// Reads `n` bytes from `start` on as one big-endian number.
pub fn read_be(bytes: &[u8], start: usize, n: usize) -> (v: u128)
    requires
        start + n <= bytes@.len(),
        n <= 16,
    ensures
        v == be_value(bytes@.subrange(start as int, start + n)),
{
    let total: usize = bytes.len();
    let mut v: u128 = 0;
    let mut i: usize = 0;
    assert(bytes@.subrange(start as int, start as int) =~= Seq::<u8>::empty());
    while i < n
        invariant
            i <= n,
            n <= 16,
            total == bytes@.len(),
            start + n <= total,
            v == be_value(bytes@.subrange(start as int, start + i)),
        decreases n - i,
    {
        let ghost read = bytes@.subrange(start as int, start + i);
        let ghost next = bytes@.subrange(start as int, start + i + 1);
        proof {
            assert(next.drop_last() =~= read);
            lemma_be_value_bound(next);
            lemma_span_fits(next.len());
        }
        v = v * 256 + bytes[start + i] as u128;
        i = i + 1;
    }
    v
}

/// What the widths in use hold.
pub proof fn lemma_spans()
    ensures
        span(4) == 0x1_0000_0000,
        span(8) == 0x1_0000_0000_0000_0000,
        span(16) == u128::MAX + 1,
{
    reveal_with_fuel(span, 17);
}

/// Up to 16 bytes fit in a `u128`.
pub proof fn lemma_span_fits(n: nat)
    requires
        n <= 16,
    ensures
        span(n) <= u128::MAX + 1,
    decreases 16 - n,
{
    if n < 16 {
        lemma_span_fits(n + 1);
    } else {
        lemma_spans();
    }
}

/// Appends the `n` low-order big-endian bytes of `v`.
pub fn put_be(out: &mut Vec<u8>, v: u128, n: usize)
    ensures
        final(out)@ == old(out)@ + be_bytes(v as nat, n as nat),
{
    let base: usize = out.len();
    let mut i: usize = 0;
    while i < n
        invariant
            i <= n,
            base == old(out)@.len(),
            out@.len() == base + i,
            out@.take(base as int) == old(out)@,
        decreases n - i,
    {
        out.push(0);
        assert(out@.take(base as int) =~= old(out)@);
        i = i + 1;
    }
    let total: usize = out.len();
    let mut rest: u128 = v;
    assert(out@.skip(base + n) =~= Seq::<u8>::empty());
    assert(be_bytes(v as nat, n as nat) + out@.skip(base + n) =~= be_bytes(v as nat, n as nat));
    while i > 0
        invariant
            i <= n,
            base == old(out)@.len(),
            out@.len() == total,
            total == base + n,
            out@.take(base as int) == old(out)@,
            be_bytes(v as nat, n as nat) == be_bytes(rest as nat, i as nat) + out@.skip(base + i),
        decreases i,
    {
        let ghost before = out@;
        let ghost r = rest;
        i = i - 1;
        out.set(base + i, (rest % 256) as u8);
        rest = rest / 256;
        proof {
            assert(out@.take(base as int) =~= before.take(base as int));
            assert(out@.skip(base + i) =~= seq![(r % 256) as u8] + before.skip(base + i + 1));
            assert(be_bytes(rest as nat, i as nat) + out@.skip(base + i) =~= be_bytes(
                r as nat,
                (i + 1) as nat,
            ) + before.skip(base + i + 1));
        }
    }
    assert(out@ =~= out@.take(base as int) + out@.skip(base as int));
}

/// Bytes denote a number digit by digit: no bytes denote 0, and one byte more
/// multiplies by 256 and adds the byte.
pub proof fn law_value_grows_by_a_digit(s: Seq<u8>, byte: u8)
    ensures
        be_value(Seq::empty()) == 0,
        be_value(s.push(byte)) == 256 * be_value(s) + byte,
{
    assert(s.push(byte).drop_last() =~= s);
}

/// As many bytes as asked for are written, and they denote the number, but for
/// what does not fit in them.
pub proof fn law_bytes_denote_the_number(v: nat, n: nat)
    ensures
        be_bytes(v, n).len() == n,
        be_value(be_bytes(v, n)) == v as int % pow(256, n),
    decreases n,
{
    lemma_be_bytes_len(v, n);
    if n == 0 {
        vstd::arithmetic::power::lemma_pow0(256);
        assert(v as int % 1 == 0);
    } else {
        let m = (n - 1) as nat;
        law_bytes_denote_the_number(v / 256, m);
        let hi = be_bytes(v / 256, m);
        assert(be_bytes(v, n).drop_last() =~= hi);
        vstd::arithmetic::power::lemma_pow_adds(256, 1, m);
        vstd::arithmetic::power::lemma_pow1(256);
        vstd::arithmetic::power::lemma_pow_positive(256, m);
        vstd::arithmetic::div_mod::lemma_mod_breakdown(v as int, 256, pow(256, m));
    }
}

/// Different byte strings of one length denote different numbers.
pub proof fn law_value_tells_bytes_apart(a: Seq<u8>, b: Seq<u8>)
    requires
        a.len() == b.len(),
        be_value(a) == be_value(b),
    ensures
        a == b,
    decreases a.len(),
{
    if a.len() > 0 {
        law_value_tells_bytes_apart(a.drop_last(), b.drop_last());
        assert(a =~= a.drop_last().push(a.last()));
        assert(b =~= b.drop_last().push(b.last()));
    } else {
        assert(a =~= b);
    }
}

} // verus!
