//! Little-endian numbers in byte sequences.

use vstd::prelude::*;

verus! {

/// How many numbers `n` bytes can hold.
pub open spec fn span_of(n: nat) -> int
    decreases n,
{
    if n == 0 {
        1
    } else {
        256 * span_of((n - 1) as nat)
    }
}

/// The low `n` bytes of a number, least first.
pub open spec fn le(v: int, n: nat) -> Seq<u8>
    decreases n,
{
    if n == 0 {
        Seq::empty()
    } else {
        seq![(v % 256) as u8] + le(v / 256, (n - 1) as nat)
    }
}

/// The number that bytes stand for, least first.
pub open spec fn number(s: Seq<u8>) -> int
    decreases s.len(),
{
    if s.len() == 0 {
        0
    } else {
        s[0] + 256 * number(s.drop_first())
    }
}

/// The number in `n` bytes from a place on.
pub open spec fn number_at(bytes: Seq<u8>, pos: int, n: int) -> int {
    number(bytes.subrange(pos, pos + n))
}

/// Bytes written and read give back the number, where it fits.
pub proof fn le_reads_back(v: int, n: nat)
    requires
        0 <= v < span_of(n),
    ensures
        le(v, n).len() == n,
        number(le(v, n)) == v,
    decreases n,
{
    if n > 0 {
        let m = (n - 1) as nat;
        assert(0 <= v / 256 < span_of(m)) by (nonlinear_arith)
            requires
                0 <= v < 256 * span_of(m),
        ;
        le_reads_back(v / 256, m);
        assert(le(v, n).drop_first() =~= le(v / 256, m));
    }
}

pub proof fn le_len(v: int, n: nat)
    ensures
        le(v, n).len() == n,
    decreases n,
{
    if n > 0 {
        le_len(v / 256, (n - 1) as nat);
    }
}

pub proof fn number_bound(s: Seq<u8>)
    ensures
        0 <= number(s) < span_of(s.len()),
    decreases s.len(),
{
    if s.len() > 0 {
        number_bound(s.drop_first());
    }
}

pub proof fn spans()
    ensures
        span_of(1) == 0x100,
        span_of(2) == 0x1_0000,
        span_of(4) == 0x1_0000_0000,
        span_of(8) == 0x1_0000_0000_0000_0000,
{
    reveal_with_fuel(span_of, 9);
}

/// Append the low `n` bytes of a number.
pub fn push_le(out: &mut Vec<u8>, v: u64, n: usize)
    requires
        n <= 8,
    ensures
        final(out)@ == old(out)@ + le(v as int, n as nat),
{
    let ghost start = out@;
    let mut rest: u64 = v;
    let mut left: usize = n;
    assert(out@ =~= start + Seq::<u8>::empty());
    let ghost mut done: Seq<u8> = Seq::empty();
    assert(done + le(rest as int, left as nat) =~= le(v as int, n as nat));
    while left > 0
        invariant
            left <= n,
            out@ == start + done,
            done + le(rest as int, left as nat) == le(v as int, n as nat),
        decreases left,
    {
        let b: u8 = (rest % 256) as u8;
        proof {
            let tail = le(rest as int / 256, (left - 1) as nat);
            assert(le(rest as int, left as nat) == seq![b] + tail);
            assert(done + (seq![b] + tail) =~= done.push(b) + tail);
            done = done.push(b);
        }
        out.push(b);
        assert(out@ =~= start + done);
        rest = rest / 256;
        left = left - 1;
    }
    assert(done + le(rest as int, 0) =~= done);
}

/// The number in `n` bytes from a place on.
pub fn read_le(bytes: &Vec<u8>, pos: usize, n: usize) -> (r: u64)
    requires
        n <= 8,
        pos + n <= bytes@.len(),
    ensures
        r as int == number_at(bytes@, pos as int, n as int),
        r < span_of(n as nat),
    decreases n,
{
    let ghost s = bytes@.subrange(pos as int, pos + n);
    let len: usize = bytes.len();
    assert(pos + n <= len);
    proof {
        number_bound(s);
        reveal_with_fuel(span_of, 9);
    }
    if n == 0 {
        0
    } else {
        let rest: u64 = read_le(bytes, pos + 1, n - 1);
        proof {
            assert(s.drop_first() =~= bytes@.subrange(pos + 1, pos + 1 + (n - 1)));
            assert(number(s) == s[0] + 256 * rest);
        }
        bytes[pos] as u64 + 256 * rest
    }
}

/// Reading inside one part of a longer sequence reads that part.
pub proof fn number_in_part(a: Seq<u8>, b: Seq<u8>, c: Seq<u8>, pos: int, n: int)
    requires
        0 <= n,
        0 <= pos,
        pos + n <= b.len(),
    ensures
        number_at(a + b + c, a.len() + pos, n) == number_at(b, pos, n),
{
    assert((a + b + c).subrange(a.len() + pos, a.len() + pos + n) =~= b.subrange(pos, pos + n));
}

/// The least byte of a number comes first, and the others are those of what
/// is left of it.
pub proof fn the_least_byte_comes_first(v: int, n: nat)
    requires
        0 <= v,
        n > 0,
    ensures
        le(v, n).len() == n,
        le(v, n)[0] == v % 256,
        le(v, n).drop_first() == le(v / 256, (n - 1) as nat),
{
    le_len(v, n);
    assert(le(v, n).drop_first() =~= le(v / 256, (n - 1) as nat));
}

} // verus!
