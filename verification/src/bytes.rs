//! Whole numbers as little-endian bytes.
use vstd::prelude::*;

verus! {

/// The `n` lowest bytes of `x`, the lowest first.
pub open spec fn le(x: nat, n: nat) -> Seq<u8>
    decreases n,
{
    if n == 0 {
        Seq::empty()
    } else {
        seq![(x % 256) as u8] + le(x / 256, (n - 1) as nat)
    }
}

/// The number whose bytes, the lowest first, are `s`.
pub open spec fn from_le(s: Seq<u8>) -> nat
    decreases s.len(),
{
    if s.len() == 0 {
        0
    } else {
        s[0] as nat + 256 * from_le(s.drop_first())
    }
}

/// 256 to the power of `n`.
pub open spec fn byte_limit(n: nat) -> nat
    decreases n,
{
    if n == 0 {
        1
    } else {
        256 * byte_limit((n - 1) as nat)
    }
}

pub proof fn lemma_byte_limits()
    ensures
        byte_limit(4) == 0x1_0000_0000,
        byte_limit(8) == 0x1_0000_0000_0000_0000,
{
    reveal_with_fuel(byte_limit, 9);
}

pub proof fn lemma_le_len(x: nat, n: nat)
    ensures
        le(x, n).len() == n,
    decreases n,
{
    if n > 0 {
        lemma_le_len(x / 256, (n - 1) as nat);
    }
}

/// Reading what was written gives the number back.
pub proof fn lemma_le_round_trip(x: nat, n: nat)
    requires
        x < byte_limit(n),
    ensures
        from_le(le(x, n)) == x,
    decreases n,
{
    if n > 0 {
        let rest = le(x / 256, (n - 1) as nat);
        assert(x / 256 < byte_limit((n - 1) as nat)) by {
            assert(byte_limit(n) == 256 * byte_limit((n - 1) as nat));
        }
        lemma_le_round_trip(x / 256, (n - 1) as nat);
        assert(le(x, n).drop_first() =~= rest);
    }
}

pub proof fn lemma_from_le_bound(s: Seq<u8>)
    ensures
        from_le(s) < byte_limit(s.len()),
    decreases s.len(),
{
    if s.len() > 0 {
        lemma_from_le_bound(s.drop_first());
    }
}

/// The largest number of its length is the one whose bytes are all 255.
pub proof fn lemma_largest(s: Seq<u8>)
    ensures
        from_le(s) == byte_limit(s.len()) - 1 <==> forall|i: int|
            0 <= i < s.len() ==> #[trigger] s[i] == 0xff,
    decreases s.len(),
{
    if s.len() > 0 {
        let rest = s.drop_first();
        lemma_largest(rest);
        lemma_from_le_bound(rest);
        assert forall|i: int| 0 <= i < rest.len() implies rest[i] == s[i + 1] by {}
        if from_le(s) == byte_limit(s.len()) - 1 {
            assert(s[0] == 0xff && from_le(rest) == byte_limit(rest.len()) - 1);
            assert forall|i: int| 0 <= i < s.len() implies #[trigger] s[i] == 0xff by {
                if i > 0 {
                    assert(rest[i - 1] == s[i]);
                }
            }
        }
    }
}

/// Appends the lowest `n` bytes of `x`.
fn push_le(out: &mut Vec<u8>, x: u64, n: usize)
    ensures
        final(out)@ == old(out)@ + le(x as nat, n as nat),
{
    let mut rest = x;
    let mut i: usize = 0;
    let ghost start = out@;
    let ghost all = le(x as nat, n as nat);
    assert(out@ + le(rest as nat, n as nat) =~= start + all);
    while i < n
        invariant
            i <= n,
            out@ + le(rest as nat, (n - i) as nat) == start + all,
        decreases n - i,
    {
        let ghost before = out@;
        let b = (rest % 256) as u8;
        out.push(b);
        assert(le(rest as nat, (n - i) as nat) == seq![b] + le(
            (rest / 256) as nat,
            (n - i - 1) as nat,
        ));
        assert(before + (seq![b] + le((rest / 256) as nat, (n - i - 1) as nat)) =~= out@ + le(
            (rest / 256) as nat,
            (n - i - 1) as nat,
        ));
        rest = rest / 256;
        i = i + 1;
    }
    assert(out@ =~= out@ + le(rest as nat, 0));
}

/// Appends `x` as eight bytes.
pub fn push_u64(out: &mut Vec<u8>, x: u64)
    ensures
        final(out)@ == old(out)@ + le(x as nat, 8),
{
    push_le(out, x, 8)
}

/// Appends `x` as four bytes.
pub fn push_u32(out: &mut Vec<u8>, x: u32)
    ensures
        final(out)@ == old(out)@ + le(x as nat, 4),
{
    push_le(out, x as u64, 4)
}

/// The four bytes at `i` as a number.
pub open spec fn u32_at(b: Seq<u8>, i: int) -> u32 {
    from_le(b.subrange(i, i + 4)) as u32
}

/// The eight bytes at `i` as a number.
pub open spec fn u64_at(b: Seq<u8>, i: int) -> u64 {
    from_le(b.subrange(i, i + 8)) as u64
}

fn read_le(b: &[u8], i: usize, n: usize) -> (r: u64)
    requires
        i + n <= b@.len(),
        n <= 8,
    ensures
        r == from_le(b@.subrange(i as int, i + n)),
{
    assert(b.len() == b@.len());
    let mut r: u64 = 0;
    let mut k: usize = n;
    let ghost end = i + n;
    while k > 0
        invariant
            k <= n <= 8,
            i + n <= b@.len(),
            b@.len() <= usize::MAX,
            end == i + n,
            r == from_le(b@.subrange(i + k, end)),
        decreases k,
    {
        let ghost tail = b@.subrange(i + k, end);
        let ghost more = b@.subrange(i + k - 1, end);
        proof {
            assert(more.drop_first() =~= tail);
            lemma_from_le_bound(more);
            lemma_byte_limits();
            lemma_byte_limit_mono(more.len(), 8);
        }
        k = k - 1;
        r = (b[i + k] as u64) + 256 * r;
    }
    r
}

proof fn lemma_byte_limit_mono(a: nat, b: nat)
    requires
        a <= b,
    ensures
        byte_limit(a) <= byte_limit(b),
        byte_limit(a) > 0,
    decreases b,
{
    if a < b {
        lemma_byte_limit_mono(a, (b - 1) as nat);
    } else if a > 0 {
        lemma_byte_limit_mono((a - 1) as nat, (b - 1) as nat);
    }
}

/// `u32_at`.
pub fn read_u32(b: &[u8], i: usize) -> (r: u32)
    requires
        i + 4 <= b@.len(),
    ensures
        r == u32_at(b@, i as int),
        r as nat == from_le(b@.subrange(i as int, i + 4)),
{
    proof {
        lemma_from_le_bound(b@.subrange(i as int, i + 4));
        lemma_byte_limits();
    }
    read_le(b, i, 4) as u32
}

/// `u64_at`.
pub fn read_u64(b: &[u8], i: usize) -> (r: u64)
    requires
        i + 8 <= b@.len(),
    ensures
        r == u64_at(b@, i as int),
        r as nat == from_le(b@.subrange(i as int, i + 8)),
{
    proof {
        lemma_from_le_bound(b@.subrange(i as int, i + 8));
        lemma_byte_limits();
    }
    read_le(b, i, 8)
}

/// Byte `i` of a number is its digit of weight 256 to the power of `i`.
pub proof fn lemma_le_digits(x: nat, n: nat, i: nat)
    requires
        i < n,
    ensures
        le(x, n).len() == n,
        le(x, n)[i as int] == (x / byte_limit(i)) % 256,
    decreases n,
{
    lemma_le_len(x, n);
    lemma_le_len(x / 256, (n - 1) as nat);
    if i == 0 {
        assert(byte_limit(0) == 1);
        assert(x / 1 == x);
    } else {
        lemma_le_digits(x / 256, (n - 1) as nat, (i - 1) as nat);
        lemma_byte_limit_mono((i - 1) as nat, i);
        vstd::arithmetic::div_mod::lemma_div_denominator(
            x as int,
            256,
            byte_limit((i - 1) as nat) as int,
        );
        assert(le(x, n)[i as int] == le(x / 256, (n - 1) as nat)[i - 1]);
    }
}

} // verus!
