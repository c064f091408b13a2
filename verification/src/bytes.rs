use vstd::prelude::*;

verus! {

/// `256^n`.
pub open spec fn pow256(n: nat) -> nat
    decreases n,
{
    if n == 0 {
        1
    } else {
        256 * pow256((n - 1) as nat)
    }
}

/// The `n` low bytes of `x`, least significant first.
pub open spec fn le_bytes(x: nat, n: nat) -> Seq<u8>
    decreases n,
{
    if n == 0 {
        Seq::empty()
    } else {
        seq![(x % 256) as u8] + le_bytes(x / 256, (n - 1) as nat)
    }
}

/// The number whose little-endian bytes are `s`.
pub open spec fn le_value(s: Seq<u8>) -> nat
    decreases s.len(),
{
    if s.len() == 0 {
        0
    } else {
        s[0] as nat + 256 * le_value(s.drop_first())
    }
}

/// `le_bytes(x, n)` has `n` bytes.
pub proof fn lemma_le_bytes_len(x: nat, n: nat)
    ensures
        le_bytes(x, n).len() == n,
    decreases n,
{
    if n > 0 {
        lemma_le_bytes_len(x / 256, (n - 1) as nat);
    }
}

/// A value read from `n` bytes is below `256^n`.
pub proof fn lemma_le_value_bound(s: Seq<u8>)
    ensures
        le_value(s) < pow256(s.len()),
    decreases s.len(),
{
    if s.len() > 0 {
        lemma_le_value_bound(s.drop_first());
        let v = le_value(s.drop_first());
        let p = pow256((s.len() - 1) as nat);
        assert(s[0] as nat + 256 * v < 256 * p) by (nonlinear_arith)
            requires v < p, s[0] < 256;
    }
}

/// Reading back the `n` bytes written for `x` gives `x`, when `x` fits in `n` bytes.
pub proof fn lemma_le_roundtrip(x: nat, n: nat)
    requires
        x < pow256(n),
    ensures
        le_value(le_bytes(x, n)) == x,
    decreases n,
{
    lemma_le_bytes_len(x, n);
    if n == 0 {
    } else {
        let q = x / 256;
        let p = pow256((n - 1) as nat);
        assert(q < p) by (nonlinear_arith)
            requires x < 256 * p, q == x / 256;
        lemma_le_roundtrip(q, (n - 1) as nat);
        let b = le_bytes(x, n);
        assert(b.drop_first() =~= le_bytes(q, (n - 1) as nat));
        assert(x == x % 256 + 256 * q) by (nonlinear_arith)
            requires q == x / 256;
    }
}

/// The values of the fixed widths used on the wire.
pub proof fn lemma_pow256_values()
    ensures
        pow256(1) == 0x100,
        pow256(2) == 0x1_0000,
        pow256(4) == 0x1_0000_0000,
        pow256(8) == 0x1_0000_0000_0000_0000,
{
    reveal_with_fuel(pow256, 9);
}

/// Appends the `n` low bytes of `x` to `out`, least significant first.
pub fn push_le(out: &mut Vec<u8>, x: u64, n: usize)
    ensures
        final(out)@ == old(out)@ + le_bytes(x as nat, n as nat),
{
    let ghost start = old(out)@;
    let mut cur: u64 = x;
    let mut i: usize = 0;
    while i < n
        invariant
            i <= n,
            start + le_bytes(x as nat, n as nat) == out@ + le_bytes(cur as nat, (n - i) as nat),
        decreases n - i,
    {
        let ghost before = out@;
        let ghost rest = le_bytes(cur as nat, (n - i) as nat);
        out.push((cur % 256) as u8);
        proof {
            assert(rest == seq![(cur % 256) as u8] + le_bytes((cur / 256) as nat, (n - i - 1) as nat));
            assert(before + rest =~= out@ + le_bytes((cur / 256) as nat, (n - i - 1) as nat));
        }
        cur = cur / 256;
        i = i + 1;
    }
    proof {
        assert(out@ + le_bytes(cur as nat, 0) =~= out@);
    }
}

/// The little-endian number held by `data[start..start + n]`.
pub fn read_le(data: &[u8], start: usize, n: usize) -> (r: u64)
    requires
        n <= 8,
        start + n <= data@.len(),
    ensures
        r as nat == le_value(data@.subrange(start as int, start + n)),
{
    let len = data.len();
    let mut val: u64 = 0;
    let mut k: usize = n;
    proof {
        assert(data@.subrange(start + n, start + n as int).len() == 0);
    }
    while k > 0
        invariant
            k <= n <= 8,
            len == data@.len(),
            start + n <= data@.len(),
            val as nat == le_value(data@.subrange(start + k, start + n)),
        decreases k,
    {
        let ghost tail = data@.subrange(start + k, start + n);
        k = k - 1;
        let b = data[start + k];
        let ghost s = data@.subrange(start + k, start + n);
        proof {
            assert(s.drop_first() =~= tail);
            lemma_le_value_bound(tail);
            lemma_pow256_values();
            assert(pow256(tail.len()) <= pow256(7)) by {
                lemma_pow256_mono(tail.len(), 7);
            }
            reveal_with_fuel(pow256, 8);
            assert(val as nat * 256 + b < 0x1_0000_0000_0000_0000) by (nonlinear_arith)
                requires val < 0x100_0000_0000_0000, b < 256;
        }
        val = val * 256 + b as u64;
    }
    proof {
        assert(data@.subrange(start as int, start + n) =~= data@.subrange(start + 0, start + n));
    }
    val
}

proof fn lemma_pow256_mono(a: nat, b: nat)
    requires
        a <= b,
    ensures
        pow256(a) <= pow256(b),
    decreases b,
{
    if a < b {
        lemma_pow256_mono(a, (b - 1) as nat);
    }
}

} // verus!
