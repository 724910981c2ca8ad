//! Little-endian encoding of unsigned integers, the one number format the
//! on-extent layouts use.

use crate::extent::Extent;
use vstd::arithmetic::div_mod::lemma_div_denominator;
use vstd::prelude::*;

verus! {

/// 256 to the power `n`.
pub open spec fn pow256(n: nat) -> int
    decreases n,
{
    if n == 0 {
        1
    } else {
        256 * pow256((n - 1) as nat)
    }
}

/// The little-endian integer value of the `n` bytes of `s` starting at `off`.
pub open spec fn le_at(s: Seq<u8>, off: int, n: nat) -> int
    decreases n,
{
    if n == 0 {
        0
    } else {
        s[off] + 256 * le_at(s, off + 1, (n - 1) as nat)
    }
}

/// The `n` little-endian bytes of the integer `x`.
pub open spec fn le_bytes(x: int, n: nat) -> Seq<u8> {
    Seq::new(n, |j: int| ((x / pow256(j as nat)) % 256) as u8)
}

pub proof fn lemma_pow256_values()
    ensures
        pow256(4) == 0x1_0000_0000,
        pow256(7) == 0x100_0000_0000_0000,
        pow256(8) == 0x1_0000_0000_0000_0000,
{
    assert(pow256(0) == 1);
    assert(pow256(1) == 256);
    assert(pow256(2) == 0x1_0000);
    assert(pow256(3) == 0x100_0000);
    assert(pow256(4) == 0x1_0000_0000);
    assert(pow256(5) == 0x100_0000_0000);
    assert(pow256(6) == 0x1_0000_0000_0000);
    assert(pow256(7) == 0x100_0000_0000_0000);
    assert(pow256(8) == 0x1_0000_0000_0000_0000);
}

pub proof fn lemma_pow256_pos(n: nat)
    ensures
        pow256(n) >= 1,
    decreases n,
{
    if n > 0 {
        lemma_pow256_pos((n - 1) as nat);
    }
}

pub proof fn lemma_pow256_increases(a: nat, b: nat)
    requires
        a <= b,
    ensures
        pow256(a) <= pow256(b),
    decreases b,
{
    if a < b {
        lemma_pow256_increases(a, (b - 1) as nat);
        lemma_pow256_pos((b - 1) as nat);
    }
}

/// `le_at` only looks at the bytes of the region it decodes.
pub proof fn lemma_le_at_agree(s1: Seq<u8>, s2: Seq<u8>, off: int, n: nat)
    requires
        0 <= off,
        off + n <= s1.len(),
        off + n <= s2.len(),
        forall|j: int| off <= j < off + n ==> s1[j] == s2[j],
    ensures
        le_at(s1, off, n) == le_at(s2, off, n),
    decreases n,
{
    if n > 0 {
        lemma_le_at_agree(s1, s2, off + 1, (n - 1) as nat);
    }
}

pub proof fn lemma_le_at_bound(s: Seq<u8>, off: int, n: nat)
    requires
        0 <= off,
        off + n <= s.len(),
    ensures
        0 <= le_at(s, off, n) < pow256(n),
    decreases n,
{
    if n > 0 {
        lemma_le_at_bound(s, off + 1, (n - 1) as nat);
    }
}

/// Decoding a region that holds the little-endian bytes of `x` yields `x`.
pub proof fn lemma_le_at_of_bytes(s: Seq<u8>, off: int, n: nat, x: int)
    requires
        0 <= x < pow256(n),
        0 <= off,
        off + n <= s.len(),
        forall|j: int| 0 <= j < n ==> #[trigger] s[off + j] == ((x / pow256(j as nat)) % 256) as u8,
    ensures
        le_at(s, off, n) == x,
    decreases n,
{
    if n == 0 {
    } else {
        let xq = x / 256;
        assert(s[off + 0] == ((x / pow256(0)) % 256) as u8);
        assert(x / pow256(0) == x);
        assert forall|j: int| 0 <= j < n - 1 implies #[trigger] s[off + 1 + j] == ((xq / pow256(
            j as nat,
        )) % 256) as u8 by {
            assert(s[off + (j + 1)] == ((x / pow256((j + 1) as nat)) % 256) as u8);
            lemma_pow256_pos(j as nat);
            lemma_div_denominator(x, 256, pow256(j as nat));
            assert(pow256((j + 1) as nat) == 256 * pow256(j as nat));
        }
        assert(0 <= xq < pow256((n - 1) as nat)) by {
            lemma_pow256_pos((n - 1) as nat);
            assert(x < 256 * pow256((n - 1) as nat));
            assert(x / 256 < pow256((n - 1) as nat)) by (nonlinear_arith)
                requires
                    0 <= x,
                    x < 256 * pow256((n - 1) as nat),
            ;
        }
        lemma_le_at_of_bytes(s, off + 1, (n - 1) as nat, xq);
        assert(x == 256 * (x / 256) + x % 256) by (nonlinear_arith);
        assert(s[off + 0] == (x % 256) as u8);
        assert(le_at(s, off, n) == s[off] + 256 * le_at(s, off + 1, (n - 1) as nat));
    }
}

/// Reads the `n`-byte little-endian integer at `off` from an extent.
pub fn read_le<E: Extent>(e: &E, off: usize, n: usize) -> (r: u64)
    requires
        n <= 8,
        off + n <= e.bytes().len(),
    ensures
        r == le_at(e.bytes(), off as int, n as nat),
{
    let total = e.len();
    let mut r: u64 = 0;
    let mut k: usize = n;
    while k > 0
        invariant
            k <= n <= 8,
            off + n <= total == e.bytes().len(),
            r == le_at(e.bytes(), off + k, (n - k) as nat),
        decreases k,
    {
        k = k - 1;
        proof {
            lemma_le_at_bound(e.bytes(), off + k + 1, (n - k - 1) as nat);
            lemma_pow256_increases((n - k - 1) as nat, 7);
            lemma_pow256_values();
        }
        r = r * 256 + (e.get(off + k) as u64);
        proof {
            assert(le_at(e.bytes(), off + k, (n - k) as nat) == e.bytes()[off + k] + 256 * le_at(
                e.bytes(),
                off + k + 1,
                (n - k - 1) as nat,
            ));
        }
    }
    r
}

/// Writes the `n`-byte little-endian encoding of `x` at `off` in an extent.
/// Touches the `n` target bytes and nothing else.
pub fn write_le<E: Extent>(e: &mut E, off: usize, n: usize, x: u64)
    requires
        n <= 8,
        off + n <= old(e).bytes().len(),
        x < pow256(n as nat),
    ensures
        final(e).bytes().len() == old(e).bytes().len(),
        forall|i: int|
            0 <= i < old(e).bytes().len() && !(off <= i < off + n) ==> final(e).bytes()[i] == old(e).bytes()[i],
        forall|j: int|
            0 <= j < n ==> #[trigger] final(e).bytes()[off + j] == (((x as int) / pow256(j as nat))
                % 256) as u8,
        le_at(final(e).bytes(), off as int, n as nat) == x,
{
    let total = e.len();
    let mut w: u64 = x;
    let mut j: usize = 0;
    while j < n
        invariant
            j <= n <= 8,
            off + n <= total == e.bytes().len(),
            e.bytes().len() == old(e).bytes().len(),
            w == (x as int) / pow256(j as nat),
            forall|i: int|
                0 <= i < old(e).bytes().len() && !(off <= i < off + j) ==> e.bytes()[i] == old(e).bytes()[i],
            forall|t: int|
                0 <= t < j ==> #[trigger] e.bytes()[off + t] == (((x as int) / pow256(t as nat))
                    % 256) as u8,
        decreases n - j,
    {
        proof {
            lemma_pow256_pos(j as nat);
        }
        e.set(off + j, (w % 256) as u8);
        proof {
            lemma_div_denominator(x as int, pow256(j as nat), 256);
            assert(pow256((j + 1) as nat) == 256 * pow256(j as nat));
            assert(pow256(j as nat) * 256 == 256 * pow256(j as nat)) by (nonlinear_arith);
        }
        w = w / 256;
        j = j + 1;
    }
    proof {
        assert(x < pow256(n as nat));
        lemma_le_at_of_bytes(e.bytes(), off as int, n as nat, x as int);
    }
}

/// Reads the `n`-byte little-endian integer at `off` from a byte vector.
pub fn read_le_vec(v: &Vec<u8>, off: usize, n: usize) -> (r: u64)
    requires
        n <= 8,
        off + n <= v@.len(),
    ensures
        r == le_at(v@, off as int, n as nat),
{
    let total = v.len();
    let mut r: u64 = 0;
    let mut k: usize = n;
    while k > 0
        invariant
            k <= n <= 8,
            off + n <= total == v@.len(),
            r == le_at(v@, off + k, (n - k) as nat),
        decreases k,
    {
        k = k - 1;
        proof {
            lemma_le_at_bound(v@, off + k + 1, (n - k - 1) as nat);
            lemma_pow256_increases((n - k - 1) as nat, 7);
            lemma_pow256_values();
        }
        r = r * 256 + (v[off + k] as u64);
    }
    r
}

/// Appends the `n`-byte little-endian encoding of `x` to a byte vector.
pub fn push_le(out: &mut Vec<u8>, x: u64, n: usize)
    requires
        n <= 8,
        x < pow256(n as nat),
        old(out)@.len() + n <= usize::MAX,
    ensures
        final(out)@ == old(out)@ + le_bytes(x as int, n as nat),
{
    let mut j: usize = 0;
    let mut w: u64 = x;
    while j < n
        invariant
            j <= n <= 8,
            w == (x as int) / pow256(j as nat),
            out@.len() == old(out)@.len() + j,
            forall|i: int| 0 <= i < old(out)@.len() ==> out@[i] == old(out)@[i],
            forall|t: int|
                0 <= t < j ==> #[trigger] out@[old(out)@.len() + t] == (((x as int) / pow256(
                    t as nat,
                )) % 256) as u8,
        decreases n - j,
    {
        proof {
            lemma_pow256_pos(j as nat);
        }
        out.push((w % 256) as u8);
        proof {
            lemma_div_denominator(x as int, pow256(j as nat), 256);
            assert(pow256((j + 1) as nat) == 256 * pow256(j as nat));
            assert(pow256(j as nat) * 256 == 256 * pow256(j as nat)) by (nonlinear_arith);
        }
        w = w / 256;
        j = j + 1;
    }
    proof {
        let full = old(out)@ + le_bytes(x as int, n as nat);
        assert forall|i: int| 0 <= i < out@.len() implies out@[i] == full[i] by {
            if i < old(out)@.len() {
            } else {
                let t = i - old(out)@.len();
                assert(out@[old(out)@.len() + t] == (((x as int) / pow256(t as nat)) % 256) as u8);
                assert(full[i] == le_bytes(x as int, n as nat)[t]);
            }
        }
        assert(out@ =~= full);
    }
}

/// An all-zero region decodes to zero.
pub proof fn lemma_le_at_zero(s: Seq<u8>, off: int, n: nat)
    requires
        0 <= off,
        off + n <= s.len(),
        forall|j: int| 0 <= j < n ==> #[trigger] s[off + j] == 0,
    ensures
        le_at(s, off, n) == 0,
    decreases n,
{
    if n > 0 {
        assert(s[off + 0] == 0);
        assert forall|j: int| 0 <= j < n - 1 implies #[trigger] s[off + 1 + j] == 0 by {
            assert(s[off + (j + 1)] == 0);
        }
        lemma_le_at_zero(s, off + 1, (n - 1) as nat);
    }
}

/// A region holding `le_bytes(x, n)` decodes to `x`.
pub proof fn lemma_le_at_of_le_bytes(s: Seq<u8>, off: int, n: nat, x: int)
    requires
        0 <= x < pow256(n),
        0 <= off,
        off + n <= s.len(),
        forall|j: int| 0 <= j < n ==> s[off + j] == le_bytes(x, n)[j],
    ensures
        le_at(s, off, n) == x,
{
    assert forall|j: int| 0 <= j < n implies #[trigger] s[off + j] == ((x / pow256(j as nat))
        % 256) as u8 by {
        assert(s[off + j] == le_bytes(x, n)[j]);
    }
    lemma_le_at_of_bytes(s, off, n, x);
}

} // verus!
