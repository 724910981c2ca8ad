//! Arbitrary-length byte strings stored in chains of fixed-size FAT
//! blocks on an extent.
//!
//! Every block is `FAT_BLOCK_SIZE` bytes: a `used` flag, the payload size,
//! the number of the next block in the chain (0 ends a chain), then the
//! payload. Block 0 is the directory, itself an ordinary chain: its value
//! is a packed array of little-endian block numbers, entry `i` naming the
//! head block of the `i`-th stored value.

use crate::codec::{
    le_at, le_bytes, lemma_le_at_agree, lemma_le_at_of_le_bytes, lemma_le_at_zero,
    lemma_pow256_values, pow256, push_le, read_le, read_le_vec, write_le,
};
use crate::extent::{read_bytes, write_slice, Extent};
use vstd::arithmetic::div_mod::lemma_fundamental_div_mod;
use vstd::prelude::*;

verus! {

pub const FAT_BLOCK_SIZE: usize = 256;

pub const FAT_HEADER_SIZE: usize = 16;

/// Payload bytes per block.
pub const FAT_USABLE_SIZE: usize = 240;

/// The number of whole FAT blocks the byte sequence holds.
pub open spec fn fat_nblocks(s: Seq<u8>) -> int {
    s.len() as int / 256
}

/// The `used` flag of block `b`.
pub open spec fn fat_used(s: Seq<u8>, b: int) -> int {
    le_at(s, 256 * b, 4)
}

/// The payload size of block `b`.
pub open spec fn fat_size(s: Seq<u8>, b: int) -> int {
    le_at(s, 256 * b + 4, 4)
}

/// The continuation block number of block `b`; 0 ends the chain.
pub open spec fn fat_next(s: Seq<u8>, b: int) -> int {
    le_at(s, 256 * b + 8, 8)
}

/// The live payload bytes of block `b`.
pub open spec fn fat_payload(s: Seq<u8>, b: int) -> Seq<u8> {
    s.subrange(256 * b + 16, 256 * b + 16 + fat_size(s, b))
}

/// A well-formed chain: a non-empty sequence of distinct allocated
/// blocks, each full but the last, linked by their `next` fields, the
/// last ending the chain. Only the directory's head may be block 0.
pub open spec fn wf_chain(s: Seq<u8>, c: Seq<int>) -> bool {
    &&& c.len() >= 1
    &&& (forall|i: int| 0 <= i < c.len() ==> wf_block(s, #[trigger] c[i]))
    &&& (forall|i: int| 1 <= i < c.len() ==> #[trigger] c[i] >= 1)
    &&& (forall|i: int|
        0 <= i < c.len() - 1 ==> fat_next(s, #[trigger] c[i]) == c[i + 1] && fat_size(s, c[i])
            == 240)
    &&& fat_next(s, c[c.len() - 1]) == 0
    &&& (forall|i: int, j: int| 0 <= i < j < c.len() ==> c[i] != c[j])
}

/// An allocated block with a payload that fits.
pub open spec fn wf_block(s: Seq<u8>, b: int) -> bool {
    &&& 0 <= b < fat_nblocks(s)
    &&& fat_used(s, b) == 1
    &&& 0 <= fat_size(s, b) <= 240
}

/// The value a chain holds: its payloads concatenated.
pub open spec fn chain_value(s: Seq<u8>, c: Seq<int>) -> Seq<u8>
    decreases c.len(),
{
    if c.len() == 0 {
        Seq::empty()
    } else {
        fat_payload(s, c[0]) + chain_value(s, c.drop_first())
    }
}

/// Two byte sequences agree on every byte of block `b`.
pub open spec fn block_agrees(s1: Seq<u8>, s2: Seq<u8>, b: int) -> bool {
    forall|t: int| 256 * b <= t < 256 * b + 256 ==> s1[t] == s2[t]
}

/// A sized store: a whole positive number of blocks.
pub open spec fn fat_sized(s: Seq<u8>) -> bool {
    &&& s.len() % 256 == 0
    &&& s.len() >= 256
}

proof fn lemma_block_in_range(s: Seq<u8>, b: int)
    requires
        fat_sized(s),
        0 <= b < fat_nblocks(s),
    ensures
        0 <= 256 * b,
        256 * b + 256 <= s.len(),
{
    lemma_fundamental_div_mod(s.len() as int, 256);
    assert(256 * b + 256 <= 256 * fat_nblocks(s)) by (nonlinear_arith)
        requires
            b + 1 <= fat_nblocks(s),
    ;
    assert(0 <= 256 * b) by (nonlinear_arith)
        requires
            0 <= b,
    ;
}

/// Blocks agreeing byte for byte have the same header fields and payload.
proof fn lemma_block_fields_agree(s1: Seq<u8>, s2: Seq<u8>, b: int)
    requires
        fat_sized(s1),
        fat_sized(s2),
        0 <= b,
        b < fat_nblocks(s1),
        b < fat_nblocks(s2),
        0 <= fat_size(s1, b) <= 240,
        block_agrees(s1, s2, b),
    ensures
        fat_used(s2, b) == fat_used(s1, b),
        fat_size(s2, b) == fat_size(s1, b),
        fat_next(s2, b) == fat_next(s1, b),
        fat_payload(s2, b) == fat_payload(s1, b),
{
    lemma_block_in_range(s1, b);
    lemma_block_in_range(s2, b);
    lemma_le_at_agree(s1, s2, 256 * b, 4);
    lemma_le_at_agree(s1, s2, 256 * b + 4, 4);
    lemma_le_at_agree(s1, s2, 256 * b + 8, 8);
    assert(fat_payload(s2, b) =~= fat_payload(s1, b));
}

/// A chain whose blocks are untouched keeps its shape and value.
proof fn lemma_chain_preserved(s1: Seq<u8>, s2: Seq<u8>, c: Seq<int>)
    requires
        fat_sized(s1),
        fat_sized(s2),
        fat_nblocks(s2) >= fat_nblocks(s1),
        wf_chain(s1, c),
        forall|i: int| 0 <= i < c.len() ==> #[trigger] block_agrees(s1, s2, c[i]),
    ensures
        wf_chain(s2, c),
        chain_value(s2, c) == chain_value(s1, c),
    decreases c.len(),
{
    assert forall|i: int| 0 <= i < c.len() implies wf_block(s2, #[trigger] c[i]) && fat_next(
        s2,
        c[i],
    ) == fat_next(s1, c[i]) && fat_size(s2, c[i]) == fat_size(s1, c[i]) && fat_payload(s2, c[i])
        == fat_payload(s1, c[i]) by {
        lemma_block_fields_agree(s1, s2, c[i]);
    }
    if c.len() == 1 {
        assert(chain_value(s2, c) == fat_payload(s2, c[0]) + chain_value(s2, c.drop_first()));
        assert(chain_value(s1, c) == fat_payload(s1, c[0]) + chain_value(s1, c.drop_first()));
        assert(c.drop_first().len() == 0);
        assert(chain_value(s2, c) =~= chain_value(s1, c));
    } else {
        let c2 = c.drop_first();
        assert(wf_chain(s1, c2)) by {
            assert forall|i: int| 0 <= i < c2.len() implies wf_block(s1, #[trigger] c2[i]) by {
                assert(c2[i] == c[i + 1]);
            }
            assert forall|i: int| 1 <= i < c2.len() implies #[trigger] c2[i] >= 1 by {
                assert(c2[i] == c[i + 1]);
            }
            assert forall|i: int| 0 <= i < c2.len() - 1 implies fat_next(s1, #[trigger] c2[i])
                == c2[i + 1] && fat_size(s1, c2[i]) == 240 by {
                assert(c2[i] == c[i + 1] && c2[i + 1] == c[i + 2]);
            }
            assert(c2[c2.len() - 1] == c[c.len() - 1]);
        }
        assert forall|i: int| 0 <= i < c2.len() implies #[trigger] block_agrees(s1, s2, c2[i]) by {
            assert(c2[i] == c[i + 1]);
        }
        lemma_chain_preserved(s1, s2, c2);
        assert(chain_value(s2, c) == fat_payload(s2, c[0]) + chain_value(s2, c2));
        assert(chain_value(s1, c) == fat_payload(s1, c[0]) + chain_value(s1, c2));
    }
}

/// Appending a block to a chain appends its payload to the value.
proof fn lemma_chain_value_push(s: Seq<u8>, c: Seq<int>, b: int)
    ensures
        chain_value(s, c.push(b)) == chain_value(s, c) + fat_payload(s, b),
    decreases c.len(),
{
    if c.len() == 0 {
        assert(c.push(b).drop_first() =~= c);
        assert(chain_value(s, c.push(b)) == fat_payload(s, (c.push(b))[0]) + chain_value(
            s,
            c.push(b).drop_first(),
        ));
        assert((c.push(b))[0] == b);
        assert(chain_value(s, c.push(b)) =~= fat_payload(s, b));
        assert(chain_value(s, c) + fat_payload(s, b) =~= fat_payload(s, b));
    } else {
        assert(c.push(b).drop_first() =~= c.drop_first().push(b));
        lemma_chain_value_push(s, c.drop_first(), b);
        assert(chain_value(s, c.push(b)) == fat_payload(s, c[0]) + chain_value(
            s,
            c.drop_first().push(b),
        ));
        assert(fat_payload(s, c[0]) + (chain_value(s, c.drop_first()) + fat_payload(s, b)) =~= (
        fat_payload(s, c[0]) + chain_value(s, c.drop_first())) + fat_payload(s, b));
    }
}

/// A prefix of the chain contributes a prefix of the value.
proof fn lemma_chain_value_take(s: Seq<u8>, c: Seq<int>, i: int)
    requires
        0 <= i < c.len(),
    ensures
        chain_value(s, c.take(i + 1)) == chain_value(s, c.take(i)) + fat_payload(s, c[i]),
{
    assert(c.take(i + 1) =~= c.take(i).push(c[i]));
    lemma_chain_value_push(s, c.take(i), c[i]);
}

/// The length of a chain's value: full blocks plus the tail.
proof fn lemma_chain_value_len(s: Seq<u8>, c: Seq<int>)
    requires
        fat_sized(s),
        wf_chain(s, c),
    ensures
        chain_value(s, c).len() == 240 * (c.len() - 1) + fat_size(s, c[c.len() - 1]),
    decreases c.len(),
{
    lemma_block_in_range(s, c[0]);
    assert(fat_payload(s, c[0]).len() == fat_size(s, c[0]));
    if c.len() == 1 {
        assert(chain_value(s, c) == fat_payload(s, c[0]) + chain_value(s, c.drop_first()));
        assert(c.drop_first().len() == 0);
    } else {
        let c2 = c.drop_first();
        assert(wf_chain(s, c2)) by {
            assert forall|i: int| 0 <= i < c2.len() implies wf_block(s, #[trigger] c2[i]) by {
                assert(c2[i] == c[i + 1]);
            }
            assert forall|i: int| 1 <= i < c2.len() implies #[trigger] c2[i] >= 1 by {
                assert(c2[i] == c[i + 1]);
            }
            assert forall|i: int| 0 <= i < c2.len() - 1 implies fat_next(s, #[trigger] c2[i])
                == c2[i + 1] && fat_size(s, c2[i]) == 240 by {
                assert(c2[i] == c[i + 1] && c2[i + 1] == c[i + 2]);
            }
            assert(c2[c2.len() - 1] == c[c.len() - 1]);
        }
        lemma_chain_value_len(s, c2);
        assert(fat_size(s, c[0]) == 240);
        assert(c2[c2.len() - 1] == c[c.len() - 1]);
    }
}

/// Distinct blocks occupy disjoint byte ranges.
proof fn lemma_blocks_disjoint(b1: int, b2: int)
    requires
        0 <= b1,
        0 <= b2,
        b1 != b2,
    ensures
        256 * b1 + 256 <= 256 * b2 || 256 * b2 + 256 <= 256 * b1,
{
}

/// A chain's value depends only on its blocks' payloads.
proof fn lemma_chain_value_payloads(s1: Seq<u8>, s2: Seq<u8>, c: Seq<int>)
    requires
        forall|i: int| 0 <= i < c.len() ==> fat_payload(s2, #[trigger] c[i]) == fat_payload(s1, c[i]),
    ensures
        chain_value(s2, c) == chain_value(s1, c),
    decreases c.len(),
{
    if c.len() == 0 {
        assert(chain_value(s2, c) =~= chain_value(s1, c));
    } else {
        let c2 = c.drop_first();
        assert forall|i: int| 0 <= i < c2.len() implies fat_payload(s2, #[trigger] c2[i])
            == fat_payload(s1, c2[i]) by {
            assert(c2[i] == c[i + 1]);
        }
        lemma_chain_value_payloads(s1, s2, c2);
    }
}

/// Extending the tail block's payload extends the chain's value.
proof fn lemma_chain_tail_extend(s1: Seq<u8>, s2: Seq<u8>, gc: Seq<int>, add: Seq<u8>)
    requires
        fat_sized(s1),
        fat_sized(s2),
        s2.len() == s1.len(),
        wf_chain(s1, gc),
        fat_size(s2, gc[gc.len() - 1]) == fat_size(s1, gc[gc.len() - 1]) + add.len(),
        fat_size(s2, gc[gc.len() - 1]) <= 240,
        fat_used(s2, gc[gc.len() - 1]) == fat_used(s1, gc[gc.len() - 1]),
        fat_next(s2, gc[gc.len() - 1]) == fat_next(s1, gc[gc.len() - 1]),
        forall|i: int| 0 <= i < gc.len() - 1 ==> #[trigger] block_agrees(s1, s2, gc[i]),
        forall|t: int|
            0 <= t < fat_size(s1, gc[gc.len() - 1]) ==> #[trigger] s2[256 * gc[gc.len() - 1] + 16
                + t] == s1[256 * gc[gc.len() - 1] + 16 + t],
        forall|j: int|
            0 <= j < add.len() ==> #[trigger] s2[256 * gc[gc.len() - 1] + 16 + fat_size(
                s1,
                gc[gc.len() - 1],
            ) + j] == add[j],
    ensures
        wf_chain(s2, gc),
        chain_value(s2, gc) == chain_value(s1, gc) + add,
    decreases gc.len(),
{
    let b = gc[gc.len() - 1];
    lemma_block_in_range(s1, b);
    if gc.len() == 1 {
        assert(wf_chain(s2, gc));
        assert forall|t: int| 0 <= t < fat_payload(s2, b).len() implies fat_payload(s2, b)[t] == (
        fat_payload(s1, b) + add)[t] by {
            if t < fat_size(s1, b) {
                assert(s2[256 * b + 16 + t] == s1[256 * b + 16 + t]);
            } else {
                let j = t - fat_size(s1, b);
                assert(s2[256 * b + 16 + fat_size(s1, b) + j] == add[j]);
            }
        }
        assert(fat_payload(s2, b) =~= fat_payload(s1, b) + add);
        assert(chain_value(s2, gc) == fat_payload(s2, gc[0]) + chain_value(s2, gc.drop_first()));
        assert(chain_value(s1, gc) == fat_payload(s1, gc[0]) + chain_value(s1, gc.drop_first()));
        assert(gc.drop_first().len() == 0);
        assert(chain_value(s2, gc) =~= chain_value(s1, gc) + add);
    } else {
        let c2 = gc.drop_first();
        assert(wf_chain(s1, c2)) by {
            assert forall|i: int| 0 <= i < c2.len() implies wf_block(s1, #[trigger] c2[i]) by {
                assert(c2[i] == gc[i + 1]);
            }
            assert forall|i: int| 1 <= i < c2.len() implies #[trigger] c2[i] >= 1 by {
                assert(c2[i] == gc[i + 1]);
            }
            assert forall|i: int| 0 <= i < c2.len() - 1 implies fat_next(s1, #[trigger] c2[i])
                == c2[i + 1] && fat_size(s1, c2[i]) == 240 by {
                assert(c2[i] == gc[i + 1] && c2[i + 1] == gc[i + 2]);
            }
            assert(c2[c2.len() - 1] == gc[gc.len() - 1]);
        }
        assert forall|i: int| 0 <= i < c2.len() - 1 implies #[trigger] block_agrees(s1, s2, c2[i]) by {
            assert(c2[i] == gc[i + 1]);
        }
        assert(c2[c2.len() - 1] == b);
        lemma_chain_tail_extend(s1, s2, c2, add);
        lemma_block_fields_agree(s1, s2, gc[0]);
        assert(chain_value(s2, gc) == fat_payload(s2, gc[0]) + chain_value(s2, c2));
        assert(chain_value(s1, gc) == fat_payload(s1, gc[0]) + chain_value(s1, c2));
        assert(wf_chain(s2, gc)) by {
            assert forall|i: int| 0 <= i < gc.len() implies wf_block(s2, #[trigger] gc[i]) by {
                if i == 0 {
                } else {
                    assert(c2[i - 1] == gc[i]);
                    assert(wf_block(s2, c2[i - 1]));
                }
            }
            assert forall|i: int| 0 <= i < gc.len() - 1 implies fat_next(s2, #[trigger] gc[i])
                == gc[i + 1] && fat_size(s2, gc[i]) == 240 by {
                if i == 0 {
                    assert(fat_next(s2, gc[0]) == fat_next(s1, gc[0]));
                } else {
                    assert(c2[i - 1] == gc[i] && c2[i] == gc[i + 1]);
                    assert(fat_next(s2, c2[i - 1]) == c2[i] && fat_size(s2, c2[i - 1]) == 240);
                }
            }
            assert(gc[gc.len() - 1] == c2[c2.len() - 1]);
        }
        assert(chain_value(s2, gc) =~= chain_value(s1, gc) + add);
    }
}

/// The value `v` with its bytes from `off` on replaced by `w`, extending
/// it where `w` runs past the end.
pub open spec fn overwrite(v: Seq<u8>, off: int, w: Seq<u8>) -> Seq<u8> {
    if off + w.len() <= v.len() {
        v.take(off) + w + v.skip(off + w.len())
    } else {
        v.take(off) + w
    }
}

/// Overwriting with nothing changes nothing.
proof fn lemma_overwrite_empty(v: Seq<u8>, off: int)
    requires
        0 <= off <= v.len(),
    ensures
        overwrite(v, off, Seq::<u8>::empty()) == v,
{
    assert(overwrite(v, off, Seq::<u8>::empty()) =~= v);
}

/// Two overwrites that meet end to start fuse into one.
proof fn lemma_overwrite_compose(v: Seq<u8>, off: int, x: Seq<u8>, y: Seq<u8>)
    requires
        0 <= off <= v.len(),
    ensures
        overwrite(overwrite(v, off, x), off + x.len(), y) == overwrite(v, off, x + y),
{
    let v1 = overwrite(v, off, x);
    let lhs = overwrite(v1, off + x.len(), y);
    let rhs = overwrite(v, off, x + y);
    assert forall|t: int| 0 <= t < lhs.len() implies lhs[t] == rhs[t] by {
        if t < off {
        } else if t < off + x.len() {
            assert(lhs[t] == x[t - off]);
            assert(rhs[t] == (x + y)[t - off]);
        } else if t < off + x.len() + y.len() {
            assert(lhs[t] == y[t - off - x.len()]);
            assert(rhs[t] == (x + y)[t - off]);
        } else {
            assert(lhs[t] == v1[t]);
            assert(v1[t] == v[t]);
            assert(rhs[t] == v[t]);
        }
    }
    assert(lhs =~= rhs);
}

/// Dropping a chain's head leaves a chain.
proof fn lemma_chain_drop_first(s: Seq<u8>, c: Seq<int>)
    requires
        wf_chain(s, c),
        c.len() >= 2,
    ensures
        wf_chain(s, c.drop_first()),
{
    let c2 = c.drop_first();
    assert forall|i: int| 0 <= i < c2.len() implies wf_block(s, #[trigger] c2[i]) by {
        assert(c2[i] == c[i + 1]);
    }
    assert forall|i: int| 1 <= i < c2.len() implies #[trigger] c2[i] >= 1 by {
        assert(c2[i] == c[i + 1]);
    }
    assert forall|i: int| 0 <= i < c2.len() - 1 implies fat_next(s, #[trigger] c2[i]) == c2[i + 1]
        && fat_size(s, c2[i]) == 240 by {
        assert(c2[i] == c[i + 1] && c2[i + 1] == c[i + 2]);
    }
    assert(c2[c2.len() - 1] == c[c.len() - 1]);
}

/// A head block correctly linked to a chain forms a chain.
proof fn lemma_chain_undrop(s: Seq<u8>, c: Seq<int>)
    requires
        c.len() >= 1,
        wf_block(s, c[0]),
        c.len() >= 2 ==> fat_next(s, c[0]) == c[1] && fat_size(s, c[0]) == 240 && wf_chain(
            s,
            c.drop_first(),
        ),
        c.len() == 1 ==> fat_next(s, c[0]) == 0,
        forall|i: int| 1 <= i < c.len() ==> #[trigger] c[i] >= 1,
        forall|i: int, j: int| 0 <= i < j < c.len() ==> c[i] != c[j],
    ensures
        wf_chain(s, c),
{
    let c2 = c.drop_first();
    if c.len() >= 2 {
        assert forall|i: int| 0 <= i < c.len() implies wf_block(s, #[trigger] c[i]) by {
            if i > 0 {
                assert(c2[i - 1] == c[i]);
                assert(wf_block(s, c2[i - 1]));
            }
        }
        assert forall|i: int| 0 <= i < c.len() - 1 implies fat_next(s, #[trigger] c[i]) == c[i + 1]
            && fat_size(s, c[i]) == 240 by {
            if i > 0 {
                assert(c2[i - 1] == c[i] && c2[i] == c[i + 1]);
                assert(fat_next(s, c2[i - 1]) == c2[i] && fat_size(s, c2[i - 1]) == 240);
            }
        }
        assert(c[c.len() - 1] == c2[c2.len() - 1]);
    }
}

/// An overwrite that lands past the first part of a concatenation.
proof fn lemma_overwrite_in_tail(p0: Seq<u8>, r1: Seq<u8>, r2: Seq<u8>, off: int, add: Seq<u8>)
    requires
        p0.len() <= off,
        0 <= off - p0.len() <= r1.len(),
        r2 == overwrite(r1, off - p0.len(), add),
    ensures
        p0 + r2 == overwrite(p0 + r1, off, add),
{
    let lhs = p0 + r2;
    let rhs = overwrite(p0 + r1, off, add);
    assert forall|t: int| 0 <= t < lhs.len() implies lhs[t] == rhs[t] by {
        if t < p0.len() {
        } else {
            assert(lhs[t] == r2[t - p0.len()]);
            assert(r2[t - p0.len()] == overwrite(r1, off - p0.len(), add)[t - p0.len()]);
        }
    }
    assert(lhs =~= rhs);
}

/// An overwrite that stays within the first part of a concatenation, or
/// runs past the end of a value with nothing after it.
proof fn lemma_overwrite_in_head(p1: Seq<u8>, p2: Seq<u8>, r: Seq<u8>, si: int, add: Seq<u8>)
    requires
        0 <= si <= p1.len(),
        si + add.len() <= p1.len() || r.len() == 0,
        p2 == overwrite(p1, si, add),
    ensures
        p2 + r == overwrite(p1 + r, si, add),
{
    let lhs = p2 + r;
    let rhs = overwrite(p1 + r, si, add);
    assert forall|t: int| 0 <= t < lhs.len() implies lhs[t] == rhs[t] by {
        if t < p2.len() {
            assert(lhs[t] == overwrite(p1, si, add)[t]);
        } else {
            assert(lhs[t] == r[t - p2.len()]);
        }
    }
    assert(lhs =~= rhs);
}

/// Overwriting inside a chain's block at position `pp` overwrites the
/// chain's value at the matching logical offset.
#[verifier::rlimit(100)]
#[verifier::spinoff_prover]
proof fn lemma_chain_overwrite_at(
    s1: Seq<u8>,
    s2: Seq<u8>,
    gc: Seq<int>,
    pp: int,
    si: int,
    add: Seq<u8>,
)
    requires
        fat_sized(s1),
        fat_sized(s2),
        s2.len() == s1.len(),
        wf_chain(s1, gc),
        0 <= pp < gc.len(),
        0 <= si <= fat_size(s1, gc[pp]),
        si + add.len() <= 240,
        fat_size(s2, gc[pp]) == (if si + add.len() > fat_size(s1, gc[pp]) {
            si + add.len()
        } else {
            fat_size(s1, gc[pp])
        }),
        fat_used(s2, gc[pp]) == fat_used(s1, gc[pp]),
        fat_next(s2, gc[pp]) == fat_next(s1, gc[pp]),
        forall|i: int| 0 <= i < gc.len() && i != pp ==> #[trigger] block_agrees(s1, s2, gc[i]),
        forall|t: int|
            0 <= t < si ==> #[trigger] s2[256 * gc[pp] + 16 + t] == s1[256 * gc[pp] + 16 + t],
        forall|j: int| 0 <= j < add.len() ==> #[trigger] s2[256 * gc[pp] + 16 + si + j] == add[j],
        forall|t: int|
            si + add.len() <= t < fat_size(s1, gc[pp]) ==> #[trigger] s2[256 * gc[pp] + 16 + t]
                == s1[256 * gc[pp] + 16 + t],
    ensures
        wf_chain(s2, gc),
        chain_value(s2, gc) == overwrite(chain_value(s1, gc), 240 * pp + si, add),
    decreases pp,
{
    let b = gc[pp];
    lemma_block_in_range(s1, b);
    if pp == 0 {
        let p1 = fat_payload(s1, b);
        let p2 = fat_payload(s2, b);
        assert(p2 =~= overwrite(p1, si, add)) by {
            assert forall|t: int| 0 <= t < p2.len() implies p2[t] == overwrite(p1, si, add)[t] by {
                if t < si {
                    assert(s2[256 * b + 16 + t] == s1[256 * b + 16 + t]);
                } else if t < si + add.len() {
                    assert(s2[256 * b + 16 + si + (t - si)] == add[t - si]);
                } else {
                    assert(s2[256 * b + 16 + t] == s1[256 * b + 16 + t]);
                }
            }
        }
        let rest = gc.drop_first();
        if gc.len() == 1 {
            lemma_chain_undrop(s2, gc);
            assert(rest.len() == 0);
            assert(chain_value(s2, gc) == p2 + chain_value(s2, rest));
            assert(chain_value(s1, gc) == p1 + chain_value(s1, rest));
            lemma_overwrite_in_head(p1, p2, chain_value(s1, rest), si, add);
            assert(chain_value(s2, gc) =~= overwrite(chain_value(s1, gc), si, add));
        } else {
            lemma_chain_drop_first(s1, gc);
            assert forall|i: int| 0 <= i < rest.len() implies #[trigger] block_agrees(
                s1,
                s2,
                rest[i],
            ) by {
                assert(rest[i] == gc[i + 1]);
            }
            lemma_chain_preserved(s1, s2, rest);
            assert(fat_next(s2, gc[0]) == gc[1] && fat_size(s2, gc[0]) == 240);
            lemma_chain_undrop(s2, gc);
            assert(chain_value(s2, gc) == p2 + chain_value(s2, rest));
            assert(chain_value(s1, gc) == p1 + chain_value(s1, rest));
            assert(p1.len() == 240);
            lemma_overwrite_in_head(p1, p2, chain_value(s1, rest), si, add);
        }
    } else {
        let rest = gc.drop_first();
        lemma_chain_drop_first(s1, gc);
        assert forall|i: int| 0 <= i < rest.len() && i != pp - 1 implies #[trigger] block_agrees(
            s1,
            s2,
            rest[i],
        ) by {
            assert(rest[i] == gc[i + 1]);
        }
        assert(rest[pp - 1] == gc[pp]);
        lemma_chain_overwrite_at(s1, s2, rest, pp - 1, si, add);
        lemma_block_fields_agree(s1, s2, gc[0]);
        assert(fat_next(s2, gc[0]) == gc[1] && fat_size(s2, gc[0]) == 240) by {
            assert(rest[0] == gc[1]);
        }
        lemma_chain_undrop(s2, gc);
        assert(chain_value(s2, gc) == fat_payload(s2, gc[0]) + chain_value(s2, rest));
        assert(chain_value(s1, gc) == fat_payload(s1, gc[0]) + chain_value(s1, rest));
        let p0 = fat_payload(s1, gc[0]);
        assert(p0.len() == 240);
        assert(240 * pp + si - 240 == 240 * (pp - 1) + si);
        assert(240 * pp + si >= 240) by (nonlinear_arith)
            requires
                pp >= 1,
                si >= 0,
        ;
        assert(240 * pp + si >= p0.len());
        assert(0 <= 240 * (pp - 1) + si <= chain_value(s1, rest).len()) by {
            lemma_chain_value_len(s1, rest);
            assert(240 * (pp - 1) + si <= 240 * (rest.len() - 1) + fat_size(
                s1,
                rest[rest.len() - 1],
            )) by (nonlinear_arith)
                requires
                    0 <= pp - 1 <= rest.len() - 1,
                    0 <= si <= fat_size(s1, rest[pp - 1]),
                    fat_size(s1, rest[pp - 1]) <= 240,
                    pp - 1 < rest.len() - 1 ==> fat_size(s1, rest[pp - 1]) == 240,
                    0 <= fat_size(s1, rest[rest.len() - 1]),
                    pp - 1 == rest.len() - 1 ==> fat_size(s1, rest[pp - 1]) == fat_size(
                        s1,
                        rest[rest.len() - 1],
                    ),
            ;
            assert(0 <= 240 * (pp - 1) + si) by (nonlinear_arith)
                requires
                    pp >= 1,
                    si >= 0,
            ;
        }
        lemma_overwrite_in_tail(
            p0,
            chain_value(s1, rest),
            chain_value(s2, rest),
            240 * pp + si,
            add,
        );
    }
}

/// Assembles well-formedness of a store after one entry was overwritten
/// in place: its chain may have gained fresh tail blocks, everything else
/// is untouched.
#[verifier::rlimit(100)]
#[verifier::spinoff_prover]
proof fn lemma_write_entry_wf(
    s0: Seq<u8>,
    s1: Seq<u8>,
    cs0: Seq<Seq<int>>,
    cs: Seq<Seq<int>>,
    gc: Seq<int>,
    ki: int,
    w: Seq<u8>,
    index: int,
)
    requires
        store_wf(s0, cs0),
        0 <= ki < cs0.len() - 1,
        fat_sized(s1),
        s1.len() >= s0.len(),
        fat_nblocks(s1) >= fat_nblocks(s0),
        wf_chain(s1, gc),
        gc.len() >= cs0[ki + 1].len(),
        gc.subrange(0, cs0[ki + 1].len() as int) == cs0[ki + 1],
        forall|i: int|
            cs0[ki + 1].len() <= i < gc.len() ==> #[trigger] gc[i] >= 1 && (gc[i] >= fat_nblocks(
                s0,
            ) || fat_used(s0, gc[i]) == 0),
        forall|b: int|
            0 <= b < fat_nblocks(s0) && fat_used(s0, b) == 1 && !cs0[ki + 1].contains(b)
                ==> #[trigger] block_agrees(s0, s1, b),
        cs == cs0.update(ki + 1, gc),
    ensures
        store_wf(s1, cs),
        forall|j: int|
            0 <= j < cs0.len() - 1 && j != ki ==> chain_value(s1, #[trigger] cs0[j + 1])
                == chain_value(s0, cs0[j + 1]),
        chain_value(s1, cs0[0]) == chain_value(s0, cs0[0]),
{
    let c = cs0[ki + 1];
    assert(cs.len() == cs0.len());
    assert(cs[ki + 1] == gc);
    assert(forall|k: int| 0 <= k < cs0.len() && k != ki + 1 ==> #[trigger] cs[k] == cs0[k]);
    // every untouched chain keeps its blocks and value
    assert forall|k: int| 0 <= k < cs0.len() && k != ki + 1 implies wf_chain(
        s1,
        #[trigger] cs0[k],
    ) && chain_value(s1, cs0[k]) == chain_value(s0, cs0[k]) by {
        assert forall|i: int| 0 <= i < cs0[k].len() implies #[trigger] block_agrees(
            s0,
            s1,
            cs0[k][i],
        ) by {
            let b = cs0[k][i];
            assert(wf_block(s0, b));
            assert(!c.contains(b)) by {
                if c.contains(b) {
                    let i0 = choose|i0: int| 0 <= i0 < c.len() && c[i0] == b;
                    assert(cs0[ki + 1][i0] == cs0[k][i]);
                }
            }
        }
        lemma_chain_preserved(s0, s1, cs0[k]);
    }
    // the directory value, and so every directory pointer, is unchanged
    let dv = chain_value(s1, cs0[0]);
    assert(dv == chain_value(s0, cs0[0]));
    assert(gc[0] == c[0]) by {
        assert(gc.subrange(0, c.len() as int)[0] == c[0]);
    }
    assert forall|k: int| 1 <= k < cs.len() implies le_at(dv, 8 * (k - 1), 8) == (
    #[trigger] cs[k])[0] by {
        assert(le_at(chain_value(s0, cs0[0]), 8 * (k - 1), 8) == cs0[k][0]);
        if k == ki + 1 {
            assert(cs[k][0] == gc[0]);
        }
    }
    // fresh tail blocks collide with no other chain
    assert forall|j1: int, j2: int, k: int|
        0 <= j1 < gc.len() && 0 <= k < cs0.len() && k != ki + 1 && 0 <= j2
            < cs0[k].len() implies #[trigger] gc[j1] != #[trigger] cs0[k][j2] by {
        let b = cs0[k][j2];
        assert(wf_block(s0, b));
        if j1 < c.len() {
            assert(gc.subrange(0, c.len() as int)[j1] == c[j1]);
            assert(gc[j1] == cs0[ki + 1][j1]);
        } else {
            assert(gc[j1] >= fat_nblocks(s0) || fat_used(s0, gc[j1]) == 0);
        }
    }
    assert(store_wf(s1, cs)) by {
        assert(cs[0] == cs0[0]);
        assert(cs[0][0] == 0);
        assert forall|k: int| 0 <= k < cs.len() implies wf_chain(s1, #[trigger] cs[k]) by {
            if k == ki + 1 {
            } else {
                assert(cs[k] == cs0[k]);
                assert(wf_chain(s1, cs0[k]));
            }
        }
        assert forall|k1: int, i1: int, k2: int, i2: int|
            #![trigger cs[k1][i1], cs[k2][i2]]
            0 <= k1 < cs.len() && 0 <= i1 < cs[k1].len() && 0 <= k2 < cs.len() && 0 <= i2
                < cs[k2].len() && k1 != k2 implies cs[k1][i1] != cs[k2][i2] by {
            if k1 == ki + 1 {
                assert(cs[k1] == gc && cs[k2] == cs0[k2]);
            } else if k2 == ki + 1 {
                assert(cs[k2] == gc && cs[k1] == cs0[k1]);
            } else {
                assert(cs[k1] == cs0[k1] && cs[k2] == cs0[k2]);
            }
        }
        assert(chain_value(s1, cs[0]).len() == 8 * (cs.len() - 1));
    }
}

/// Chains with the same head in the same bytes are the same chain: the
/// `next` links leave no choice.
proof fn lemma_chain_determined(s: Seq<u8>, c1: Seq<int>, c2: Seq<int>)
    requires
        wf_chain(s, c1),
        wf_chain(s, c2),
        c1[0] == c2[0],
    ensures
        c1 == c2,
    decreases c1.len(),
{
    if c1.len() == 1 {
        assert(fat_next(s, c1[0]) == 0);
        if c2.len() > 1 {
            assert(fat_next(s, c2[0]) == c2[1]);
            assert(c2[1] >= 1);
        }
        assert(c2.len() == 1);
        assert(c1 =~= c2);
    } else {
        assert(fat_next(s, c1[0]) == c1[1]);
        assert(c1[1] >= 1);
        if c2.len() == 1 {
            assert(fat_next(s, c2[0]) == 0);
        }
        assert(c2.len() > 1);
        assert(fat_next(s, c2[0]) == c2[1]);
        assert(c1[1] == c2[1]);
        lemma_chain_drop_first(s, c1);
        lemma_chain_drop_first(s, c2);
        assert(c1.drop_first()[0] == c1[1] && c2.drop_first()[0] == c2[1]);
        lemma_chain_determined(s, c1.drop_first(), c2.drop_first());
        assert forall|i: int| 0 <= i < c1.len() implies c1[i] == c2[i] by {
            if i > 0 {
                assert(c1.drop_first()[i - 1] == c2.drop_first()[i - 1]);
            }
        }
        assert(c1 =~= c2);
    }
}

/// Reproducibility law: the store's contents are a function of the
/// extent bytes alone. Any two chain decompositions that make the same
/// bytes a well-formed store are identical, so they hold identical
/// entries.
pub proof fn lemma_store_determined_by_bytes(s: Seq<u8>, cs1: Seq<Seq<int>>, cs2: Seq<Seq<int>>)
    requires
        store_wf(s, cs1),
        store_wf(s, cs2),
    ensures
        cs1 == cs2,
{
    lemma_chain_determined(s, cs1[0], cs2[0]);
    let dv = chain_value(s, cs1[0]);
    assert(8 * (cs1.len() - 1) == 8 * (cs2.len() - 1));
    assert(cs1.len() == cs2.len());
    assert forall|k: int| 0 <= k < cs1.len() implies cs1[k] == cs2[k] by {
        if k >= 1 {
            assert(le_at(dv, 8 * (k - 1), 8) == cs1[k][0]);
            assert(le_at(dv, 8 * (k - 1), 8) == cs2[k][0]);
            lemma_chain_determined(s, cs1[k], cs2[k]);
        }
    }
    assert(cs1 =~= cs2);
}

/// Round-trip law: after an entry is added, the returned key looks up
/// exactly the bytes that were stored, and no other entry moved.
pub proof fn lemma_add_entry_round_trip(
    pre: Seq<Seq<u8>>,
    post: Seq<Seq<u8>>,
    k: int,
    v: Seq<u8>,
)
    requires
        k == pre.len(),
        post == pre.push(v),
    ensures
        post[k] == v,
        forall|j: int| 0 <= j < pre.len() ==> post[j] == pre[j],
{
}

/// Overwrite round-trip law: overwriting inside a value replaces exactly
/// the addressed bytes and leaves the rest, at the same length.
pub proof fn lemma_overwrite_round_trip(v: Seq<u8>, off: int, w: Seq<u8>)
    requires
        0 <= off,
        off + w.len() <= v.len(),
    ensures
        overwrite(v, off, w).len() == v.len(),
        forall|i: int|
            0 <= i < v.len() ==> overwrite(v, off, w)[i] == (if off <= i < off + w.len() {
                w[i - off]
            } else {
                v[i]
            }),
{
}

/// Well-formedness of a store: every chain is well formed, no two chains
/// share a block, block 0 heads the directory chain, and the directory's
/// value packs one 8-byte head-block number per entry.
pub open spec fn store_wf(s: Seq<u8>, cs: Seq<Seq<int>>) -> bool {
    &&& fat_sized(s)
    &&& cs.len() >= 1
    &&& (forall|k: int| 0 <= k < cs.len() ==> wf_chain(s, #[trigger] cs[k]))
    &&& cs[0][0] == 0
    &&& (forall|k1: int, i1: int, k2: int, i2: int|
        #![trigger cs[k1][i1], cs[k2][i2]]
        0 <= k1 < cs.len() && 0 <= i1 < cs[k1].len() && 0 <= k2 < cs.len() && 0 <= i2
            < cs[k2].len() && k1 != k2 ==> cs[k1][i1] != cs[k2][i2])
    &&& chain_value(s, cs[0]).len() == 8 * (cs.len() - 1)
    &&& (forall|k: int|
        1 <= k < cs.len() ==> le_at(chain_value(s, cs[0]), 8 * (k - 1), 8) == (#[trigger] cs[k])[0])
}

/// Assembles well-formedness of a store after one entry was added:
/// a fresh chain `gc1` now holds the value, and the directory chain grew
/// by one 8-byte pointer to it.
#[verifier::rlimit(100)]
#[verifier::spinoff_prover]
proof fn lemma_add_entry_wf(
    s0: Seq<u8>,
    s1: Seq<u8>,
    s2: Seq<u8>,
    s3: Seq<u8>,
    s4: Seq<u8>,
    cs0: Seq<Seq<int>>,
    cs: Seq<Seq<int>>,
    gc0: Seq<int>,
    gc1: Seq<int>,
    c1: Seq<int>,
    fk: int,
    buffer: Seq<u8>,
    kb: Seq<u8>,
)
    requires
        store_wf(s0, cs0),
        // allocation of the fresh head block
        fat_sized(s1),
        s1.len() >= s0.len(),
        fat_nblocks(s1) >= fat_nblocks(s0),
        forall|t: int| 0 <= t < s0.len() ==> s1[t] == s0[t],
        1 <= fk < fat_nblocks(s1),
        fat_used(s1, fk) == 0,
        // its initialisation
        fat_sized(s2),
        s2.len() == s1.len(),
        forall|t: int| 0 <= t < s1.len() && !(256 * fk <= t < 256 * fk + 16) ==> s2[t] == s1[t],
        fat_used(s2, fk) == 1,
        fat_size(s2, fk) == 0,
        fat_next(s2, fk) == 0,
        c1 == seq![fk],
        wf_chain(s2, c1),
        // appending the value to the fresh chain
        fat_sized(s3),
        s3.len() >= s2.len(),
        fat_nblocks(s3) >= fat_nblocks(s2),
        wf_chain(s3, gc1),
        gc1.subrange(0, 1) == c1,
        gc1.len() >= 1,
        chain_value(s3, gc1) == chain_value(s2, c1) + buffer,
        forall|i: int|
            1 <= i < gc1.len() ==> #[trigger] gc1[i] >= 1 && (gc1[i] >= fat_nblocks(s2) || fat_used(
                s2,
                gc1[i],
            ) == 0),
        forall|b: int|
            0 <= b < fat_nblocks(s2) && fat_used(s2, b) == 1 && !c1.contains(b)
                ==> #[trigger] block_agrees(s2, s3, b),
        // the directory chain as it stood before its append
        wf_chain(s3, cs0[0]),
        chain_value(s3, cs0[0]) == chain_value(s0, cs0[0]),
        // appending the pointer to the directory chain
        fat_sized(s4),
        s4.len() >= s3.len(),
        fat_nblocks(s4) >= fat_nblocks(s3),
        wf_chain(s4, gc0),
        gc0.subrange(0, cs0[0].len() as int) == cs0[0],
        gc0.len() >= cs0[0].len(),
        chain_value(s4, gc0) == chain_value(s3, cs0[0]) + kb,
        forall|i: int|
            cs0[0].len() <= i < gc0.len() ==> #[trigger] gc0[i] >= 1 && (gc0[i] >= fat_nblocks(s3)
                || fat_used(s3, gc0[i]) == 0),
        forall|b: int|
            0 <= b < fat_nblocks(s3) && fat_used(s3, b) == 1 && !cs0[0].contains(b)
                ==> #[trigger] block_agrees(s3, s4, b),
        kb == le_bytes(fk, 8),
        0 <= fk < pow256(8),
        cs == cs0.update(0, gc0).push(gc1),
    ensures
        store_wf(s4, cs),
        forall|j: int|
            0 <= j < cs0.len() - 1 ==> chain_value(s4, #[trigger] cs[j + 1]) == chain_value(
                s0,
                cs0[j + 1],
            ),
        chain_value(s4, cs[cs.len() - 1]) == buffer,
{
    let n = cs0.len() - 1;
    assert(cs.len() == cs0.len() + 1);
    assert(cs[0] == gc0);
    assert(cs[cs.len() - 1] == gc1);
    assert(forall|k: int| 1 <= k <= n ==> #[trigger] cs[k] == cs0[k]);
    assert(gc1[0] == fk) by {
        assert(gc1.subrange(0, 1)[0] == c1[0]);
    }
    // the fresh block is in no chain of the old store
    assert forall|k: int, i: int| 0 <= k < cs0.len() && 0 <= i < cs0[k].len() implies #[trigger] cs0[k][i]
        != fk by {
        assert(wf_block(s0, cs0[k][i]));
        lemma_block_in_range(s0, cs0[k][i]);
        if cs0[k][i] == fk {
            assert(block_agrees(s0, s1, fk)) by {
                assert forall|t: int| 256 * fk <= t < 256 * fk + 256 implies s1[t] == s0[t] by {}
            }
            lemma_le_at_agree(s0, s1, 256 * fk, 4);
        }
    }
    // blocks of the old chains keep their bytes through every step
    assert forall|k: int, i: int|
        1 <= k < cs0.len() && 0 <= i < cs0[k].len() implies #[trigger] block_agrees(
        s0,
        s4,
        cs0[k][i],
    ) && block_agrees(s0, s2, cs0[k][i]) && block_agrees(s0, s3, cs0[k][i]) by {
        let b = cs0[k][i];
        assert(wf_block(s0, b));
        lemma_block_in_range(s0, b);
        assert(b != fk);
        lemma_blocks_disjoint(b, fk);
        assert(block_agrees(s0, s2, b)) by {
            assert forall|t: int| 256 * b <= t < 256 * b + 256 implies s2[t] == s0[t] by {
                assert(s1[t] == s0[t]);
                assert(s2[t] == s1[t]);
            }
        }
        lemma_block_fields_agree(s0, s2, b);
        assert(!c1.contains(b)) by {
            if c1.contains(b) {
                assert(b == fk);
            }
        }
        assert(block_agrees(s2, s3, b));
        assert(block_agrees(s0, s3, b)) by {
            assert forall|t: int| 256 * b <= t < 256 * b + 256 implies s3[t] == s0[t] by {
                assert(s2[t] == s0[t]);
                assert(s3[t] == s2[t]);
            }
        }
        lemma_block_fields_agree(s0, s3, b);
        assert(!cs0[0].contains(b)) by {
            if cs0[0].contains(b) {
                let i0 = choose|i0: int| 0 <= i0 < cs0[0].len() && cs0[0][i0] == b;
                assert(cs0[0][i0] == cs0[k][i]);
            }
        }
        assert(block_agrees(s3, s4, b));
        assert(block_agrees(s0, s4, b)) by {
            assert forall|t: int| 256 * b <= t < 256 * b + 256 implies s4[t] == s0[t] by {
                assert(s3[t] == s0[t]);
                assert(s4[t] == s3[t]);
            }
        }
    }
    // hence the old entry chains are intact in the final store
    assert forall|k: int| 1 <= k < cs0.len() implies wf_chain(s4, #[trigger] cs0[k])
        && chain_value(s4, cs0[k]) == chain_value(s0, cs0[k]) by {
        assert forall|i: int| 0 <= i < cs0[k].len() implies #[trigger] block_agrees(
            s0,
            s4,
            cs0[k][i],
        ) by {
            assert(block_agrees(s0, s4, cs0[k][i]) && block_agrees(s0, s2, cs0[k][i])
                && block_agrees(s0, s3, cs0[k][i]));
        }
        lemma_chain_preserved(s0, s4, cs0[k]);
    }
    // the fresh chain is intact too: its blocks are outside the directory
    assert(chain_value(s2, c1) =~= Seq::<u8>::empty()) by {
        assert(chain_value(s2, c1) == fat_payload(s2, c1[0]) + chain_value(s2, c1.drop_first()));
        assert(c1.drop_first().len() == 0);
        lemma_block_in_range(s2, fk);
        assert(fat_payload(s2, fk).len() == 0);
    }
    assert(chain_value(s3, gc1) =~= buffer);
    assert forall|i: int| 0 <= i < gc1.len() implies !cs0[0].contains(#[trigger] gc1[i]) by {
        if cs0[0].contains(gc1[i]) {
            let i0 = choose|i0: int| 0 <= i0 < cs0[0].len() && cs0[0][i0] == gc1[i];
            let b = cs0[0][i0];
            assert(wf_block(s0, b));
            lemma_block_in_range(s0, b);
            assert(b != fk);
            if i == 0 {
                assert(gc1[0] == fk);
            } else {
                assert(gc1[i] >= fat_nblocks(s2) || fat_used(s2, gc1[i]) == 0);
                lemma_blocks_disjoint(b, fk);
                assert(block_agrees(s0, s2, b)) by {
                    assert forall|t: int| 256 * b <= t < 256 * b + 256 implies s2[t] == s0[t] by {
                        assert(s1[t] == s0[t]);
                        assert(s2[t] == s1[t]);
                    }
                }
                lemma_block_fields_agree(s0, s2, b);
            }
        }
    }
    assert forall|i: int| 0 <= i < gc1.len() implies #[trigger] block_agrees(s3, s4, gc1[i]) by {
        assert(wf_block(s3, gc1[i]));
    }
    lemma_chain_preserved(s3, s4, gc1);
    assert(chain_value(s4, gc1) == buffer);
    // the new directory value and its pointers
    let dv0 = chain_value(s0, cs0[0]);
    let dv = chain_value(s4, gc0);
    assert(dv == dv0 + kb);
    assert(dv.len() == 8 * (cs.len() - 1));
    assert forall|k: int| 1 <= k < cs.len() implies le_at(dv, 8 * (k - 1), 8) == (
    #[trigger] cs[k])[0] by {
        if k <= n {
            assert(forall|t: int| 0 <= t < dv0.len() ==> dv[t] == dv0[t]);
            lemma_le_at_agree(dv, dv0, 8 * (k - 1), 8);
            assert(le_at(dv0, 8 * (k - 1), 8) == cs0[k][0]);
            assert(cs[k] == cs0[k]);
        } else {
            assert(k == n + 1);
            assert forall|j: int| 0 <= j < 8 implies dv[8 * n + j] == kb[j] by {
                assert(dv[dv0.len() + j] == kb[j]);
            }
            lemma_le_at_of_le_bytes(dv, 8 * n, 8, fk);
            assert(cs[k] == gc1);
        }
    }
    // no two chains of the new store share a block
    assert forall|j1: int, j2: int, k: int|
        0 <= j1 < gc1.len() && 1 <= k <= n && 0 <= j2 < cs0[k].len() implies #[trigger] gc1[j1]
        != #[trigger] cs0[k][j2] by {
        let b = cs0[k][j2];
        assert(wf_block(s0, b));
        lemma_block_in_range(s0, b);
        if j1 == 0 {
            assert(gc1[0] == fk && b != fk);
        } else {
            assert(gc1[j1] >= fat_nblocks(s2) || fat_used(s2, gc1[j1]) == 0);
            assert(block_agrees(s0, s2, b));
            lemma_block_fields_agree(s0, s2, b);
        }
    }
    assert forall|j1: int, j2: int, k: int|
        0 <= j1 < gc0.len() && 1 <= k <= n && 0 <= j2 < cs0[k].len() implies #[trigger] gc0[j1]
        != #[trigger] cs0[k][j2] by {
        let b = cs0[k][j2];
        assert(wf_block(s0, b));
        if j1 < cs0[0].len() {
            assert(gc0.subrange(0, cs0[0].len() as int)[j1] == cs0[0][j1]);
            assert(gc0[j1] == cs0[0][j1]);
        } else {
            assert(gc0[j1] >= fat_nblocks(s3) || fat_used(s3, gc0[j1]) == 0);
            assert(block_agrees(s0, s4, b));
            assert(block_agrees(s0, s3, b));
            lemma_block_in_range(s0, b);
            lemma_block_fields_agree(s0, s3, b);
        }
    }
    assert forall|j1: int, j2: int| 0 <= j1 < gc0.len() && 0 <= j2 < gc1.len() implies #[trigger] gc0[j1]
        != #[trigger] gc1[j2] by {
        assert(wf_block(s3, gc1[j2]));
        if j1 < cs0[0].len() {
            assert(gc0.subrange(0, cs0[0].len() as int)[j1] == cs0[0][j1]);
            assert(gc0[j1] == cs0[0][j1]);
            assert(!cs0[0].contains(gc1[j2]));
            if gc0[j1] == gc1[j2] {
                assert(cs0[0][j1] == gc1[j2]);
                assert(cs0[0].contains(gc1[j2]));
            }
        } else {
            assert(gc0[j1] >= fat_nblocks(s3) || fat_used(s3, gc0[j1]) == 0);
        }
    }
    // assemble well-formedness
    assert(store_wf(s4, cs)) by {
        assert(cs[0][0] == 0) by {
            assert(gc0.subrange(0, cs0[0].len() as int)[0] == cs0[0][0]);
        }
        assert forall|k: int| 0 <= k < cs.len() implies wf_chain(s4, #[trigger] cs[k]) by {
            if k == 0 {
            } else if k <= n {
                assert(cs[k] == cs0[k]);
                assert(wf_chain(s4, cs0[k]));
            } else {
                assert(cs[k] == gc1);
                assert(wf_chain(s4, gc1));
            }
        }
        assert forall|k1: int, i1: int, k2: int, i2: int|
            #![trigger cs[k1][i1], cs[k2][i2]]
            0 <= k1 < cs.len() && 0 <= i1 < cs[k1].len() && 0 <= k2 < cs.len() && 0 <= i2
                < cs[k2].len() && k1 != k2 implies cs[k1][i1] != cs[k2][i2] by {
            if k1 == 0 {
                if k2 <= n {
                    assert(cs[k1] == gc0 && cs[k2] == cs0[k2]);
                } else {
                    assert(cs[k1] == gc0 && cs[k2] == gc1);
                }
            } else if k1 <= n {
                if k2 == 0 {
                    assert(cs[k2] == gc0 && cs[k1] == cs0[k1]);
                } else if k2 <= n {
                    assert(cs[k1] == cs0[k1] && cs[k2] == cs0[k2]);
                } else {
                    assert(cs[k2] == gc1 && cs[k1] == cs0[k1]);
                }
            } else {
                assert(cs[k1] == gc1);
                if k2 == 0 {
                    assert(cs[k2] == gc0);
                } else {
                    assert(cs[k2] == cs0[k2]);
                }
            }
        }
    }
}

/// A key handed out by [`VariableExtent::add_entry`]: the directory index.
#[derive(Clone, Debug, PartialEq)]
pub struct Key {
    pub index: usize,
}

/// The lookup failure of the store: an unknown directory index.
#[derive(Clone, Copy, PartialEq, Eq, Debug)]
pub enum StoreError {
    InvalidKey,
}

/// A store of arbitrary-length byte strings over an extent of FAT blocks.
pub struct VariableExtent<ExtentT: Extent> {
    data_store: ExtentT,
    chains: Ghost<Seq<Seq<int>>>,
}

impl<ExtentT: Extent> VariableExtent<ExtentT> {
    /// The bytes of the owned extent.
    pub closed spec fn storage(&self) -> Seq<u8> {
        self.data_store.bytes()
    }

    /// The block chains: element 0 is the directory's chain, element
    /// `k + 1` the chain of entry `k`.
    pub closed spec fn all_chains(&self) -> Seq<Seq<int>> {
        self.chains@
    }

    /// Well-formedness: every chain is well formed, no two chains share a
    /// block, block 0 heads the directory, and the directory's value packs
    /// one 8-byte head-block number per entry.
    pub open spec fn wf(&self) -> bool {
        store_wf(self.storage(), self.all_chains())
    }

    /// The number of stored entries.
    pub open spec fn num_entries(&self) -> int {
        self.all_chains().len() - 1
    }

    /// The stored byte strings, by key.
    pub open spec fn entries(&self) -> Seq<Seq<u8>> {
        Seq::new(
            (self.all_chains().len() - 1) as nat,
            |k: int| chain_value(self.storage(), self.all_chains()[k + 1]),
        )
    }

    /// Reads the `used` flag of a block.
    fn get_block_used(&self, block: usize) -> (r: u64)
        requires
            fat_sized(self.storage()),
            block < fat_nblocks(self.storage()),
        ensures
            r == fat_used(self.storage(), block as int),
    {
        let total = self.data_store.len();
        proof {
            lemma_block_in_range(self.storage(), block as int);
        }
        read_le(&self.data_store, block * FAT_BLOCK_SIZE, 4)
    }

    /// Reads the payload size of a block.
    fn get_block_size(&self, block: usize) -> (r: u64)
        requires
            fat_sized(self.storage()),
            block < fat_nblocks(self.storage()),
        ensures
            r == fat_size(self.storage(), block as int),
    {
        let total = self.data_store.len();
        proof {
            lemma_block_in_range(self.storage(), block as int);
        }
        read_le(&self.data_store, block * FAT_BLOCK_SIZE + 4, 4)
    }

    /// Reads the continuation block number of a block.
    fn get_next_block(&self, block: usize) -> (r: usize)
        requires
            fat_sized(self.storage()),
            block < fat_nblocks(self.storage()),
            fat_next(self.storage(), block as int) <= usize::MAX,
        ensures
            r as int == fat_next(self.storage(), block as int),
    {
        let total = self.data_store.len();
        proof {
            lemma_block_in_range(self.storage(), block as int);
        }
        let v = read_le(&self.data_store, block * FAT_BLOCK_SIZE + 8, 8);
        v as usize
    }

    /// Sets the payload size of a block, touching only that field.
    fn set_block_size(&mut self, block: usize, new_size: usize)
        requires
            fat_sized(old(self).storage()),
            block < fat_nblocks(old(self).storage()),
            new_size <= 0xffff_ffff,
        ensures
            final(self).all_chains() == old(self).all_chains(),
            final(self).storage().len() == old(self).storage().len(),
            forall|t: int|
                0 <= t < old(self).storage().len() && !(256 * block + 4 <= t < 256 * block + 8)
                    ==> final(self).storage()[t] == old(self).storage()[t],
            fat_size(final(self).storage(), block as int) == new_size,
            fat_used(final(self).storage(), block as int) == fat_used(
                old(self).storage(),
                block as int,
            ),
            fat_next(final(self).storage(), block as int) == fat_next(
                old(self).storage(),
                block as int,
            ),
    {
        let total = self.data_store.len();
        proof {
            lemma_block_in_range(self.storage(), block as int);
            lemma_pow256_values();
        }
        write_le(&mut self.data_store, block * FAT_BLOCK_SIZE + 4, 4, new_size as u64);
        proof {
            lemma_le_at_agree(final(self).storage(), old(self).storage(), 256 * (block as int), 4);
            lemma_le_at_agree(
                final(self).storage(),
                old(self).storage(),
                256 * (block as int) + 8,
                8,
            );
        }
    }

    /// Sets the continuation block number of a block, touching only that
    /// field.
    fn set_next_block(&mut self, block: usize, next_block: usize)
        requires
            fat_sized(old(self).storage()),
            block < fat_nblocks(old(self).storage()),
        ensures
            final(self).all_chains() == old(self).all_chains(),
            final(self).storage().len() == old(self).storage().len(),
            forall|t: int|
                0 <= t < old(self).storage().len() && !(256 * block + 8 <= t < 256 * block + 16)
                    ==> final(self).storage()[t] == old(self).storage()[t],
            fat_next(final(self).storage(), block as int) == next_block,
            fat_used(final(self).storage(), block as int) == fat_used(
                old(self).storage(),
                block as int,
            ),
            fat_size(final(self).storage(), block as int) == fat_size(
                old(self).storage(),
                block as int,
            ),
    {
        let total = self.data_store.len();
        proof {
            lemma_block_in_range(self.storage(), block as int);
            lemma_pow256_values();
        }
        write_le(&mut self.data_store, block * FAT_BLOCK_SIZE + 8, 8, next_block as u64);
        proof {
            lemma_le_at_agree(final(self).storage(), old(self).storage(), 256 * (block as int), 4);
            lemma_le_at_agree(
                final(self).storage(),
                old(self).storage(),
                256 * (block as int) + 4,
                4,
            );
        }
    }

    /// Marks a block allocated, with no payload and no continuation.
    fn initilize_block(&mut self, block_num: usize)
        requires
            fat_sized(old(self).storage()),
            block_num < fat_nblocks(old(self).storage()),
        ensures
            final(self).all_chains() == old(self).all_chains(),
            final(self).storage().len() == old(self).storage().len(),
            forall|t: int|
                0 <= t < old(self).storage().len() && !(256 * block_num <= t < 256 * block_num
                    + 16) ==> final(self).storage()[t] == old(self).storage()[t],
            fat_used(final(self).storage(), block_num as int) == 1,
            fat_size(final(self).storage(), block_num as int) == 0,
            fat_next(final(self).storage(), block_num as int) == 0,
    {
        let total = self.data_store.len();
        proof {
            lemma_block_in_range(self.storage(), block_num as int);
        }
        let block_start = block_num * FAT_BLOCK_SIZE;
        let mut header: Vec<u8> = Vec::new();
        header.push(1u8);
        let mut hj: usize = 1;
        while hj < 16
            invariant
                1 <= hj <= 16,
                header@.len() == hj,
                header@[0] == 1u8,
                forall|t: int| 1 <= t < hj ==> header@[t] == 0u8,
            decreases 16 - hj,
        {
            header.push(0u8);
            hj = hj + 1;
        }
        crate::extent::write_bytes(&mut self.data_store, block_start, &header);
        proof {
            let sf = self.storage();
            let bs = 256 * (block_num as int);
            assert(sf[bs + 0] == 1u8);
            assert(forall|t: int| 1 <= t < 16 ==> #[trigger] sf[bs + t] == 0u8);
            assert forall|t: int| 0 <= t < 3 implies #[trigger] sf[(bs + 1) + t] == 0u8 by {
                assert(sf[bs + (t + 1)] == 0u8);
            }
            lemma_le_at_zero(sf, bs + 1, 3);
            assert(fat_used(sf, block_num as int) == sf[bs] + 256 * le_at(sf, bs + 1, 3));
            assert forall|t: int| 0 <= t < 4 implies #[trigger] sf[(bs + 4) + t] == 0u8 by {
                assert(sf[bs + (t + 4)] == 0u8);
            }
            lemma_le_at_zero(sf, bs + 4, 4);
            assert forall|t: int| 0 <= t < 8 implies #[trigger] sf[(bs + 8) + t] == 0u8 by {
                assert(sf[bs + (t + 8)] == 0u8);
            }
            lemma_le_at_zero(sf, bs + 8, 8);
        }
    }

    /// Finds a free FAT block, growing the extent by one zero-filled
    /// block if every block is allocated. Does not initialise it.
    fn find_free_entery(&mut self) -> (r: usize)
        requires
            fat_sized(old(self).storage()),
            old(self).storage().len() + 256 <= usize::MAX,
        ensures
            final(self).all_chains() == old(self).all_chains(),
            fat_sized(final(self).storage()),
            old(self).storage().len() <= final(self).storage().len() <= old(self).storage().len()
                + 256,
            fat_nblocks(final(self).storage()) >= fat_nblocks(old(self).storage()),
            forall|t: int|
                0 <= t < old(self).storage().len() ==> final(self).storage()[t] == old(self).storage()[t],
            forall|t: int|
                old(self).storage().len() <= t < final(self).storage().len() ==> final(self).storage()[t] == 0,
            1 <= r < fat_nblocks(final(self).storage()),
            fat_used(final(self).storage(), r as int) == 0,
            // first fit: every earlier candidate block is allocated
            forall|b: int| 1 <= b < r ==> fat_used(old(self).storage(), b) != 0,
            // the extent grows, by exactly one block, only when no block is free
            (r as int) < fat_nblocks(old(self).storage()) ==> final(self).storage() == old(
                self,
            ).storage(),
            (r as int) >= fat_nblocks(old(self).storage()) ==> (r as int) == fat_nblocks(
                old(self).storage(),
            ) && final(self).storage().len() == old(self).storage().len() + 256,
    {
        let total = self.data_store.len();
        let nb = total / FAT_BLOCK_SIZE;
        proof {
            lemma_fundamental_div_mod(total as int, 256);
        }
        let mut i: usize = 1;
        while i < nb
            invariant
                *self == *old(self),
                fat_sized(self.storage()),
                total == self.storage().len(),
                total + 256 <= usize::MAX,
                nb == fat_nblocks(self.storage()),
                1 <= i,
                forall|b: int| 1 <= b < i ==> fat_used(self.storage(), b) != 0,
            decreases nb - i,
        {
            if self.get_block_used(i) == 0 {
                return i;
            }
            i = i + 1;
        }
        let new_key = nb;
        self.data_store.resize(total + FAT_BLOCK_SIZE);
        proof {
            let sf = self.storage();
            vstd::arithmetic::div_mod::lemma_mod_multiples_basic(nb as int + 1, 256);
            vstd::arithmetic::div_mod::lemma_div_multiples_vanish(nb as int + 1, 256);
            assert(256 * (nb as int + 1) == (nb as int + 1) * 256) by (nonlinear_arith);
            assert(sf.len() == 256 * (nb as int + 1));
            assert(fat_nblocks(sf) == nb + 1);
            lemma_block_in_range(sf, nb as int);
            assert(forall|t: int|
                total <= t < sf.len() ==> #[trigger] sf[t] == 0);
            assert forall|j: int| 0 <= j < 4 implies #[trigger] sf[256 * (nb as int) + j] == 0 by {
                assert(256 * (nb as int) + j >= total);
            }
            lemma_le_at_zero(sf, 256 * (nb as int), 4);
        }
        new_key
    }

    /// Appends `data` to the value held by the chain `c`, allocating and
    /// linking fresh blocks as the payload spills over.
    #[verifier::rlimit(100)]
    #[verifier::spinoff_prover]
    fn append_block(&mut self, block_num: usize, data: &Vec<u8>, Ghost(c): Ghost<Seq<int>>) -> (res:
        Ghost<Seq<int>>)
        requires
            fat_sized(old(self).storage()),
            wf_chain(old(self).storage(), c),
            c[0] == block_num,
            old(self).storage().len() + 256 * (data@.len() + 2) <= usize::MAX,
        ensures
            final(self).all_chains() == old(self).all_chains(),
            fat_sized(final(self).storage()),
            final(self).storage().len() >= old(self).storage().len(),
            final(self).storage().len() <= old(self).storage().len() + 256 * (data@.len() + 1),
            fat_nblocks(final(self).storage()) >= fat_nblocks(old(self).storage()),
            wf_chain(final(self).storage(), res@),
            res@.len() >= c.len(),
            res@.subrange(0, c.len() as int) == c,
            chain_value(final(self).storage(), res@) == chain_value(old(self).storage(), c)
                + data@,
            forall|i: int|
                c.len() <= i < res@.len() ==> #[trigger] res@[i] >= 1 && (res@[i] >= fat_nblocks(
                    old(self).storage(),
                ) || fat_used(old(self).storage(), res@[i]) == 0),
            forall|b: int|
                0 <= b < fat_nblocks(old(self).storage()) && fat_used(old(self).storage(), b) == 1
                    && !c.contains(b) ==> #[trigger] block_agrees(
                    old(self).storage(),
                    final(self).storage(),
                    b,
                ),
    {
        let ghost s0 = old(self).storage();
        let ghost dlen = data@.len() as int;
        let dn = data.len();
        // walk to the terminal block of the chain
        let mut cur = block_num;
        let ghost mut pos: int = 0;
        loop
            invariant_except_break
                *self == *old(self),
                fat_sized(s0),
                s0 == self.storage(),
                wf_chain(s0, c),
                0 <= pos < c.len(),
                c[pos] == cur,
            ensures
                *self == *old(self),
                0 <= pos == c.len() - 1,
                c[pos] == cur,
            decreases c.len() - pos,
        {
            let total = self.data_store.len();
            proof {
                lemma_fundamental_div_mod(s0.len() as int, 256);
                if pos < c.len() - 1 {
                    assert(fat_next(s0, c[pos]) == c[pos + 1]);
                    assert(wf_block(s0, c[pos + 1]));
                }
            }
            let next = self.get_next_block(cur);
            if next == 0 {
                proof {
                    if pos < c.len() - 1 {
                        assert(c[pos + 1] >= 1);
                    }
                    assert(pos == c.len() - 1);
                }
                break;
            }
            proof {
                if pos == c.len() - 1 {
                    assert(fat_next(s0, c[pos]) == 0);
                }
                pos = pos + 1;
            }
            cur = next;
        }
        // fill the tail, allocating fresh blocks for what does not fit
        let mut start_index: usize = 0;
        let ghost mut gc: Seq<int> = c;
        loop
            invariant
                self.all_chains() == old(self).all_chains(),
                fat_sized(self.storage()),
                fat_sized(s0),
                s0 == old(self).storage(),
                wf_chain(s0, c),
                c[0] == block_num,
                self.storage().len() >= s0.len(),
                fat_nblocks(self.storage()) >= fat_nblocks(s0),
                wf_chain(self.storage(), gc),
                0 <= pos == gc.len() - 1,
                gc[pos] == cur,
                gc.len() >= c.len(),
                gc.subrange(0, c.len() as int) == c,
                start_index <= dn,
                dn == dlen == data@.len(),
                chain_value(self.storage(), gc) == chain_value(s0, c) + data@.take(
                    start_index as int,
                ),
                self.storage().len() <= s0.len() + 256 * (gc.len() - c.len()),
                fat_size(self.storage(), gc[pos]) == 0 || gc.len() == c.len(),
                self.storage().len() + 256 * ((dlen - start_index) + 2) <= usize::MAX || (gc.len()
                    > c.len() && self.storage().len() + 256 * ((dlen - start_index) + 1)
                    <= usize::MAX),
                forall|i: int|
                    c.len() <= i < gc.len() ==> #[trigger] gc[i] >= 1 && (gc[i] >= fat_nblocks(s0)
                        || fat_used(s0, gc[i]) == 0),
                forall|b: int|
                    0 <= b < fat_nblocks(s0) && !gc.contains(b) ==> #[trigger] block_agrees(
                        s0,
                        self.storage(),
                        b,
                    ),
            decreases dlen - start_index, fat_size(self.storage(), gc[pos]) + 1,
        {
            let ghost s_top = self.storage();
            let total = self.data_store.len();
            proof {
                lemma_block_in_range(s_top, cur as int);
            }
            let size64 = self.get_block_size(cur);
            proof {
                assert(fat_size(s_top, cur as int) <= 240);
            }
            let size = size64 as usize;
            let remaining = dn - start_index;
            let copy_size = if FAT_USABLE_SIZE - size < remaining {
                FAT_USABLE_SIZE - size
            } else {
                remaining
            };
            self.fill_tail(cur, data, start_index, copy_size, Ghost(gc));
            let ghost s_mid = self.storage();
            proof {
                let add = data@.subrange(start_index as int, start_index + copy_size);
                assert(data@.take(start_index as int) + add =~= data@.take(
                    start_index + copy_size,
                ));
                // untouched blocks stay untouched
                assert forall|b: int|
                    0 <= b < fat_nblocks(s0) && !gc.contains(b) implies #[trigger] block_agrees(
                    s0,
                    s_mid,
                    b,
                ) by {
                    assert(block_agrees(s0, s_top, b));
                    lemma_block_in_range(s0, b);
                    assert(block_agrees(s_top, s_mid, b));
                    assert forall|t: int| 256 * b <= t < 256 * b + 256 implies s_mid[t] == s0[t] by {
                        assert(s_top[t] == s0[t]);
                        assert(s_mid[t] == s_top[t]);
                    }
                }
            }
            start_index = start_index + copy_size;
            if start_index == dn {
                proof {
                    assert(data@.take(start_index as int) =~= data@);
                    lemma_chain_value_len(self.storage(), gc);
                    lemma_chain_value_len(s0, c);
                    assert(240 * (gc.len() - c.len()) <= dlen + 240);
                    assert(self.storage().len() <= s0.len() + 256 * (dlen + 1));
                    assert forall|b: int|
                        0 <= b < fat_nblocks(s0) && fat_used(s0, b) == 1 && !c.contains(
                            b,
                        ) implies #[trigger] block_agrees(s0, self.storage(), b) by {
                        assert(!gc.contains(b)) by {
                            if gc.contains(b) {
                                let gi = choose|gi: int| 0 <= gi < gc.len() && gc[gi] == b;
                                if gi < c.len() {
                                    assert(gc.subrange(0, c.len() as int)[gi] == c[gi]);
                                    assert(c.contains(b));
                                } else {
                                    assert(gc[gi] >= fat_nblocks(s0) || fat_used(s0, gc[gi])
                                        == 0);
                                }
                            }
                        }
                        assert(block_agrees(s0, s_mid, b));
                    }
                }
                return Ghost(gc);
            }
            // the tail is full: allocate, link and continue in a fresh block
            proof {
                assert(copy_size == FAT_USABLE_SIZE - size);
                assert(fat_size(s_mid, cur as int) == 240);
            }
            let ghost s_call = self.storage();
            let (next_block, Ghost(gc2)) = self.grow_chain(cur, Ghost(gc));
            proof {
                let s_link = self.storage();
                assert(chain_value(s_link, gc2) == chain_value(s0, c) + data@.take(
                    start_index as int,
                ));
                assert(gc2.subrange(0, c.len() as int) =~= gc.subrange(0, c.len() as int));
                // the fresh block was free, or beyond the extent, when the call began
                assert((next_block as int) >= fat_nblocks(s0) || fat_used(s0, next_block as int)
                    == 0) by {
                    if (next_block as int) < fat_nblocks(s0) {
                        assert(block_agrees(s0, s_call, next_block as int));
                        lemma_block_in_range(s0, next_block as int);
                        lemma_le_at_agree(s0, s_call, 256 * (next_block as int), 4);
                        assert((next_block as int) < fat_nblocks(s_call));
                        assert(fat_used(s_call, next_block as int) == 0);
                    }
                }
                // untouched blocks stay untouched
                assert forall|b: int|
                    0 <= b < fat_nblocks(s0) && !gc2.contains(b) implies #[trigger] block_agrees(
                    s0,
                    s_link,
                    b,
                ) by {
                    assert(!gc.contains(b)) by {
                        if gc.contains(b) {
                            let gi = choose|gi: int| 0 <= gi < gc.len() && gc[gi] == b;
                            assert(gc2[gi] == gc[gi]);
                            assert(gc2.contains(b));
                        }
                    }
                    assert(b != next_block as int) by {
                        assert(gc2[gc2.len() - 1] == next_block as int);
                        if b == next_block as int {
                            assert(gc2.contains(b));
                        }
                    }
                    assert(block_agrees(s0, s_call, b));
                    lemma_block_in_range(s0, b);
                    assert(block_agrees(s_call, s_link, b));
                    assert forall|t: int| 256 * b <= t < 256 * b + 256 implies s_link[t] == s0[t] by {
                        assert(s_call[t] == s0[t]);
                        assert(s_link[t] == s_call[t]);
                    }
                }
                gc = gc2;
                pos = pos + 1;
            }
            cur = next_block;
        }
    }

    /// Copies `copy_size` bytes of `data` (from `start_index`) onto the
    /// end of the tail block `cur` of the chain `gc`.
    #[verifier::rlimit(100)]
    #[verifier::spinoff_prover]
    fn fill_tail(
        &mut self,
        cur: usize,
        data: &Vec<u8>,
        start_index: usize,
        copy_size: usize,
        Ghost(gc): Ghost<Seq<int>>,
    )
        requires
            fat_sized(old(self).storage()),
            wf_chain(old(self).storage(), gc),
            gc[gc.len() - 1] == cur,
            start_index + copy_size <= data@.len(),
            fat_size(old(self).storage(), cur as int) + copy_size <= 240,
        ensures
            final(self).all_chains() == old(self).all_chains(),
            final(self).storage().len() == old(self).storage().len(),
            fat_sized(final(self).storage()),
            wf_chain(final(self).storage(), gc),
            fat_size(final(self).storage(), cur as int) == fat_size(
                old(self).storage(),
                cur as int,
            ) + copy_size,
            chain_value(final(self).storage(), gc) == chain_value(old(self).storage(), gc)
                + data@.subrange(start_index as int, start_index + copy_size),
            forall|b: int|
                0 <= b < fat_nblocks(old(self).storage()) && !gc.contains(b)
                    ==> #[trigger] block_agrees(old(self).storage(), final(self).storage(), b),
    {
        let ghost s_top = self.storage();
        let total = self.data_store.len();
        proof {
            lemma_block_in_range(s_top, cur as int);
        }
        let size64 = self.get_block_size(cur);
        proof {
            assert(fat_size(s_top, cur as int) <= 240);
        }
        let size = size64 as usize;
        write_slice(
            &mut self.data_store,
            cur * FAT_BLOCK_SIZE + FAT_HEADER_SIZE + size,
            data,
            start_index,
            copy_size,
        );
        let ghost s_w = self.storage();
        proof {
            lemma_le_at_agree(s_top, s_w, 256 * (cur as int), 4);
            lemma_le_at_agree(s_top, s_w, 256 * (cur as int) + 4, 4);
            lemma_le_at_agree(s_top, s_w, 256 * (cur as int) + 8, 8);
        }
        self.set_block_size(cur, size + copy_size);
        proof {
            let s_mid = self.storage();
            let add = data@.subrange(start_index as int, start_index + copy_size);
            assert(fat_used(s_mid, cur as int) == fat_used(s_top, cur as int));
            assert(fat_next(s_mid, cur as int) == fat_next(s_top, cur as int));
            assert forall|i: int| 0 <= i < gc.len() - 1 implies #[trigger] block_agrees(
                s_top,
                s_mid,
                gc[i],
            ) by {
                lemma_blocks_disjoint(gc[i], cur as int);
                lemma_block_in_range(s_top, gc[i]);
            }
            assert forall|j: int| 0 <= j < add.len() implies #[trigger] s_mid[256 * (cur as int)
                + 16 + fat_size(s_top, cur as int) + j] == add[j] by {
                assert(s_mid[(cur * FAT_BLOCK_SIZE + FAT_HEADER_SIZE + size) + j] == data@[
                    start_index + j]);
            }
            lemma_chain_tail_extend(s_top, s_mid, gc, add);
            assert forall|b: int| 0 <= b < fat_nblocks(s_top) && !gc.contains(b) implies #[trigger] block_agrees(
                s_top,
                s_mid,
                b,
            ) by {
                assert(gc[gc.len() - 1] == cur as int);
                assert(b != cur as int) by {
                    if b == cur as int {
                        assert(gc.contains(b));
                    }
                }
                lemma_blocks_disjoint(b, cur as int);
                lemma_block_in_range(s_top, b);
            }
        }
    }

    /// Allocates a fresh block, initialises it, and links it after the
    /// full tail block `cur` of the chain `gc`.
    #[verifier::rlimit(100)]
    #[verifier::spinoff_prover]
    fn grow_chain(&mut self, cur: usize, Ghost(gc): Ghost<Seq<int>>) -> (res: (
        usize,
        Ghost<Seq<int>>,
    ))
        requires
            fat_sized(old(self).storage()),
            wf_chain(old(self).storage(), gc),
            gc[gc.len() - 1] == cur,
            fat_size(old(self).storage(), cur as int) == 240,
            old(self).storage().len() + 256 <= usize::MAX,
        ensures
            final(self).all_chains() == old(self).all_chains(),
            fat_sized(final(self).storage()),
            old(self).storage().len() <= final(self).storage().len() <= old(self).storage().len()
                + 256,
            fat_nblocks(final(self).storage()) >= fat_nblocks(old(self).storage()),
            res.1@ == gc.push(res.0 as int),
            res.0 >= 1,
            !gc.contains(res.0 as int),
            res.0 as int >= fat_nblocks(old(self).storage()) || fat_used(
                old(self).storage(),
                res.0 as int,
            ) == 0,
            wf_chain(final(self).storage(), res.1@),
            fat_size(final(self).storage(), res.0 as int) == 0,
            chain_value(final(self).storage(), res.1@) == chain_value(old(self).storage(), gc),
            forall|b: int|
                0 <= b < fat_nblocks(old(self).storage()) && !gc.contains(b) && b != res.0 as int
                    ==> #[trigger] block_agrees(
                    old(self).storage(),
                    final(self).storage(),
                    b,
                ),
    {
        let ghost s_mid = self.storage();
        let next_block = self.find_free_entery();
        let ghost s_grown = self.storage();
        proof {
            assert forall|i: int| 0 <= i < gc.len() implies #[trigger] block_agrees(
                s_mid,
                s_grown,
                gc[i],
            ) by {
                lemma_block_in_range(s_mid, gc[i]);
            }
            lemma_chain_preserved(s_mid, s_grown, gc);
            assert forall|i: int| 0 <= i < gc.len() implies gc[i] != next_block as int by {
                assert(wf_block(s_grown, gc[i]));
            }
        }
        self.initilize_block(next_block);
        let ghost s_init = self.storage();
        proof {
            assert forall|i: int| 0 <= i < gc.len() implies #[trigger] block_agrees(
                s_grown,
                s_init,
                gc[i],
            ) by {
                lemma_blocks_disjoint(gc[i], next_block as int);
                lemma_block_in_range(s_grown, gc[i]);
            }
            lemma_chain_preserved(s_grown, s_init, gc);
        }
        self.set_next_block(cur, next_block);
        proof {
            let s_link = self.storage();
            assert((next_block as int) != (cur as int)) by {
                assert(fat_used(s_grown, cur as int) == 1);
            }
            assert forall|i: int| 0 <= i < gc.len() implies #[trigger] fat_payload(
                s_link,
                gc[i],
            ) == fat_payload(s_init, gc[i]) && fat_used(s_link, gc[i]) == fat_used(
                s_init,
                gc[i],
            ) && fat_size(s_link, gc[i]) == fat_size(s_init, gc[i]) by {
                if gc[i] == cur as int {
                    lemma_block_in_range(s_init, cur as int);
                    assert(fat_payload(s_link, cur as int) =~= fat_payload(s_init, cur as int));
                } else {
                    lemma_blocks_disjoint(gc[i], cur as int);
                    lemma_block_in_range(s_init, gc[i]);
                    assert(block_agrees(s_init, s_link, gc[i]));
                    lemma_block_fields_agree(s_init, s_link, gc[i]);
                }
            }
            assert forall|i: int| 0 <= i < gc.len() - 1 implies #[trigger] fat_next(
                s_link,
                gc[i],
            ) == fat_next(s_init, gc[i]) by {
                lemma_blocks_disjoint(gc[i], cur as int);
                lemma_block_in_range(s_init, gc[i]);
                assert(block_agrees(s_init, s_link, gc[i]));
                lemma_block_fields_agree(s_init, s_link, gc[i]);
            }
            assert(fat_used(s_link, next_block as int) == fat_used(s_init, next_block as int)
                && fat_size(s_link, next_block as int) == fat_size(s_init, next_block as int)
                && fat_next(s_link, next_block as int) == fat_next(s_init, next_block as int)) by {
                lemma_blocks_disjoint(next_block as int, cur as int);
                lemma_block_in_range(s_init, next_block as int);
                assert(block_agrees(s_init, s_link, next_block as int));
                lemma_block_fields_agree(s_init, s_link, next_block as int);
            }
            let gc2 = gc.push(next_block as int);
            assert(wf_chain(s_link, gc2)) by {
                assert forall|i: int| 0 <= i < gc2.len() implies wf_block(
                    s_link,
                    #[trigger] gc2[i],
                ) by {
                    if i < gc.len() {
                        assert(gc2[i] == gc[i]);
                        assert(wf_block(s_init, gc[i]));
                        assert(fat_payload(s_link, gc[i]) == fat_payload(s_init, gc[i]));
                    } else {
                        assert(gc2[i] == next_block as int);
                        assert(fat_used(s_init, next_block as int) == 1);
                        assert(fat_size(s_init, next_block as int) == 0);
                    }
                }
                assert forall|i: int| 1 <= i < gc2.len() implies #[trigger] gc2[i] >= 1 by {
                    if i < gc.len() {
                        assert(gc2[i] == gc[i]);
                    }
                }
                assert forall|i: int| 0 <= i < gc2.len() - 1 implies fat_next(
                    s_link,
                    #[trigger] gc2[i],
                ) == gc2[i + 1] && fat_size(s_link, gc2[i]) == 240 by {
                    if i < gc.len() - 1 {
                        assert(gc2[i] == gc[i] && gc2[i + 1] == gc[i + 1]);
                        assert(fat_next(s_init, gc[i]) == gc[i + 1]);
                        assert(fat_payload(s_link, gc[i]) == fat_payload(s_init, gc[i]));
                    } else {
                        assert(gc2[i] == cur as int && gc2[i + 1] == next_block as int);
                        assert(fat_payload(s_link, gc[gc.len() - 1]) == fat_payload(
                            s_init,
                            gc[gc.len() - 1],
                        ));
                    }
                }
                assert(gc2[gc2.len() - 1] == next_block as int);
                assert(fat_next(s_link, next_block as int) == 0);
            }
            lemma_chain_value_payloads(s_init, s_link, gc);
            lemma_chain_value_push(s_link, gc, next_block as int);
            assert(fat_payload(s_link, next_block as int) =~= Seq::<u8>::empty());
            assert(chain_value(s_link, gc2) =~= chain_value(s_mid, gc));
            assert((next_block as int) >= fat_nblocks(s_mid) || fat_used(
                s_mid,
                next_block as int,
            ) == 0) by {
                if (next_block as int) < fat_nblocks(s_mid) {
                    lemma_block_in_range(s_mid, next_block as int);
                    lemma_le_at_agree(s_mid, s_grown, 256 * (next_block as int), 4);
                }
            }
            // blocks outside the chain and the fresh block are untouched
            assert forall|b: int|
                0 <= b < fat_nblocks(s_mid) && !gc.contains(b) && b != next_block as int implies #[trigger] block_agrees(
                s_mid,
                s_link,
                b,
            ) by {
                lemma_block_in_range(s_mid, b);
                assert(b != cur as int) by {
                    assert(gc[gc.len() - 1] == cur as int);
                    if b == cur as int {
                        assert(gc.contains(b));
                    }
                }
                lemma_blocks_disjoint(b, next_block as int);
                lemma_blocks_disjoint(b, cur as int);
                assert forall|t: int| 256 * b <= t < 256 * b + 256 implies s_link[t] == s_mid[t] by {
                    assert(s_grown[t] == s_mid[t]);
                    assert(s_init[t] == s_grown[t]);
                    assert(s_link[t] == s_init[t]);
                }
            }
        }
        (next_block, Ghost(gc.push(next_block as int)))
    }


    /// Loads the whole value whose chain starts at `block_num`.
    fn load_block(&self, block_num: usize, Ghost(c): Ghost<Seq<int>>) -> (r: Vec<u8>)
        requires
            fat_sized(self.storage()),
            wf_chain(self.storage(), c),
            c[0] == block_num,
        ensures
            r@ == chain_value(self.storage(), c),
    {
        let ghost s = self.storage();
        let total = self.data_store.len();
        let mut buff: Vec<u8> = Vec::new();
        let mut cur = block_num;
        let ghost mut i: int = 0;
        loop
            invariant
                fat_sized(s),
                s == self.storage(),
                total == s.len(),
                wf_chain(s, c),
                0 <= i < c.len(),
                c[i] == cur,
                buff@ == chain_value(s, c.take(i)),
            decreases c.len() - i,
        {
            proof {
                lemma_block_in_range(s, cur as int);
            }
            let size64 = self.get_block_size(cur);
            proof {
                assert(fat_size(s, cur as int) <= 240);
            }
            let size = size64 as usize;
            let mut part = read_bytes(
                &self.data_store,
                cur * FAT_BLOCK_SIZE + FAT_HEADER_SIZE,
                size,
            );
            proof {
                assert(part@ =~= fat_payload(s, c[i]));
            }
            buff.append(&mut part);
            proof {
                lemma_chain_value_take(s, c, i);
                i = i + 1;
            }
            let next = self.get_next_block(cur);
            if next == 0 {
                proof {
                    if i < c.len() {
                        assert(fat_next(s, c[i - 1]) == c[i]);
                        assert(c[i] >= 1);
                    }
                    assert(i == c.len());
                    assert(c.take(i) =~= c);
                }
                return buff;
            }
            proof {
                if i == c.len() {
                    assert(fat_next(s, c[i - 1]) == 0);
                }
                assert(i < c.len());
                assert(fat_next(s, c[i - 1]) == c[i]);
            }
            cur = next;
        }
    }

    /// Finds the head block of the chain stored under `key`.
    fn find_key(&self, key: Key) -> (r: usize)
        requires
            self.wf(),
            key.index < self.num_entries(),
        ensures
            r as int == self.all_chains()[key.index + 1][0],
            1 <= r < fat_nblocks(self.storage()),
    {
        let ghost s = self.storage();
        let ghost cs = self.all_chains();
        let idx = key.index;
        let listing = self.load_block(0, Ghost(cs[0]));
        let llen = listing.len();
        proof {
            assert(listing@.len() == 8 * (cs.len() - 1));
            assert(8 * (idx as int) + 8 <= 8 * (cs.len() - 1));
            assert(le_at(listing@, 8 * (idx as int), 8) == cs[idx + 1][0]);
            assert(wf_block(s, cs[idx + 1][0]));
            assert(cs[idx + 1][0] != cs[0][0]);
            lemma_fundamental_div_mod(s.len() as int, 256);
            assert(fat_nblocks(s) <= s.len());
        }
        let total = self.data_store.len();
        let v = read_le_vec(&listing, idx * 8, 8);
        v as usize
    }

    /// Gets the data associated with a key. A key that names no entry is
    /// excluded here; [`Self::contains_key`] is the guard, and
    /// [`Self::try_get_entry`] the form that rejects such a key itself.
    pub fn get_entry(&self, key: Key) -> (r: Vec<u8>)
        requires
            self.wf(),
            key.index < self.num_entries(),
        ensures
            r@ == self.entries()[key.index as int],
    {
        let ghost cs = self.all_chains();
        let idx = key.index;
        let fat = self.find_key(key);
        self.load_block(fat, Ghost(cs[idx + 1]))
    }

    /// Gets the data associated with a key, rejecting an unknown
    /// directory index with [`StoreError::InvalidKey`].
    pub fn try_get_entry(&self, key: Key) -> (r: Result<Vec<u8>, StoreError>)
        requires
            self.wf(),
        ensures
            match r {
                Ok(v) => key.index < self.num_entries() && v@ == self.entries()[key.index as int],
                Err(e) => e == StoreError::InvalidKey && key.index >= self.num_entries(),
            },
    {
        if self.contains_key(Key { index: key.index }) {
            Ok(self.get_entry(key))
        } else {
            Err(StoreError::InvalidKey)
        }
    }

    /// Whether a key names a stored entry.
    pub fn contains_key(&self, key: Key) -> (r: bool)
        requires
            self.wf(),
        ensures
            r == (key.index < self.num_entries()),
    {
        let ghost cs = self.all_chains();
        let listing = self.load_block(0, Ghost(cs[0]));
        let n = listing.len() / 8;
        proof {
            assert(listing@.len() == 8 * (cs.len() - 1));
            vstd::arithmetic::div_mod::lemma_div_multiples_vanish(cs.len() - 1, 8);
        }
        key.index < n
    }

    /// Adds a new entry holding `buffer` and returns its key: the next
    /// dense directory index.
    #[verifier::rlimit(100)]
    #[verifier::spinoff_prover]
    pub fn add_entry(&mut self, buffer: Vec<u8>) -> (k: Key)
        requires
            old(self).wf(),
            old(self).storage().len() + 256 * (buffer@.len() + 16) <= usize::MAX,
        ensures
            final(self).wf(),
            k.index == old(self).num_entries(),
            final(self).num_entries() == old(self).num_entries() + 1,
            final(self).entries() == old(self).entries().push(buffer@),
            final(self).storage().len() <= old(self).storage().len() + 256 * (buffer@.len() + 16),
    {
        let ghost s0 = old(self).storage();
        let ghost cs0 = old(self).all_chains();
        let listing = self.load_block(0, Ghost(cs0[0]));
        let key_index = listing.len() / 8;
        proof {
            assert(listing@.len() == 8 * (cs0.len() - 1));
            vstd::arithmetic::div_mod::lemma_div_multiples_vanish(cs0.len() - 1, 8);
        }
        let free_key = self.find_free_entery();
        let ghost s1 = self.storage();
        self.initilize_block(free_key);
        let ghost s2 = self.storage();
        let ghost c1: Seq<int> = seq![free_key as int];
        proof {
            assert(fat_used(s1, free_key as int) == 0);
            assert(wf_chain(s2, c1)) by {
                assert(c1.len() == 1 && c1[0] == free_key as int);
                assert(wf_block(s2, free_key as int));
            }
            // the directory chain survives growth and the fresh block's setup
            assert forall|i: int| 0 <= i < cs0[0].len() implies #[trigger] block_agrees(
                s0,
                s2,
                cs0[0][i],
            ) by {
                let b = cs0[0][i];
                assert(wf_block(s0, b));
                lemma_block_in_range(s0, b);
                assert(b != free_key as int) by {
                    if b == free_key as int {
                        assert(block_agrees(s0, s1, b)) by {
                            assert forall|t: int| 256 * b <= t < 256 * b + 256 implies s1[t]
                                == s0[t] by {}
                        }
                        lemma_le_at_agree(s0, s1, 256 * b, 4);
                    }
                }
                lemma_blocks_disjoint(b, free_key as int);
                assert forall|t: int| 256 * b <= t < 256 * b + 256 implies s2[t] == s0[t] by {
                    assert(s1[t] == s0[t]);
                    assert(s2[t] == s1[t]);
                }
            }
            lemma_chain_preserved(s0, s2, cs0[0]);
        }
        let Ghost(gc1) = self.append_block(free_key, &buffer, Ghost(c1));
        let ghost s3 = self.storage();
        proof {
            // the directory chain is outside the data chain and untouched
            assert forall|i: int| 0 <= i < cs0[0].len() implies #[trigger] block_agrees(
                s2,
                s3,
                cs0[0][i],
            ) by {
                let b = cs0[0][i];
                assert(wf_block(s2, b));
                assert(!c1.contains(b)) by {
                    if c1.contains(b) {
                        assert(b == free_key as int);
                        assert(fat_used(s2, free_key as int) == 1);
                        assert(fat_used(s1, free_key as int) == 0);
                        assert(block_agrees(s0, s2, b));
                    }
                }
            }
            lemma_chain_preserved(s2, s3, cs0[0]);
        }
        let mut key_bytes: Vec<u8> = Vec::new();
        proof {
            lemma_pow256_values();
        }
        push_le(&mut key_bytes, free_key as u64, 8);
        let Ghost(gc0) = self.append_block(0, &key_bytes, Ghost(cs0[0]));
        let ghost s4 = self.storage();
        let ghost cs = cs0.update(0, gc0).push(gc1);
        proof {
            self.chains = Ghost(cs);
            lemma_add_entry_wf(
                s0,
                s1,
                s2,
                s3,
                s4,
                cs0,
                cs,
                gc0,
                gc1,
                c1,
                free_key as int,
                buffer@,
                key_bytes@,
            );
            assert(self.entries() =~= old(self).entries().push(buffer@)) by {
                assert forall|j: int| 0 <= j < cs.len() - 1 implies self.entries()[j] == old(
                    self,
                ).entries().push(buffer@)[j] by {
                    if j < cs0.len() - 1 {
                        assert(chain_value(s4, cs[j + 1]) == chain_value(s0, cs0[j + 1]));
                    } else {
                        assert(cs[j + 1] == cs[cs.len() - 1]);
                    }
                }
            }
        }
        Key { index: key_index }
    }

    /// Overwrites `copy_size` bytes of block `cur` (position `pp` of
    /// chain `gc`) starting at payload offset `si` with bytes of `data`
    /// from `ds`, updating the block's size to what is now in use.
    #[verifier::rlimit(100)]
    #[verifier::spinoff_prover]
    fn fill_at(
        &mut self,
        cur: usize,
        data: &Vec<u8>,
        ds: usize,
        copy_size: usize,
        si: usize,
        Ghost(gc): Ghost<Seq<int>>,
        Ghost(pp): Ghost<int>,
    )
        requires
            fat_sized(old(self).storage()),
            wf_chain(old(self).storage(), gc),
            0 <= pp < gc.len(),
            gc[pp] == cur,
            si as int <= fat_size(old(self).storage(), gc[pp]),
            si + copy_size <= 240,
            ds + copy_size <= data@.len(),
            pp < gc.len() - 1 ==> si + copy_size <= 240 && fat_size(old(self).storage(), gc[pp])
                == 240,
        ensures
            final(self).all_chains() == old(self).all_chains(),
            final(self).storage().len() == old(self).storage().len(),
            fat_sized(final(self).storage()),
            wf_chain(final(self).storage(), gc),
            fat_size(final(self).storage(), cur as int) == (if si + copy_size > fat_size(
                old(self).storage(),
                cur as int,
            ) {
                si + copy_size
            } else {
                fat_size(old(self).storage(), cur as int)
            }),
            chain_value(final(self).storage(), gc) == overwrite(
                chain_value(old(self).storage(), gc),
                240 * pp + si,
                data@.subrange(ds as int, ds + copy_size),
            ),
            forall|b: int|
                0 <= b < fat_nblocks(old(self).storage()) && !gc.contains(b)
                    ==> #[trigger] block_agrees(old(self).storage(), final(self).storage(), b),
    {
        let ghost s_top = self.storage();
        let total = self.data_store.len();
        proof {
            lemma_block_in_range(s_top, cur as int);
            assert(wf_block(s_top, gc[pp]));
        }
        let size64 = self.get_block_size(cur);
        let size = size64 as usize;
        write_slice(
            &mut self.data_store,
            cur * FAT_BLOCK_SIZE + FAT_HEADER_SIZE + si,
            data,
            ds,
            copy_size,
        );
        let ghost s_w = self.storage();
        proof {
            lemma_le_at_agree(s_top, s_w, 256 * (cur as int), 4);
            lemma_le_at_agree(s_top, s_w, 256 * (cur as int) + 4, 4);
            lemma_le_at_agree(s_top, s_w, 256 * (cur as int) + 8, 8);
        }
        let new_size = if size < si + copy_size {
            si + copy_size
        } else {
            size
        };
        self.set_block_size(cur, new_size);
        proof {
            let s_mid = self.storage();
            let add = data@.subrange(ds as int, ds + copy_size);
            assert(fat_used(s_mid, cur as int) == fat_used(s_top, cur as int));
            assert(fat_next(s_mid, cur as int) == fat_next(s_top, cur as int));
            assert forall|i: int| 0 <= i < gc.len() && i != pp implies #[trigger] block_agrees(
                s_top,
                s_mid,
                gc[i],
            ) by {
                assert(gc[i] != gc[pp]);
                lemma_blocks_disjoint(gc[i], cur as int);
                lemma_block_in_range(s_top, gc[i]);
            }
            assert forall|j: int| 0 <= j < add.len() implies #[trigger] s_mid[256 * (cur as int)
                + 16 + (si as int) + j] == add[j] by {
                assert(s_mid[(cur * FAT_BLOCK_SIZE + FAT_HEADER_SIZE + si) + j] == data@[ds + j]);
            }
            lemma_chain_overwrite_at(s_top, s_mid, gc, pp, si as int, add);
            assert forall|b: int|
                0 <= b < fat_nblocks(s_top) && !gc.contains(b) implies #[trigger] block_agrees(
                s_top,
                s_mid,
                b,
            ) by {
                assert(b != cur as int) by {
                    if b == cur as int {
                        assert(gc.contains(b));
                    }
                }
                lemma_blocks_disjoint(b, cur as int);
                lemma_block_in_range(s_top, b);
            }
        }
    }

    /// Walks the chain `c` to the block containing logical offset
    /// `index`, returning the block, the offset inside it, and its
    /// position in the chain.
    fn find_start(&self, block_num: usize, index: usize, Ghost(c): Ghost<Seq<int>>) -> (r: (
        usize,
        usize,
        Ghost<int>,
    ))
        requires
            fat_sized(self.storage()),
            wf_chain(self.storage(), c),
            c[0] == block_num,
            index as int <= chain_value(self.storage(), c).len(),
        ensures
            0 <= r.2@ < c.len(),
            c[r.2@] == r.0,
            index as int == 240 * r.2@ + r.1,
            r.1 as int <= fat_size(self.storage(), c[r.2@]),
            r.1 <= 240,
    {
        let ghost s = self.storage();
        let ghost index0 = index as int;
        proof {
            lemma_chain_value_len(s, c);
        }
        let total = self.data_store.len();
        let mut blk = block_num;
        let mut rel = index;
        let ghost mut pp: int = 0;
        loop
            invariant
                fat_sized(s),
                s == self.storage(),
                total == s.len(),
                wf_chain(s, c),
                0 <= pp < c.len(),
                c[pp] == blk,
                index0 == 240 * pp + rel,
                rel as int <= 240 * (c.len() - 1 - pp) + fat_size(s, c[c.len() - 1]),
                index0 == index,
            decreases c.len() - pp,
        {
            if FAT_USABLE_SIZE < rel {
                proof {
                    if pp == c.len() - 1 {
                        assert(rel as int <= fat_size(s, c[pp]));
                    }
                    assert(pp < c.len() - 1);
                    assert(fat_next(s, c[pp]) == c[pp + 1]);
                    assert(wf_block(s, c[pp + 1]));
                    lemma_fundamental_div_mod(s.len() as int, 256);
                }
                let next_block = self.get_next_block(blk);
                blk = next_block;
                rel = rel - FAT_USABLE_SIZE;
                proof {
                    pp = pp + 1;
                }
            } else {
                proof {
                    if pp < c.len() - 1 {
                        assert(fat_size(s, c[pp]) == 240);
                    }
                }
                return (blk, rel, Ghost(pp));
            }
        }
    }

    /// Writes `data` into the chain `c` starting inside block `block`
    /// (position `pos`) at offset `start_index`, overwriting what is
    /// there and extending the chain for what runs past its end.
    #[verifier::rlimit(100)]
    #[verifier::spinoff_prover]
    fn write(
        &mut self,
        data: &Vec<u8>,
        block: usize,
        start_index: usize,
        Ghost(c): Ghost<Seq<int>>,
        Ghost(pos): Ghost<int>,
    ) -> (res: Ghost<Seq<int>>)
        requires
            fat_sized(old(self).storage()),
            wf_chain(old(self).storage(), c),
            0 <= pos < c.len(),
            c[pos] == block,
            start_index as int <= fat_size(old(self).storage(), c[pos]),
            start_index <= 240,
            old(self).storage().len() + 256 * (data@.len() + 2) <= usize::MAX,
        ensures
            final(self).all_chains() == old(self).all_chains(),
            fat_sized(final(self).storage()),
            final(self).storage().len() >= old(self).storage().len(),
            final(self).storage().len() <= old(self).storage().len() + 256 * (data@.len() + 1),
            fat_nblocks(final(self).storage()) >= fat_nblocks(old(self).storage()),
            wf_chain(final(self).storage(), res@),
            res@.len() >= c.len(),
            res@.subrange(0, c.len() as int) == c,
            chain_value(final(self).storage(), res@) == overwrite(
                chain_value(old(self).storage(), c),
                240 * pos + start_index,
                data@,
            ),
            forall|i: int|
                c.len() <= i < res@.len() ==> #[trigger] res@[i] >= 1 && (res@[i] >= fat_nblocks(
                    old(self).storage(),
                ) || fat_used(old(self).storage(), res@[i]) == 0),
            forall|b: int|
                0 <= b < fat_nblocks(old(self).storage()) && fat_used(old(self).storage(), b) == 1
                    && !c.contains(b) ==> #[trigger] block_agrees(
                    old(self).storage(),
                    final(self).storage(),
                    b,
                ),
    {
        let ghost s0 = old(self).storage();
        let ghost v0 = chain_value(s0, c);
        let ghost off = 240 * pos + start_index;
        let dn = data.len();
        let ghost dlen = data@.len() as int;
        let mut cur = block;
        let mut si = start_index;
        let mut ds: usize = 0;
        let ghost mut gc: Seq<int> = c;
        let ghost mut pp: int = pos;
        proof {
            lemma_chain_value_len(s0, c);
            assert(off <= v0.len()) by {
                assert(240 * pos + fat_size(s0, c[pos]) <= 240 * (c.len() - 1) + fat_size(
                    s0,
                    c[c.len() - 1],
                )) by (nonlinear_arith)
                    requires
                        0 <= pos <= c.len() - 1,
                        fat_size(s0, c[pos]) <= 240,
                        pos < c.len() - 1 ==> fat_size(s0, c[pos]) == 240,
                        0 <= fat_size(s0, c[c.len() - 1]),
                        pos == c.len() - 1 ==> fat_size(s0, c[pos]) == fat_size(
                            s0,
                            c[c.len() - 1],
                        ),
                ;
            }
            lemma_overwrite_empty(v0, off);
            assert(data@.take(0) =~= Seq::<u8>::empty());
        }
        loop
            invariant
                self.all_chains() == old(self).all_chains(),
                fat_sized(self.storage()),
                fat_sized(s0),
                s0 == old(self).storage(),
                wf_chain(s0, c),
                v0 == chain_value(s0, c),
                0 <= pos < c.len(),
                off == 240 * pos + start_index,
                off <= v0.len(),
                self.storage().len() >= s0.len(),
                fat_nblocks(self.storage()) >= fat_nblocks(s0),
                wf_chain(self.storage(), gc),
                0 <= pp < gc.len(),
                gc[pp] == cur,
                pp < gc.len() - 1 ==> gc == c,
                gc.len() >= c.len(),
                gc.subrange(0, c.len() as int) == c,
                ds <= dn,
                dn == dlen == data@.len(),
                si as int <= fat_size(self.storage(), gc[pp]),
                si <= 240,
                240 * pp + si == off + ds,
                gc.len() > c.len() ==> si == 0,
                chain_value(self.storage(), gc) == overwrite(v0, off, data@.take(ds as int)),
                self.storage().len() <= s0.len() + 256 * (gc.len() - c.len()),
                self.storage().len() + 256 * ((dlen - ds) + 2) <= usize::MAX || (gc.len()
                    > c.len() && self.storage().len() + 256 * ((dlen - ds) + 1) <= usize::MAX),
                forall|i: int|
                    c.len() <= i < gc.len() ==> #[trigger] gc[i] >= 1 && (gc[i] >= fat_nblocks(s0)
                        || fat_used(s0, gc[i]) == 0),
                forall|b: int|
                    0 <= b < fat_nblocks(s0) && !gc.contains(b) ==> #[trigger] block_agrees(
                        s0,
                        self.storage(),
                        b,
                    ),
            decreases dlen - ds, si,
        {
            let ghost s_top = self.storage();
            let remaining = dn - ds;
            proof {
                assert(fat_size(s_top, cur as int) <= 240) by {
                    assert(wf_block(s_top, gc[pp]));
                }
            }
            let copy_size = if FAT_USABLE_SIZE - si < remaining {
                FAT_USABLE_SIZE - si
            } else {
                remaining
            };
            self.fill_at(cur, data, ds, copy_size, si, Ghost(gc), Ghost(pp));
            let ghost s_mid = self.storage();
            proof {
                let add = data@.subrange(ds as int, ds + copy_size);
                lemma_overwrite_compose(v0, off, data@.take(ds as int), add);
                assert(data@.take(ds as int) + add =~= data@.take(ds + copy_size));
                assert(chain_value(s_mid, gc) == overwrite(v0, off, data@.take(ds + copy_size)));
                assert forall|b: int|
                    0 <= b < fat_nblocks(s0) && !gc.contains(b) implies #[trigger] block_agrees(
                    s0,
                    s_mid,
                    b,
                ) by {
                    assert(block_agrees(s0, s_top, b));
                    lemma_block_in_range(s0, b);
                    assert(block_agrees(s_top, s_mid, b));
                    assert forall|t: int| 256 * b <= t < 256 * b + 256 implies s_mid[t] == s0[t] by {
                        assert(s_top[t] == s0[t]);
                        assert(s_mid[t] == s_top[t]);
                    }
                }
            }
            ds = ds + copy_size;
            si = si + copy_size;
            if ds == dn {
                proof {
                    assert(data@.take(ds as int) =~= data@);
                    lemma_chain_value_len(self.storage(), gc);
                    lemma_chain_value_len(s0, c);
                    assert(chain_value(self.storage(), gc).len() <= v0.len() + dlen);
                    assert(240 * (gc.len() - c.len()) <= dlen + 240);
                    assert(self.storage().len() <= s0.len() + 256 * (dlen + 1));
                    assert forall|b: int|
                        0 <= b < fat_nblocks(s0) && fat_used(s0, b) == 1 && !c.contains(
                            b,
                        ) implies #[trigger] block_agrees(s0, self.storage(), b) by {
                        assert(!gc.contains(b)) by {
                            if gc.contains(b) {
                                let gi = choose|gi: int| 0 <= gi < gc.len() && gc[gi] == b;
                                if gi < c.len() {
                                    assert(gc.subrange(0, c.len() as int)[gi] == c[gi]);
                                    assert(c.contains(b));
                                } else {
                                    assert(gc[gi] >= fat_nblocks(s0) || fat_used(s0, gc[gi])
                                        == 0);
                                }
                            }
                        }
                        assert(block_agrees(s0, s_mid, b));
                    }
                }
                return Ghost(gc);
            }
            proof {
                assert(copy_size == FAT_USABLE_SIZE - (si - copy_size));
                assert(si == 240);
                assert(fat_size(self.storage(), cur as int) == 240);
                lemma_fundamental_div_mod(self.storage().len() as int, 256);
                if pp < gc.len() - 1 {
                    assert(fat_next(self.storage(), gc[pp]) == gc[pp + 1]);
                    assert(wf_block(self.storage(), gc[pp + 1]));
                }
            }
            let next = self.get_next_block(cur);
            if next == 0 {
                proof {
                    if pp < gc.len() - 1 {
                        assert(gc[pp + 1] >= 1);
                    }
                    assert(pp == gc.len() - 1);
                }
                let ghost s_call = self.storage();
                let (next_block, Ghost(gc2)) = self.grow_chain(cur, Ghost(gc));
                proof {
                    let s_link = self.storage();
                    assert(chain_value(s_link, gc2) == overwrite(v0, off, data@.take(ds as int)));
                    assert(gc2.subrange(0, c.len() as int) =~= gc.subrange(0, c.len() as int));
                    assert((next_block as int) >= fat_nblocks(s0) || fat_used(
                        s0,
                        next_block as int,
                    ) == 0) by {
                        if (next_block as int) < fat_nblocks(s0) {
                            assert(block_agrees(s0, s_call, next_block as int));
                            lemma_block_in_range(s0, next_block as int);
                            lemma_le_at_agree(s0, s_call, 256 * (next_block as int), 4);
                            assert((next_block as int) < fat_nblocks(s_call));
                            assert(fat_used(s_call, next_block as int) == 0);
                        }
                    }
                    assert forall|b: int|
                        0 <= b < fat_nblocks(s0) && !gc2.contains(b) implies #[trigger] block_agrees(
                        s0,
                        s_link,
                        b,
                    ) by {
                        assert(!gc.contains(b)) by {
                            if gc.contains(b) {
                                let gi = choose|gi: int| 0 <= gi < gc.len() && gc[gi] == b;
                                assert(gc2[gi] == gc[gi]);
                                assert(gc2.contains(b));
                            }
                        }
                        assert(b != next_block as int) by {
                            assert(gc2[gc2.len() - 1] == next_block as int);
                            if b == next_block as int {
                                assert(gc2.contains(b));
                            }
                        }
                        assert(block_agrees(s0, s_call, b));
                        lemma_block_in_range(s0, b);
                        assert(block_agrees(s_call, s_link, b));
                        assert forall|t: int| 256 * b <= t < 256 * b + 256 implies s_link[t]
                            == s0[t] by {
                            assert(s_call[t] == s0[t]);
                            assert(s_link[t] == s_call[t]);
                        }
                    }
                    gc = gc2;
                    pp = pp + 1;
                }
                cur = next_block;
            } else {
                proof {
                    if pp == gc.len() - 1 {
                        assert(fat_next(self.storage(), gc[pp]) == 0);
                    }
                    assert(pp < gc.len() - 1);
                    assert(next as int == gc[pp + 1]);
                    pp = pp + 1;
                }
                cur = next;
            }
            si = 0;
        }
    }

    /// Overwrites the value stored under `key` from logical offset
    /// `index` on with `buffer`, extending the value where the write
    /// runs past its end. A key that names no entry, or an offset past
    /// the value's end, is excluded here; [`Self::contains_key`] and the
    /// value's length are the guards.
    #[verifier::rlimit(100)]
    #[verifier::spinoff_prover]
    pub fn write_entry(&mut self, key: Key, index: usize, buffer: Vec<u8>)
        requires
            old(self).wf(),
            key.index < old(self).num_entries(),
            index as int <= old(self).entries()[key.index as int].len(),
            old(self).storage().len() + 256 * (buffer@.len() + 2) <= usize::MAX,
        ensures
            final(self).wf(),
            final(self).num_entries() == old(self).num_entries(),
            final(self).entries() == old(self).entries().update(
                key.index as int,
                overwrite(old(self).entries()[key.index as int], index as int, buffer@),
            ),
            final(self).storage().len() <= old(self).storage().len() + 256 * (buffer@.len() + 2),
    {
        let ghost s0 = old(self).storage();
        let ghost cs0 = old(self).all_chains();
        let idx = key.index;
        let ghost c = cs0[idx + 1];
        let head = self.find_key(key);
        let (blk, rel, Ghost(pp)) = self.find_start(head, index, Ghost(c));
        let Ghost(gc) = self.write(&buffer, blk, rel, Ghost(c), Ghost(pp));
        let ghost s1 = self.storage();
        let ghost cs = cs0.update(idx as int + 1, gc);
        proof {
            self.chains = Ghost(cs);
            lemma_write_entry_wf(s0, s1, cs0, cs, gc, idx as int, buffer@, index as int);
            assert(self.entries() =~= old(self).entries().update(
                idx as int,
                overwrite(old(self).entries()[idx as int], index as int, buffer@),
            )) by {
                assert forall|j: int| 0 <= j < cs.len() - 1 implies self.entries()[j] == old(
                    self,
                ).entries().update(
                    idx as int,
                    overwrite(old(self).entries()[idx as int], index as int, buffer@),
                )[j] by {
                    if j != idx as int {
                        assert(cs[j + 1] == cs0[j + 1]);
                        assert(chain_value(s1, cs0[j + 1]) == chain_value(s0, cs0[j + 1]));
                    } else {
                        assert(cs[j + 1] == gc);
                    }
                }
            }
        }
    }

    /// Checks the directory against the extent: its value is a whole
    /// number of entries and every entry names a block inside the extent.
    pub fn is_consistant(&self) -> (r: bool)
        requires
            self.wf(),
        ensures
            r,
    {
        let ghost s = self.storage();
        let ghost cs = self.all_chains();
        let block = self.load_block(0, Ghost(cs[0]));
        let blen = block.len();
        proof {
            assert(blen as int == 8 * (cs.len() - 1));
            vstd::arithmetic::div_mod::lemma_mod_multiples_basic(cs.len() - 1, 8);
            assert((cs.len() - 1) * 8 == 8 * (cs.len() - 1)) by (nonlinear_arith);
            vstd::arithmetic::div_mod::lemma_div_multiples_vanish(cs.len() - 1, 8);
        }
        if blen % 8 != 0 {
            return false;
        }
        let total = self.data_store.len();
        let n = blen / 8;
        let mut i: usize = 0;
        while i < n
            invariant
                self.wf(),
                s == self.storage(),
                cs == self.all_chains(),
                block@ == chain_value(s, cs[0]),
                blen == block@.len(),
                total == s.len(),
                n == cs.len() - 1,
                blen as int == 8 * n,
                i <= n,
            decreases n - i,
        {
            let num64 = read_le_vec(&block, i * 8, 8);
            proof {
                assert(le_at(block@, 8 * (i as int), 8) == cs[i + 1][0]);
                assert(wf_block(s, cs[i + 1][0]));
                lemma_block_in_range(s, cs[i + 1][0]);
                lemma_fundamental_div_mod(s.len() as int, 256);
            }
            let num = num64 as usize;
            if num * FAT_BLOCK_SIZE >= total {
                return false;
            }
            i = i + 1;
        }
        true
    }

    /// Creates a fresh store on the extent: one allocated, empty
    /// directory block.
    pub fn new(data_store: ExtentT) -> (r: Self)
        ensures
            r.wf(),
            r.num_entries() == 0,
            r.entries() == Seq::<Seq<u8>>::empty(),
            r.storage().len() == 256,
    {
        let mut data_store = data_store;
        data_store.resize(0);
        data_store.resize(FAT_BLOCK_SIZE);
        proof {
            lemma_pow256_values();
        }
        write_le(&mut data_store, 0, 4, 1);
        let ghost cs: Seq<Seq<int>> = seq![seq![0int]];
        let r = VariableExtent { data_store, chains: Ghost(cs) };
        proof {
            let s = r.storage();
            assert(s.len() as int % 256 == 0);
            assert(fat_used(s, 0) == 1);
            assert(forall|j: int| 0 <= j < 4 ==> #[trigger] s[4 + j] == 0);
            lemma_le_at_zero(s, 4, 4);
            assert(forall|j: int| 0 <= j < 8 ==> #[trigger] s[8 + j] == 0);
            lemma_le_at_zero(s, 8, 8);
            assert(fat_size(s, 0) == 0);
            assert(fat_next(s, 0) == 0);
            let c0: Seq<int> = seq![0int];
            assert(c0.len() == 1 && c0[0] == 0);
            assert(chain_value(s, c0) == fat_payload(s, c0[0]) + chain_value(s, c0.drop_first()));
            assert(c0.drop_first().len() == 0);
            assert(chain_value(s, c0) =~= fat_payload(s, 0));
            assert(fat_payload(s, 0).len() == 0);
            assert(r.entries() =~= Seq::<Seq<u8>>::empty());
        }
        r
    }
}

} // verus!
