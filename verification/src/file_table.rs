//! Fixed-width records stored entirely on an extent.
//!
//! Layout: an 8-byte header holding the record width, then blocks of
//! `BITMAP_SIZE` bitmap bytes followed by `BLOCK_SIZE` record slots.
//! Bit `j` of bitmap byte `b` tracks slot `8·b + j`; a key is the global
//! slot index `block · BLOCK_SIZE + slot`.

use crate::codec::{le_at, lemma_le_at_agree, lemma_pow256_values, read_le, write_le};
use crate::extent::{read_bytes, write_bytes, Extent};
use vstd::arithmetic::div_mod::lemma_fundamental_div_mod;
use vstd::prelude::*;

verus! {

pub const HEADER_SIZE: usize = 8;

pub const BITMAP_SIZE: usize = 255;

/// Slots per block: one per bitmap bit.
pub const BLOCK_SIZE: usize = 2040;

/// Bytes one block occupies on the extent for record width `w`.
pub open spec fn block_bytes(w: int) -> int {
    255 + 2040 * w
}

/// Whether bit `j` of the byte `b` is set; bit 0 is the least significant.
pub open spec fn byte_bit(b: u8, j: int) -> bool {
    ((b >> (j as u8)) & 1) == 1
}

/// Position of the bitmap byte of slot `k` for record width `w`.
pub open spec fn slot_bitmap_pos(w: int, k: int) -> int {
    8 + (k / 2040) * block_bytes(w) + (k % 2040) / 8
}

/// Position of the first data byte of slot `k` for record width `w`.
pub open spec fn slot_data_pos(w: int, k: int) -> int {
    8 + (k / 2040) * block_bytes(w) + 255 + (k % 2040) * w
}

proof fn lemma_slot_layout(w: int, nb: int, k: int)
    requires
        w >= 0,
        0 <= k,
        k < nb * 2040,
    ensures
        0 <= k / 2040 < nb,
        0 <= k % 2040 < 2040,
        0 <= (k % 2040) / 8 < 255,
        0 <= (k % 2040) % 8 < 8,
        8 + (k / 2040) * block_bytes(w) + block_bytes(w) <= 8 + nb * block_bytes(w),
        0 <= (k / 2040) * block_bytes(w),
        slot_bitmap_pos(w, k) < 8 + (k / 2040) * block_bytes(w) + 255,
        8 + (k / 2040) * block_bytes(w) <= slot_bitmap_pos(w, k),
        8 + (k / 2040) * block_bytes(w) + 255 <= slot_data_pos(w, k),
        slot_data_pos(w, k) + w <= 8 + (k / 2040) * block_bytes(w) + block_bytes(w),
{
    lemma_fundamental_div_mod(k, 2040);
    lemma_fundamental_div_mod(k % 2040, 8);
    let b = k / 2040;
    let s = k % 2040;
    assert(b < nb) by (nonlinear_arith)
        requires
            k == 2040 * b + s,
            0 <= s < 2040,
            k < nb * 2040,
    ;
    assert(0 <= b) by (nonlinear_arith)
        requires
            k == 2040 * b + s,
            0 <= s < 2040,
            0 <= k,
    ;
    assert((b + 1) * block_bytes(w) <= nb * block_bytes(w)) by (nonlinear_arith)
        requires
            b + 1 <= nb,
            block_bytes(w) >= 0,
    ;
    assert((b + 1) * block_bytes(w) == b * block_bytes(w) + block_bytes(w)) by (nonlinear_arith);
    assert(0 <= b * block_bytes(w)) by (nonlinear_arith)
        requires
            0 <= b,
            0 <= block_bytes(w),
    ;
    assert(s * w + w <= 2040 * w) by (nonlinear_arith)
        requires
            s + 1 <= 2040,
            w >= 0,
    ;
    assert(0 <= s * w) by (nonlinear_arith)
        requires
            0 <= s,
            0 <= w,
    ;
}

/// Distinct slots never share data bytes, and share a bitmap byte only at
/// distinct bits.
proof fn lemma_slots_disjoint(w: int, j: int, k: int)
    requires
        w >= 0,
        0 <= j,
        0 <= k,
        j != k,
    ensures
        slot_data_pos(w, j) + w <= slot_data_pos(w, k) || slot_data_pos(w, k) + w <= slot_data_pos(
            w,
            j,
        ),
        slot_bitmap_pos(w, j) != slot_bitmap_pos(w, k) || (j % 2040) % 8 != (k % 2040) % 8,
{
    lemma_fundamental_div_mod(j, 2040);
    lemma_fundamental_div_mod(k, 2040);
    lemma_fundamental_div_mod(j % 2040, 8);
    lemma_fundamental_div_mod(k % 2040, 8);
    let bj = j / 2040;
    let bk = k / 2040;
    let sj = j % 2040;
    let sk = k % 2040;
    if bj == bk {
        assert(sj != sk);
        if sj < sk {
            assert(sj * w + w <= sk * w) by (nonlinear_arith)
                requires
                    sj + 1 <= sk,
                    w >= 0,
            ;
        } else {
            assert(sk * w + w <= sj * w) by (nonlinear_arith)
                requires
                    sk + 1 <= sj,
                    w >= 0,
            ;
        }
        if sj / 8 == sk / 8 {
            assert(sj % 8 != sk % 8);
        }
    } else {
        if bj < bk {
            assert(bj * block_bytes(w) + block_bytes(w) <= bk * block_bytes(w)) by (nonlinear_arith)
                requires
                    bj + 1 <= bk,
                    block_bytes(w) >= 0,
            ;
            assert(0 <= sj * w && sj * w + w <= 2040 * w && 0 <= sk * w) by (nonlinear_arith)
                requires
                    0 <= sj,
                    sj + 1 <= 2040,
                    0 <= sk,
                    w >= 0,
            ;
        } else {
            assert(bk * block_bytes(w) + block_bytes(w) <= bj * block_bytes(w)) by (nonlinear_arith)
                requires
                    bk + 1 <= bj,
                    block_bytes(w) >= 0,
            ;
            assert(0 <= sk * w && sk * w + w <= 2040 * w && 0 <= sj * w) by (nonlinear_arith)
                requires
                    0 <= sk,
                    sk + 1 <= 2040,
                    0 <= sj,
                    w >= 0,
            ;
        }
    }
}

/// A bitmap byte of one slot never lies among the data bytes of another.
proof fn lemma_bitmap_outside_data(w: int, j: int, k: int)
    requires
        w >= 0,
        0 <= j,
        0 <= k,
    ensures
        !(slot_data_pos(w, k) <= slot_bitmap_pos(w, j) < slot_data_pos(w, k) + w),
{
    lemma_fundamental_div_mod(j, 2040);
    lemma_fundamental_div_mod(k, 2040);
    lemma_fundamental_div_mod(j % 2040, 8);
    let bj = j / 2040;
    let bk = k / 2040;
    let sj = j % 2040;
    let sk = k % 2040;
    assert(0 <= sk * w && sk * w + w <= 2040 * w) by (nonlinear_arith)
        requires
            0 <= sk,
            sk + 1 <= 2040,
            w >= 0,
    ;
    if bj == bk {
    } else if bj < bk {
        assert(bj * block_bytes(w) + block_bytes(w) <= bk * block_bytes(w)) by (nonlinear_arith)
            requires
                bj + 1 <= bk,
                block_bytes(w) >= 0,
        ;
    } else {
        assert(bk * block_bytes(w) + block_bytes(w) <= bj * block_bytes(w)) by (nonlinear_arith)
            requires
                bk + 1 <= bj,
                block_bytes(w) >= 0,
        ;
    }
}

/// Splitting a slot index into block and slot number.
proof fn lemma_combine(b: int, s: int)
    requires
        0 <= b,
        0 <= s < 2040,
    ensures
        (2040 * b + s) / 2040 == b,
        (2040 * b + s) % 2040 == s,
{
    let x = 2040 * b + s;
    lemma_fundamental_div_mod(x, 2040);
    let d = x / 2040 - b;
    assert(2040 * d == s - x % 2040) by (nonlinear_arith)
        requires
            x == 2040 * (x / 2040) + x % 2040,
            x == 2040 * b + s,
            d == x / 2040 - b,
    ;
    assert(d == 0) by (nonlinear_arith)
        requires
            2040 * d == s - x % 2040,
            -2040 < s - x % 2040 < 2040,
    ;
}

proof fn lemma_byte_bit_01(b: u8, j: u8)
    requires
        j < 8,
    ensures
        ((b >> j) & 1) == 0 || ((b >> j) & 1) == 1,
{
    assert(((b >> j) & 1) == 0 || ((b >> j) & 1) == 1) by (bit_vector);
}

proof fn lemma_byte_full(b: u8, j: u8)
    requires
        b == u8::MAX,
        j < 8,
    ensures
        ((b >> j) & 1) == 1,
{
    assert(((b >> j) & 1) == 1) by (bit_vector)
        requires
            b == u8::MAX,
            j < 8,
    ;
}

proof fn lemma_byte_set_bit(b: u8, k: u8, j: u8)
    requires
        k < 8,
        j < 8,
    ensures
        (((b | (1u8 << k)) >> j) & 1) == (if j == k {
            1u8
        } else {
            (b >> j) & 1
        }),
{
    assert((((b | (1u8 << k)) >> j) & 1) == (if j == k {
        1u8
    } else {
        (b >> j) & 1
    })) by (bit_vector)
        requires
            k < 8,
            j < 8,
    ;
}

proof fn lemma_byte_zero(j: u8)
    requires
        j < 8,
    ensures
        ((0u8 >> j) & 1) == 0,
{
    assert(((0u8 >> j) & 1) == 0) by (bit_vector);
}

proof fn lemma_byte_one(j: u8)
    requires
        j < 8,
    ensures
        ((1u8 >> j) & 1) == (if j == 0 {
            1u8
        } else {
            0u8
        }),
{
    assert(((1u8 >> j) & 1) == (if j == 0 {
        1u8
    } else {
        0u8
    })) by (bit_vector)
        requires
            j < 8,
    ;
}

/// The first clear bit of a bitmap, scanning bytes in order and bits
/// LSB-first within a byte, if any bit is clear.
pub fn get_first_0(bitmap: Vec<u8>) -> (r: Option<usize>)
    requires
        bitmap@.len() * 8 <= usize::MAX,
    ensures
        match r {
            Some(i) => i < 8 * bitmap@.len() && !byte_bit(bitmap@[i as int / 8], i as int % 8)
                && forall|j: int| 0 <= j < i ==> #[trigger] byte_bit(bitmap@[j / 8], j % 8),
            None => forall|j: int| 0 <= j < 8 * bitmap@.len() ==> #[trigger] byte_bit(bitmap@[j / 8], j % 8),
        },
{
    let mut index: usize = 0;
    while index < bitmap.len()
        invariant
            bitmap@.len() * 8 <= usize::MAX,
            index <= bitmap@.len(),
            forall|j: int| 0 <= j < index * 8 ==> #[trigger] byte_bit(bitmap@[j / 8], j % 8),
        decreases bitmap@.len() - index,
    {
        let byte = bitmap[index];
        if byte != u8::MAX {
            let mut i: usize = 0;
            while i < 8
                invariant
                    bitmap@.len() * 8 <= usize::MAX,
                    i <= 8,
                    index < bitmap@.len(),
                    byte == bitmap@[index as int],
                    forall|j: int| 0 <= j < index * 8 ==> #[trigger] byte_bit(bitmap@[j / 8], j % 8),
                    forall|t: int| 0 <= t < i ==> #[trigger] byte_bit(byte, t),
                decreases 8 - i,
            {
                if (byte >> (i as u8)) & 1 == 0 {
                    proof {
                        assert(index * 8 + i < bitmap@.len() * 8) by (nonlinear_arith)
                            requires
                                index < bitmap@.len(),
                                i < 8,
                        ;
                        lemma_combine8(index as int, i as int);
                        assert forall|j: int| 0 <= j < index * 8 + i implies #[trigger] byte_bit(
                            bitmap@[j / 8],
                            j % 8,
                        ) by {
                            lemma_fundamental_div_mod(j, 8);
                            if j / 8 == index {
                                assert(j % 8 < i) by (nonlinear_arith)
                                    requires
                                        j == 8 * (j / 8) + j % 8,
                                        j / 8 == index,
                                        j < index * 8 + i,
                                ;
                            } else if j / 8 > index {
                                assert(false) by (nonlinear_arith)
                                    requires
                                        j == 8 * (j / 8) + j % 8,
                                        j / 8 >= index + 1,
                                        0 <= j % 8,
                                        j < index * 8 + i,
                                        i < 8,
                                ;
                            }
                        }
                    }
                    return Some(index * 8 + i);
                }
                proof {
                    let jj = i as u8;
                    assert(((byte >> jj) & 1) == 1) by (bit_vector)
                        requires
                            ((byte >> jj) & 1) != 0,
                    ;
                }
                i = i + 1;
            }
            proof {
                lemma_next_byte_all_set(bitmap@, index as int, byte);
            }
        } else {
            proof {
                assert forall|t: int| 0 <= t < 8 implies #[trigger] byte_bit(byte, t) by {
                    lemma_byte_full(byte, t as u8);
                }
                lemma_next_byte_all_set(bitmap@, index as int, byte);
            }
        }
        index = index + 1;
    }
    proof {
        assert forall|j: int| 0 <= j < 8 * bitmap@.len() implies #[trigger] byte_bit(bitmap@[j / 8], j % 8) by {
            lemma_fundamental_div_mod(j, 8);
            assert(j / 8 < bitmap@.len()) by (nonlinear_arith)
                requires
                    j == 8 * (j / 8) + j % 8,
                    0 <= j % 8 < 8,
                    j < 8 * bitmap@.len(),
            ;
            assert(j < (bitmap@.len() as int) * 8) by (nonlinear_arith)
                requires
                    j < 8 * bitmap@.len(),
            ;
        }
    }
    None
}

/// Splitting a bit index into byte and bit number.
proof fn lemma_combine8(b: int, s: int)
    requires
        0 <= b,
        0 <= s < 8,
    ensures
        (b * 8 + s) / 8 == b,
        (b * 8 + s) % 8 == s,
{
    let x = b * 8 + s;
    lemma_fundamental_div_mod(x, 8);
    let d = x / 8 - b;
    assert(8 * d == s - x % 8) by (nonlinear_arith)
        requires
            x == 8 * (x / 8) + x % 8,
            x == b * 8 + s,
            d == x / 8 - b,
    ;
    assert(d == 0) by (nonlinear_arith)
        requires
            8 * d == s - x % 8,
            -8 < s - x % 8 < 8,
    ;
}

/// If all eight bits of byte `index` are set, the all-bits-set prefix
/// extends across it.
proof fn lemma_next_byte_all_set(s: Seq<u8>, index: int, byte: u8)
    requires
        0 <= index < s.len(),
        byte == s[index],
        forall|t: int| 0 <= t < 8 ==> #[trigger] byte_bit(byte, t),
        forall|j: int| 0 <= j < index * 8 ==> #[trigger] byte_bit(s[j / 8], j % 8),
    ensures
        forall|j: int| 0 <= j < (index + 1) * 8 ==> #[trigger] byte_bit(s[j / 8], j % 8),
{
    assert forall|j: int| 0 <= j < (index + 1) * 8 implies #[trigger] byte_bit(s[j / 8], j % 8) by {
        lemma_fundamental_div_mod(j, 8);
        if j >= index * 8 {
            assert(j / 8 == index && j % 8 < 8) by (nonlinear_arith)
                requires
                    j == 8 * (j / 8) + j % 8,
                    0 <= j % 8 < 8,
                    index * 8 <= j < (index + 1) * 8,
            ;
        }
    }
}

/// A key handed out by [`SizedTable::insert`]: the global slot index.
#[derive(Clone, Debug, PartialEq)]
pub struct Key {
    pub index: usize,
}

/// The failures of [`SizedTable`] operations.
#[derive(Clone, Debug, PartialEq)]
pub enum TableError {
    KeyOutOfRange,
    KeyUnused { key: Key },
    InvalidExtentSize { size: usize },
}

/// A table of fixed-width records whose whole state, bitmap included,
/// lives on the extent it owns.
pub struct SizedTable<E: Extent> {
    extent: E,
    data_size: usize,
}

impl<E: Extent> SizedTable<E> {
    /// The bytes of the owned extent.
    pub closed spec fn storage(&self) -> Seq<u8> {
        self.extent.bytes()
    }

    /// The record width in bytes.
    pub closed spec fn width(&self) -> int {
        self.data_size as int
    }

    /// The number of blocks on the extent.
    pub open spec fn nblocks(&self) -> int {
        (self.storage().len() - 8) / block_bytes(self.width())
    }

    /// The number of addressable slots.
    pub open spec fn cap(&self) -> int {
        self.nblocks() * 2040
    }

    /// Well-formedness: the extent holds the header and a whole number of
    /// blocks, and the header byte count matches the record width.
    pub open spec fn inv(&self) -> bool {
        &&& self.width() >= 0
        &&& self.storage().len() >= 8
        &&& (self.storage().len() - 8) % block_bytes(self.width()) == 0
        &&& le_at(self.storage(), 0, 8) == self.width()
    }

    /// Whether slot `k` holds a live record.
    pub open spec fn live(&self, k: int) -> bool {
        byte_bit(self.storage()[slot_bitmap_pos(self.width(), k)], (k % 2040) % 8)
    }

    /// The record bytes of slot `k`.
    pub open spec fn slot_bytes(&self, k: int) -> Seq<u8> {
        self.storage().subrange(
            slot_data_pos(self.width(), k),
            slot_data_pos(self.width(), k) + self.width(),
        )
    }

    /// What a lookup of key `k` yields: the record bytes of a live slot in
    /// range, nothing otherwise.
    pub open spec fn lookup(&self, k: int) -> Option<Seq<u8>> {
        if 0 <= k < self.cap() && self.live(k) {
            Some(self.slot_bytes(k))
        } else {
            None
        }
    }

    /// Whether a byte sequence can be loaded back as a table.
    pub open spec fn loadable(s: Seq<u8>) -> bool {
        &&& s.len() >= 8
        &&& le_at(s, 0, 8) <= usize::MAX
        &&& (s.len() - 8) % block_bytes(le_at(s, 0, 8)) == 0
    }

    /// Creates a fresh table of `data_size`-byte records on the extent,
    /// discarding whatever the extent held.
    pub fn new(extent: E, data_size: usize) -> (r: Result<Self, TableError>)
        ensures
            match r {
                Ok(t) => t.inv() && t.width() == data_size && t.nblocks() == 0 && t.cap() == 0
                    && t.storage().len() == 8,
                Err(e) => false,
            },
    {
        let mut extent = extent;
        extent.resize(HEADER_SIZE);
        proof {
            lemma_pow256_values();
        }
        write_le(&mut extent, 0, 8, data_size as u64);
        let t = Self { extent, data_size };
        proof {
            assert((t.storage().len() - 8) % block_bytes(t.width()) == 0);
        }
        Ok(t)
    }

    /// Loads a table from an extent, validating the layout: the extent must
    /// hold the header plus a whole number of blocks.
    pub fn try_load(extent: E) -> (r: Result<Self, TableError>)
        ensures
            match r {
                Ok(t) => Self::loadable(extent.bytes()) && t.inv() && t.storage() == extent.bytes()
                    && t.width() == le_at(extent.bytes(), 0, 8),
                Err(e) => !Self::loadable(extent.bytes()) && e == (TableError::InvalidExtentSize {
                    size: extent.bytes().len() as usize,
                }),
            },
    {
        let total = extent.len();
        if total < 8 {
            return Err(TableError::InvalidExtentSize { size: total });
        }
        let header = read_le(&extent, 0, 8);
        proof {
            lemma_pow256_values();
        }
        if header > usize::MAX as u64 {
            return Err(TableError::InvalidExtentSize { size: total });
        }
        let data_size = header as usize;
        if total == 8 {
            proof {
                crate::codec::lemma_le_at_bound(extent.bytes(), 0, 8);
                assert(block_bytes(le_at(extent.bytes(), 0, 8)) > 0);
            }
            let t = Self { extent, data_size };
            return Ok(t);
        }
        if data_size > (usize::MAX - 255) / 2040 {
            proof {
                lemma_fundamental_div_mod((usize::MAX - 255) as int, 2040);
                assert(2040 * (data_size as int) > usize::MAX - 255) by (nonlinear_arith)
                    requires
                        data_size as int >= ((usize::MAX - 255) as int) / 2040 + 1,
                        (usize::MAX - 255) as int == 2040 * (((usize::MAX - 255) as int) / 2040) + (
                        (usize::MAX - 255) as int) % 2040,
                        0 <= ((usize::MAX - 255) as int) % 2040 < 2040,
                ;
                let bb = block_bytes(data_size as int);
                assert((total - 8) % bb != 0) by {
                    assert(0 < total - 8 < bb);
                    vstd::arithmetic::div_mod::lemma_small_mod((total - 8) as nat, bb as nat);
                }
            }
            return Err(TableError::InvalidExtentSize { size: total });
        }
        let bb = BITMAP_SIZE + BLOCK_SIZE * data_size;
        if (total - HEADER_SIZE) % bb != 0 {
            return Err(TableError::InvalidExtentSize { size: total });
        }
        let t = Self { extent, data_size };
        Ok(t)
    }

    fn get_number_blocks(&self) -> (r: usize)
        requires
            self.inv(),
        ensures
            r == self.nblocks(),
    {
        let total = self.extent.len();
        if self.data_size > (usize::MAX - 255) / 2040 {
            proof {
                lemma_fundamental_div_mod((usize::MAX - 255) as int, 2040);
                assert(2040 * (self.data_size as int) > usize::MAX - 255) by (nonlinear_arith)
                    requires
                        self.data_size as int >= ((usize::MAX - 255) as int) / 2040 + 1,
                        (usize::MAX - 255) as int == 2040 * (((usize::MAX - 255) as int) / 2040) + (
                        (usize::MAX - 255) as int) % 2040,
                        0 <= ((usize::MAX - 255) as int) % 2040 < 2040,
                ;
                let bb = block_bytes(self.width());
                vstd::arithmetic::div_mod::lemma_basic_div(total - 8, bb);
            }
            0
        } else {
            let bb = BITMAP_SIZE + BLOCK_SIZE * self.data_size;
            (total - HEADER_SIZE) / bb
        }
    }

    fn load_bitmap(&self, block_number: usize) -> (r: Vec<u8>)
        requires
            self.inv(),
            block_number < self.nblocks(),
        ensures
            r@ == self.storage().subrange(
                8 + block_number * block_bytes(self.width()),
                8 + block_number * block_bytes(self.width()) + 255,
            ),
    {
        let total = self.extent.len();
        proof {
            lemma_nblocks_extent(self.storage().len() as int, self.width(), self.nblocks());
            lemma_slot_layout(self.width(), self.nblocks(), block_number as int * 2040);
            assert(block_number as int * 2040 < self.nblocks() * 2040) by (nonlinear_arith)
                requires
                    (block_number as int) < self.nblocks(),
            ;
            assert((block_number as int * 2040) / 2040 == block_number && (block_number as int
                * 2040) % 2040 == 0) by (nonlinear_arith);
        }
        let bb = BITMAP_SIZE + BLOCK_SIZE * self.data_size;
        let start = block_number * bb + HEADER_SIZE;
        read_bytes(&self.extent, start, BITMAP_SIZE)
    }

    /// Looks up the record stored under `key`.
    pub fn get(&self, key: Key) -> (r: Result<Vec<u8>, TableError>)
        requires
            self.inv(),
        ensures
            match r {
                Ok(v) => key.index < self.cap() && self.live(key.index as int) && v@
                    == self.slot_bytes(key.index as int),
                Err(TableError::KeyOutOfRange) => key.index >= self.cap(),
                Err(TableError::KeyUnused { key: k2 }) => k2 == key && key.index < self.cap()
                    && !self.live(key.index as int),
                Err(TableError::InvalidExtentSize { .. }) => false,
            },
    {
        let ghost k = key.index as int;
        let ghost w = self.width();
        let block_number = key.index / BLOCK_SIZE;
        let nb = self.get_number_blocks();
        proof {
            lemma_fundamental_div_mod(k, 2040);
        }
        if block_number >= nb {
            proof {
                assert(k >= (nb as int) * 2040) by (nonlinear_arith)
                    requires
                        k == 2040 * (k / 2040) + k % 2040,
                        k / 2040 >= (nb as int),
                        0 <= k % 2040,
                ;
            }
            return Err(TableError::KeyOutOfRange);
        }
        proof {
            lemma_nblocks_extent(self.storage().len() as int, w, nb as int);
            assert(k < (nb as int) * 2040) by (nonlinear_arith)
                requires
                    k == 2040 * (k / 2040) + k % 2040,
                    k / 2040 < (nb as int),
                    k % 2040 < 2040,
            ;
            lemma_slot_layout(w, nb as int, k);
            assert(block_bytes(w) <= (nb as int) * block_bytes(w)) by (nonlinear_arith)
                requires
                    (nb as int) >= 1,
                    block_bytes(w) >= 0,
            ;
            assert((block_number as int) * block_bytes(w) == (k / 2040) * block_bytes(w));
        }
        let total = self.extent.len();
        let bb = BITMAP_SIZE + BLOCK_SIZE * self.data_size;
        let bitmap_location = HEADER_SIZE + block_number * bb + (key.index % BLOCK_SIZE) / 8;
        let byte = self.extent.get(bitmap_location);
        let sbit = ((key.index % BLOCK_SIZE) % 8) as u8;
        let bit = (byte >> sbit) & 1;
        proof {
            lemma_byte_bit_01(byte, sbit);
        }
        if bit == 0 {
            return Err(TableError::KeyUnused { key });
        }
        let start = HEADER_SIZE + block_number * bb + BITMAP_SIZE + (key.index % BLOCK_SIZE)
            * self.data_size;
        let out = read_bytes(&self.extent, start, self.data_size);
        Ok(out)
    }

    /// Stores a record in the lowest free slot, growing the extent by one
    /// block when every slot is live. Returns the global slot index.
    pub fn insert(&mut self, data: Vec<u8>) -> (r: Result<Key, TableError>)
        requires
            old(self).inv(),
            data@.len() == old(self).width(),
            old(self).storage().len() + 255 + 2040 * old(self).width() <= usize::MAX,
            old(self).width() == 0 ==> old(self).cap() + 2040 <= usize::MAX,
        ensures
            match r {
                Ok(key) => insert_effect(*old(self), *final(self), key.index as int, data@) && (
                final(self).storage().len() == old(self).storage().len() || final(self).storage().len() == old(self).storage().len() + 255 + 2040 * old(self).width()),
                Err(e) => false,
            },
    {
        let ghost pre = *old(self);
        let ghost w = pre.width();
        let nb = self.get_number_blocks();
        let total = self.extent.len();
        let bb = BITMAP_SIZE + BLOCK_SIZE * self.data_size;
        proof {
            lemma_nblocks_extent(pre.storage().len() as int, w, nb as int);
        }
        let mut i: usize = 0;
        while i < nb
            invariant
                *self == pre,
                pre == *old(self),
                pre.inv(),
                data@.len() == w == pre.width(),
                pre.storage().len() + block_bytes(w) <= usize::MAX,
                w == 0 ==> pre.cap() + 2040 <= usize::MAX,
                nb == pre.nblocks(),
                pre.storage().len() == 8 + (nb as int) * block_bytes(w),
                total == pre.storage().len(),
                bb == block_bytes(w),
                i <= nb,
                forall|t: int| 0 <= t < i * 2040 ==> pre.live(t),
            decreases nb - i,
        {
            let bitmap = self.load_bitmap(i);
            let ghost bm = bitmap@;
            proof {
                assert(((i as int) + 1) * block_bytes(w) <= (nb as int) * block_bytes(w))
                    by (nonlinear_arith)
                    requires
                        (i as int) + 1 <= (nb as int),
                        block_bytes(w) >= 0,
                ;
                assert(((i as int) + 1) * block_bytes(w) == (i as int) * block_bytes(w)
                    + block_bytes(w)) by (nonlinear_arith);
                assert(0 <= (i as int) * block_bytes(w)) by (nonlinear_arith)
                    requires
                        0 <= i,
                        0 <= block_bytes(w),
                ;
                assert(bm.len() == 255);
            }
            if let Some(index) = get_first_0(bitmap) {
                let ghost k = (i as int) * 2040 + (index as int);
                proof {
                    lemma_block_prefix_live(pre, i as int, bm, index as int);
                    lemma_combine(i as int, index as int);
                    assert(k < (nb as int) * 2040) by (nonlinear_arith)
                        requires
                            k == (i as int) * 2040 + index,
                            (i as int) < (nb as int),
                            index < 2040,
                    ;
                    lemma_slot_layout(w, nb as int, k);
                    assert((k % 2040) == index as int && (k / 2040) == i as int);
                    assert(slot_data_pos(w, k) + w <= total);
                    assert(slot_bitmap_pos(w, k) < total);
                    if w >= 1 {
                        assert((nb as int) * 2040 <= (nb as int) * block_bytes(w))
                            by (nonlinear_arith)
                            requires
                                w >= 1,
                                (nb as int) >= 0,
                        ;
                    }
                    assert(k < usize::MAX as int);
                }
                let key = i * BLOCK_SIZE + index;
                let start = index * self.data_size + i * bb + BITMAP_SIZE + HEADER_SIZE;
                proof {
                    assert(start == slot_data_pos(w, k));
                }
                write_bytes(&mut self.extent, start, &data);
                let bitmap_location = i * bb + HEADER_SIZE + index / 8;
                proof {
                    assert(bitmap_location == slot_bitmap_pos(w, k));
                    lemma_bitmap_outside_data(w, k, k);
                }
                let b0 = self.extent.get(bitmap_location);
                self.extent.set(bitmap_location, b0 | (1u8 << ((index % 8) as u8)));
                proof {
                    assert(b0 == pre.storage()[slot_bitmap_pos(w, k)]);
                    lemma_insert_existing_effect(pre, *self, k, data@, b0);
                }
                return Ok(Key { index: key });
            }
            proof {
                lemma_block_all_live(pre, i as int, bm);
            }
            i = i + 1;
        }
        proof {
            if w >= 1 {
                assert((nb as int) * 2040 <= (nb as int) * block_bytes(w)) by (nonlinear_arith)
                    requires
                        w >= 1,
                        (nb as int) >= 0,
                ;
            }
            assert((nb as int) * 2040 <= usize::MAX);
        }
        let new_index = nb * BLOCK_SIZE;
        let old_len = total;
        self.extent.resize(old_len + bb);
        write_bytes(&mut self.extent, old_len + BITMAP_SIZE, &data);
        self.extent.set(old_len, 0x1);
        proof {
            lemma_insert_grow_effect(pre, *self, data@);
        }
        Ok(Key { index: new_index })
    }

    /// The extent the table lives on.
    pub fn extent(&self) -> (r: &E)
        ensures
            r.bytes() == self.storage(),
    {
        &self.extent
    }

    /// The record width the table was created with.
    pub fn data_size(&self) -> (r: usize)
        ensures
            r == self.width(),
    {
        self.data_size
    }
}

/// How [`SizedTable::insert`] changes a table: `k` is the lowest free
/// slot (or the first slot of a freshly grown block), it now holds `v`
/// live, and every other slot is untouched.
pub open spec fn insert_effect<E: Extent>(
    pre: SizedTable<E>,
    post: SizedTable<E>,
    k: int,
    v: Seq<u8>,
) -> bool {
    &&& post.inv()
    &&& post.width() == pre.width()
    &&& 0 <= k <= pre.cap()
    &&& (forall|j: int| 0 <= j < k ==> pre.live(j))
    &&& (k < pre.cap() ==> !pre.live(k) && post.cap() == pre.cap())
    &&& (k == pre.cap() ==> post.cap() == pre.cap() + 2040 && (forall|j: int|
        pre.cap() < j < post.cap() ==> !post.live(j)))
    &&& post.live(k)
    &&& post.slot_bytes(k) == v
    &&& (forall|j: int|
        0 <= j < pre.cap() && j != k ==> post.live(j) == pre.live(j) && post.slot_bytes(j)
            == pre.slot_bytes(j))
}

/// The bits of a loaded block bitmap decide liveness of that block's slots.
proof fn lemma_block_bit_is_live<E: Extent>(pre: SizedTable<E>, i: int, bm: Seq<u8>, s: int)
    requires
        pre.inv(),
        0 <= i < pre.nblocks(),
        bm == pre.storage().subrange(
            8 + i * block_bytes(pre.width()),
            8 + i * block_bytes(pre.width()) + 255,
        ),
        0 <= s < 2040,
    ensures
        pre.live(i * 2040 + s) == byte_bit(bm[s / 8], s % 8),
{
    let w = pre.width();
    let t = i * 2040 + s;
    lemma_nblocks_extent(pre.storage().len() as int, w, pre.nblocks());
    lemma_combine(i, s);
    assert(2040 * i + s == t) by (nonlinear_arith)
        requires
            t == i * 2040 + s,
    ;
    lemma_slot_layout(w, pre.nblocks(), t);
    lemma_fundamental_div_mod(s, 8);
    assert(slot_bitmap_pos(w, t) == 8 + i * block_bytes(w) + s / 8);
    assert(bm[s / 8] == pre.storage()[8 + i * block_bytes(w) + s / 8]);
}

/// Where the first clear bit of block `i`'s bitmap sits, the slot is free
/// and every earlier slot of the block is live.
proof fn lemma_block_prefix_live<E: Extent>(pre: SizedTable<E>, i: int, bm: Seq<u8>, index: int)
    requires
        pre.inv(),
        0 <= i < pre.nblocks(),
        bm == pre.storage().subrange(
            8 + i * block_bytes(pre.width()),
            8 + i * block_bytes(pre.width()) + 255,
        ),
        0 <= index < 2040,
        !byte_bit(bm[index / 8], index % 8),
        forall|j: int| 0 <= j < index ==> #[trigger] byte_bit(bm[j / 8], j % 8),
    ensures
        !pre.live(i * 2040 + index),
        forall|t: int| i * 2040 <= t < i * 2040 + index ==> pre.live(t),
{
    lemma_block_bit_is_live(pre, i, bm, index);
    assert forall|t: int| i * 2040 <= t < i * 2040 + index implies pre.live(t) by {
        let s = t - i * 2040;
        lemma_block_bit_is_live(pre, i, bm, s);
        assert(byte_bit(bm[s / 8], s % 8));
        assert(pre.live(i * 2040 + s) && i * 2040 + s == t);
    }
}

/// A block whose bitmap has no clear bit holds only live slots.
proof fn lemma_block_all_live<E: Extent>(pre: SizedTable<E>, i: int, bm: Seq<u8>)
    requires
        pre.inv(),
        0 <= i < pre.nblocks(),
        bm.len() == 255,
        bm == pre.storage().subrange(
            8 + i * block_bytes(pre.width()),
            8 + i * block_bytes(pre.width()) + 255,
        ),
        forall|j: int| 0 <= j < 8 * bm.len() ==> #[trigger] byte_bit(bm[j / 8], j % 8),
    ensures
        forall|t: int| i * 2040 <= t < (i + 1) * 2040 ==> pre.live(t),
{
    assert forall|t: int| i * 2040 <= t < (i + 1) * 2040 implies pre.live(t) by {
        let s = t - i * 2040;
        assert(0 <= s < 2040) by (nonlinear_arith)
            requires
                i * 2040 <= t < (i + 1) * 2040,
                s == t - i * 2040,
        ;
        lemma_block_bit_is_live(pre, i, bm, s);
        assert(byte_bit(bm[s / 8], s % 8));
        assert(pre.live(i * 2040 + s) && i * 2040 + s == t);
    }
}

/// Byte-level effect of filling a free slot in an existing block.
proof fn lemma_insert_existing_effect<E: Extent>(
    pre: SizedTable<E>,
    post: SizedTable<E>,
    k: int,
    v: Seq<u8>,
    b0: u8,
)
    requires
        pre.inv(),
        post.width() == pre.width(),
        0 <= k < pre.cap(),
        !pre.live(k),
        forall|j: int| 0 <= j < k ==> pre.live(j),
        v.len() == pre.width(),
        post.storage().len() == pre.storage().len(),
        b0 == pre.storage()[slot_bitmap_pos(pre.width(), k)],
        forall|t: int|
            0 <= t < pre.storage().len() && !(slot_data_pos(pre.width(), k) <= t < slot_data_pos(
                pre.width(),
                k,
            ) + pre.width()) && t != slot_bitmap_pos(pre.width(), k)
                ==> post.storage()[t] == pre.storage()[t],
        forall|j: int|
            0 <= j < v.len() ==> #[trigger] post.storage()[slot_data_pos(pre.width(), k) + j]
                == v[j],
        post.storage()[slot_bitmap_pos(pre.width(), k)] == b0 | (1u8 << (((k % 2040) % 8) as u8)),
    ensures
        insert_effect(pre, post, k, v),
{
    let w = pre.width();
    let nb = pre.nblocks();
    lemma_nblocks_extent(pre.storage().len() as int, w, nb);
    lemma_slot_layout(w, nb, k);
    let bp = slot_bitmap_pos(w, k);
    let dp = slot_data_pos(w, k);
    let kb = (k % 2040) % 8;
    // the header is untouched, so the load-time invariant survives
    assert forall|t: int| 0 <= t < 8 implies post.storage()[t] == pre.storage()[t] by {
        lemma_bitmap_outside_data(w, k, k);
    }
    lemma_le_at_agree(post.storage(), pre.storage(), 0, 8);
    assert(post.inv());
    assert(post.cap() == pre.cap());
    // the slot is now live and holds v
    lemma_byte_set_bit(b0, kb as u8, kb as u8);
    assert(post.live(k));
    assert forall|j: int| 0 <= j < v.len() implies post.slot_bytes(k)[j] == v[j] by {
        assert(post.storage()[slot_data_pos(w, k) + j] == v[j]);
    }
    assert(post.slot_bytes(k) =~= v);
    // every other slot keeps its bit and bytes
    assert forall|j: int| 0 <= j < pre.cap() && j != k implies post.live(j) == pre.live(j)
        && post.slot_bytes(j) == pre.slot_bytes(j) by {
        lemma_slot_layout(w, nb, j);
        lemma_slots_disjoint(w, j, k);
        lemma_bitmap_outside_data(w, j, k);
        lemma_bitmap_outside_data(w, k, j);
        let bpj = slot_bitmap_pos(w, j);
        let jb = (j % 2040) % 8;
        if bpj == bp {
            assert(jb != kb);
            lemma_byte_set_bit(b0, kb as u8, jb as u8);
            assert(post.live(j) == pre.live(j));
        } else {
            assert(post.storage()[bpj] == pre.storage()[bpj]);
        }
        assert forall|t: int| 0 <= t < w implies post.slot_bytes(j)[t] == pre.slot_bytes(j)[t] by {
            let p = slot_data_pos(w, j) + t;
            assert(!(dp <= p < dp + w));
            assert(p != bp);
            assert(post.storage()[p] == pre.storage()[p]);
        }
        assert(post.slot_bytes(j) =~= pre.slot_bytes(j));
    }
}

/// Byte-level effect of growing the extent by one block and filling its
/// first slot.
proof fn lemma_insert_grow_effect<E: Extent>(pre: SizedTable<E>, post: SizedTable<E>, v: Seq<u8>)
    requires
        pre.inv(),
        post.width() == pre.width(),
        forall|j: int| 0 <= j < pre.cap() ==> pre.live(j),
        v.len() == pre.width(),
        post.storage().len() == pre.storage().len() + block_bytes(pre.width()),
        forall|t: int|
            0 <= t < pre.storage().len() ==> post.storage()[t] == pre.storage()[t],
        forall|t: int|
            pre.storage().len() < t < post.storage().len() && !(pre.storage().len() + 255 <= t
                < pre.storage().len() + 255 + pre.width()) ==> post.storage()[t] == 0,
        forall|j: int|
            0 <= j < v.len() ==> #[trigger] post.storage()[pre.storage().len() + 255 + j] == v[j],
        post.storage()[pre.storage().len() as int] == 1u8,
    ensures
        insert_effect(pre, post, pre.cap(), v),
{
    let w = pre.width();
    let nb = pre.nblocks();
    let bb = block_bytes(w);
    let l = pre.storage().len() as int;
    let k = pre.cap();
    lemma_nblocks_extent(l, w, nb);
    // the enlarged extent is again header plus whole blocks
    assert(post.storage().len() - 8 == (nb + 1) * bb) by (nonlinear_arith)
        requires
            post.storage().len() == l + bb,
            l - 8 == nb * bb,
    ;
    vstd::arithmetic::div_mod::lemma_mod_multiples_basic(nb + 1, bb);
    vstd::arithmetic::div_mod::lemma_div_multiples_vanish(nb + 1, bb);
    assert(bb * (nb + 1) == (nb + 1) * bb) by (nonlinear_arith);
    lemma_le_at_agree(post.storage(), pre.storage(), 0, 8);
    assert(post.inv());
    assert(post.nblocks() == nb + 1);
    assert(post.cap() == pre.cap() + 2040) by (nonlinear_arith)
        requires
            post.nblocks() == nb + 1,
            post.cap() == post.nblocks() * 2040,
            pre.cap() == nb * 2040,
    ;
    // the fresh slot: block nb, slot 0
    lemma_combine(nb, 0);
    assert(k == 2040 * nb + 0) by (nonlinear_arith)
        requires
            k == nb * 2040,
    ;
    assert(slot_bitmap_pos(w, k) == l);
    assert(slot_data_pos(w, k) == l + 255);
    lemma_byte_one(0);
    assert(post.live(k));
    assert forall|j: int| 0 <= j < v.len() implies post.slot_bytes(k)[j] == v[j] by {
        assert(post.storage()[l + 255 + j] == v[j]);
    }
    assert(post.slot_bytes(k) =~= v);
    // old slots sit wholly below the old length and are untouched
    assert forall|j: int| 0 <= j < pre.cap() && j != k implies post.live(j) == pre.live(j)
        && post.slot_bytes(j) == pre.slot_bytes(j) by {
        lemma_slot_layout(w, nb, j);
        assert(post.storage()[slot_bitmap_pos(w, j)] == pre.storage()[slot_bitmap_pos(w, j)]);
        assert forall|t: int| 0 <= t < w implies post.slot_bytes(j)[t] == pre.slot_bytes(j)[t] by {
            assert(post.storage()[slot_data_pos(w, j) + t] == pre.storage()[slot_data_pos(w, j)
                + t]);
        }
        assert(post.slot_bytes(j) =~= pre.slot_bytes(j));
    }
    // the rest of the fresh block is free
    assert forall|j: int| pre.cap() < j < post.cap() implies !post.live(j) by {
        lemma_slot_layout(w, nb + 1, j);
        let s = j % 2040;
        assert(j / 2040 == nb && 1 <= s < 2040) by {
            lemma_combine(nb, j - k);
            assert(j == 2040 * nb + (j - k)) by (nonlinear_arith)
                requires
                    k == nb * 2040,
            ;
            assert(0 < j - k < 2040);
        }
        let bpj = slot_bitmap_pos(w, j);
        assert(bpj == l + s / 8);
        if s / 8 == 0 {
            lemma_byte_one((s % 8) as u8);
            assert(s % 8 != 0) by {
                lemma_fundamental_div_mod(s, 8);
            }
            assert(!post.live(j));
        } else {
            assert(l < bpj < l + 255);
            assert(post.storage()[bpj] == 0);
            lemma_byte_zero((s % 8) as u8);
            assert(!post.live(j));
        }
    }
}

/// Round-trip law: a record just inserted under key `k` reads back
/// unchanged.
pub proof fn lemma_insert_get_round_trip<E: Extent>(
    pre: SizedTable<E>,
    post: SizedTable<E>,
    k: int,
    v: Seq<u8>,
)
    requires
        pre.inv(),
        insert_effect(pre, post, k, v),
    ensures
        post.lookup(k) == Some(v),
{
}

/// Key stability law: an insertion never changes what any previously
/// issued key looks up.
pub proof fn lemma_insert_preserves_keys<E: Extent>(
    pre: SizedTable<E>,
    post: SizedTable<E>,
    k: int,
    v: Seq<u8>,
    j: int,
)
    requires
        pre.inv(),
        insert_effect(pre, post, k, v),
        pre.lookup(j) is Some,
    ensures
        post.lookup(j) == pre.lookup(j),
{
    assert(pre.live(j));
    assert(j != k);
}

/// Free-slot monotonicity law: in a table whose live keys are exactly
/// `0..n`, the next insertion is issued key `n`, and the live keys become
/// exactly `0..n + 1`.
pub proof fn lemma_keys_issued_in_order<E: Extent>(
    pre: SizedTable<E>,
    post: SizedTable<E>,
    k: int,
    v: Seq<u8>,
    n: int,
)
    requires
        pre.inv(),
        0 <= n <= pre.cap(),
        forall|j: int| 0 <= j < pre.cap() ==> (pre.live(j) <==> j < n),
        insert_effect(pre, post, k, v),
    ensures
        k == n,
        forall|j: int| 0 <= j < post.cap() ==> (post.live(j) <==> j < n + 1),
{
    if k < n {
        assert(pre.live(k));
        assert(false);
    }
    if k > n {
        assert(pre.live(n));
        assert(false);
    }
    assert forall|j: int| 0 <= j < post.cap() implies (post.live(j) <==> j < n + 1) by {
        if j == k {
        } else if j < pre.cap() {
            assert(post.live(j) == pre.live(j));
        } else {
            assert(!post.live(j));
        }
    }
}

/// The extent of a well-formed table is exactly header plus blocks.
proof fn lemma_nblocks_extent(len: int, w: int, nb: int)
    requires
        w >= 0,
        len >= 8,
        (len - 8) % block_bytes(w) == 0,
        nb == (len - 8) / block_bytes(w),
    ensures
        len == 8 + nb * block_bytes(w),
        nb >= 0,
{
    lemma_fundamental_div_mod(len - 8, block_bytes(w));
    assert(nb >= 0) by (nonlinear_arith)
        requires
            len - 8 >= 0,
            block_bytes(w) >= 1,
            len - 8 == block_bytes(w) * nb,
    ;
    assert(block_bytes(w) * nb == nb * block_bytes(w)) by (nonlinear_arith);
}

} // verus!
