//! A fixed-width record table whose occupancy bitmap lives in memory
//! beside the extent, rather than on it.

use crate::extent::{read_bytes, write_bytes, Extent};
use vstd::arithmetic::div_mod::lemma_fundamental_div_mod;
use vstd::prelude::*;

verus! {

/// Whether bit `j` of the word `w` is set; bit 0 is the least significant.
pub open spec fn word_bit(w: u64, j: int) -> bool {
    ((w >> (j as u64)) & 1) == 1
}

proof fn lemma_zero_word_bit(j: u64)
    requires
        j < 64,
    ensures
        ((0u64 >> j) & 1) == 0,
{
    assert(((0u64 >> j) & 1) == 0) by (bit_vector);
}

proof fn lemma_full_word_bit(w: u64, j: u64)
    requires
        w == u64::MAX,
        j < 64,
    ensures
        ((w >> j) & 1) == 1,
{
    assert(((w >> j) & 1) == 1) by (bit_vector)
        requires
            w == u64::MAX,
            j < 64,
    ;
}

proof fn lemma_set_word_bit(w: u64, k: u64, j: u64)
    requires
        k < 64,
        j < 64,
    ensures
        (((w | (1u64 << k)) >> j) & 1) == (if j == k {
            1u64
        } else {
            (w >> j) & 1
        }),
{
    assert((((w | (1u64 << k)) >> j) & 1) == (if j == k {
        1u64
    } else {
        (w >> j) & 1
    })) by (bit_vector)
        requires
            k < 64,
            j < 64,
    ;
}

proof fn lemma_clear_word_bit(w: u64, k: u64, j: u64)
    requires
        k < 64,
        j < 64,
    ensures
        (((w & ((1u64 << k) ^ u64::MAX)) >> j) & 1) == (if j == k {
            0u64
        } else {
            (w >> j) & 1
        }),
{
    assert((((w & ((1u64 << k) ^ 0xffff_ffff_ffff_ffffu64)) >> j) & 1) == (if j == k {
        0u64
    } else {
        (w >> j) & 1
    })) by (bit_vector)
        requires
            k < 64,
            j < 64,
    ;
}

/// A growable bitmap packed into 64-bit words.
pub struct Bitmap {
    data: Vec<u64>,
    len: usize,
}

impl Bitmap {
    /// How many words hold `n` bits.
    pub open spec fn words_for(n: int) -> int {
        n / 64 + if n % 64 == 0 {
            0int
        } else {
            1int
        }
    }

    pub closed spec fn inv(&self) -> bool {
        &&& self.data@.len() == Self::words_for(self.len as int)
        &&& self.data@.len() * 64 <= usize::MAX
    }

    /// The bits held, as a sequence of booleans.
    pub closed spec fn bits(&self) -> Seq<bool> {
        Seq::new(self.len as nat, |i: int| word_bit(self.data@[i / 64], i % 64))
    }

    proof fn lemma_word_index(&self, i: int)
        requires
            self.inv(),
            0 <= i < self.len,
        ensures
            0 <= i / 64 < self.data@.len(),
            0 <= i % 64 < 64,
    {
        lemma_fundamental_div_mod(i, 64);
        lemma_fundamental_div_mod(self.len as int, 64);
    }

    /// A bitmap of `len` bits, all clear.
    pub fn new(len: usize) -> (r: Self)
        requires
            len <= usize::MAX - 63,
        ensures
            r.inv(),
            r.bits().len() == len,
            forall|i: int| 0 <= i < len ==> !r.bits()[i],
    {
        let m = len % 64;
        let mut alloc_size = len / 64;
        if m != 0 {
            alloc_size = alloc_size + 1;
        }
        let data: Vec<u64> = vec![0u64; alloc_size];
        let r = Bitmap { data, len };
        proof {
            lemma_fundamental_div_mod(len as int, 64);
            assert forall|i: int| 0 <= i < len implies !r.bits()[i] by {
                r.lemma_word_index(i);
                lemma_zero_word_bit((i % 64) as u64);
            }
        }
        r
    }

    /// The bit at `index`.
    pub fn get(&self, index: usize) -> (r: bool)
        requires
            self.inv(),
            index < self.bits().len(),
        ensures
            r == self.bits()[index as int],
    {
        proof {
            self.lemma_word_index(index as int);
        }
        let byte = self.data[index / 64];
        let bit = (byte >> ((index % 64) as u64)) & 0x1;
        bit == 1
    }

    /// The position of the lowest clear bit, if any bit below `len` is clear.
    pub fn get_first_free(&self) -> (r: Option<usize>)
        requires
            self.inv(),
        ensures
            match r {
                Some(i) => i < self.bits().len() && !self.bits()[i as int] && forall|j: int|
                    0 <= j < i ==> self.bits()[j],
                None => forall|j: int| 0 <= j < self.bits().len() ==> self.bits()[j],
            },
    {
        let mut index: usize = 0;
        while index < self.data.len()
            invariant
                self.inv(),
                index <= self.data@.len(),
                forall|j: int| 0 <= j < self.bits().len() && j < index * 64 ==> self.bits()[j],
            decreases self.data@.len() - index,
        {
            let i = self.data[index];
            if i != u64::MAX {
                let mut j: usize = 0;
                while j < 64
                    invariant
                        self.inv(),
                        j <= 64,
                        index < self.data@.len(),
                        i == self.data@[index as int],
                        forall|t: int|
                            0 <= t < self.bits().len() && t < index * 64 ==> self.bits()[t],
                        forall|t: int| 0 <= t < j ==> word_bit(i, t),
                    decreases 64 - j,
                {
                    if (i >> (j as u64)) & 1 == 0 {
                        proof {
                            assert(index * 64 + j + 1 <= self.data@.len() * 64) by (nonlinear_arith)
                                requires
                                    index < self.data@.len(),
                                    j < 64,
                            ;
                        }
                        let return_index = index * 64 + j;
                        proof {
                            assert forall|t: int| 0 <= t < return_index && t < self.bits().len()
                                implies self.bits()[t] by {
                                self.lemma_word_index(t);
                                if t / 64 == index {
                                    assert(t % 64 < j) by (nonlinear_arith)
                                        requires
                                            t / 64 == index,
                                            t < index * 64 + j,
                                            t % 64 == t - (t / 64) * 64,
                                            0 <= t % 64 < 64,
                                    ;
                                    assert(word_bit(i, t % 64));
                                } else {
                                    assert(t < index * 64) by (nonlinear_arith)
                                        requires
                                            t / 64 < index,
                                            t % 64 == t - (t / 64) * 64,
                                            0 <= t % 64 < 64,
                                    ;
                                }
                            }
                            if return_index < self.len {
                                self.lemma_word_index(return_index as int);
                                assert(return_index as int / 64 == index && return_index as int % 64
                                    == j) by (nonlinear_arith)
                                    requires
                                        index < self.data@.len(),
                                        j < 64,
                                        return_index == index * 64 + j,
                                ;
                                assert(!word_bit(i, j as int));
                            }
                        }
                        if return_index < self.len() {
                            return Some(return_index);
                        } else {
                            return None;
                        }
                    }
                    proof {
                        let jj = j as u64;
                        assert(((i >> jj) & 1) == 1) by (bit_vector)
                            requires
                                ((i >> jj) & 1) != 0,
                        ;
                    }
                    j = j + 1;
                }
                proof {
                    assert forall|t: int| 0 <= t < self.bits().len() && t < (index + 1) * 64
                        implies self.bits()[t] by {
                        self.lemma_word_index(t);
                        if t / 64 == index {
                            assert(word_bit(i, t % 64));
                        } else {
                            assert(t < index * 64) by (nonlinear_arith)
                                requires
                                    t / 64 < index,
                                    t % 64 == t - (t / 64) * 64,
                                    0 <= t % 64 < 64,
                            ;
                        }
                    }
                }
            } else {
                proof {
                    assert forall|t: int| 0 <= t < self.bits().len() && t < (index + 1) * 64
                        implies self.bits()[t] by {
                        self.lemma_word_index(t);
                        if t / 64 == index {
                            lemma_full_word_bit(i, (t % 64) as u64);
                        } else {
                            assert(t < index * 64) by (nonlinear_arith)
                                requires
                                    t / 64 < index,
                                    t % 64 == t - (t / 64) * 64,
                                    0 <= t % 64 < 64,
                            ;
                        }
                    }
                }
            }
            index = index + 1;
        }
        proof {
            assert forall|j: int| 0 <= j < self.bits().len() implies self.bits()[j] by {
                assert(j < self.data@.len() * 64) by {
                    self.lemma_word_index(j);
                    assert(j < (j / 64 + 1) * 64) by (nonlinear_arith)
                        requires
                            j % 64 == j - (j / 64) * 64,
                            0 <= j % 64 < 64,
                    ;
                    assert((j / 64 + 1) * 64 <= self.data@.len() * 64) by (nonlinear_arith)
                        requires
                            j / 64 + 1 <= self.data@.len(),
                    ;
                }
            }
        }
        None
    }

    /// Sets or clears the bit at `index`.
    pub fn set(&mut self, index: usize, state: bool)
        requires
            old(self).inv(),
            index < old(self).bits().len(),
        ensures
            final(self).inv(),
            final(self).bits() == old(self).bits().update(index as int, state),
    {
        proof {
            self.lemma_word_index(index as int);
        }
        let w = self.data[index / 64];
        if state == true {
            let set = 1u64 << ((index % 64) as u64);
            self.data[index / 64] = w | set;
        } else {
            let set = (1u64 << ((index % 64) as u64)) ^ u64::MAX;
            self.data[index / 64] = w & set;
        }
        proof {
            let new_bits = old(self).bits().update(index as int, state);
            assert forall|i: int| 0 <= i < self.bits().len() implies self.bits()[i] == new_bits[i]
                by {
                old(self).lemma_word_index(i);
                if i / 64 == index as int / 64 {
                    if state {
                        lemma_set_word_bit(w, (index % 64) as u64, (i % 64) as u64);
                    } else {
                        lemma_clear_word_bit(w, (index % 64) as u64, (i % 64) as u64);
                    }
                    if i != index {
                        assert(i % 64 != index as int % 64) by (nonlinear_arith)
                            requires
                                i / 64 == index as int / 64,
                                i != index,
                                i % 64 == i - (i / 64) * 64,
                                index as int % 64 == index - (index as int / 64) * 64,
                        ;
                    }
                }
            }
            assert(self.bits() =~= new_bits);
        }
    }

    /// The number of bits held.
    pub fn len(&self) -> (r: usize)
        ensures
            r == self.bits().len(),
    {
        self.len
    }

    /// Changes the length to `new_size`; bits below `min(old, new)` keep
    /// their values.
    pub fn resize(&mut self, new_size: usize)
        requires
            old(self).inv(),
            new_size <= usize::MAX - 63,
        ensures
            final(self).inv(),
            final(self).bits().len() == new_size,
            forall|i: int|
                0 <= i < new_size && i < old(self).bits().len() ==> final(self).bits()[i] == old(self).bits()[i],
            // bits in words first allocated by this growth read false
            forall|i: int|
                old(self).bits().len() <= i < new_size && i / 64 >= Self::words_for(
                    old(self).bits().len() as int,
                ) ==> !final(self).bits()[i],
    {
        let new_len = {
            let modulo = new_size % 64;
            if modulo != 0 {
                new_size / 64 + 1
            } else {
                new_size / 64
            }
        };
        self.data.resize(new_len, 0u64);
        self.len = new_size;
        proof {
            lemma_fundamental_div_mod(new_size as int, 64);
            assert forall|i: int| 0 <= i < new_size && i < old(self).bits().len() implies self.bits()[i]
                == old(self).bits()[i] by {
                self.lemma_word_index(i);
                old(self).lemma_word_index(i);
            }
            assert forall|i: int|
                old(self).bits().len() <= i < new_size && i / 64 >= Self::words_for(
                    old(self).bits().len() as int,
                ) implies !self.bits()[i] by {
                self.lemma_word_index(i);
                assert(self.data@[i / 64] == 0u64);
                lemma_zero_word_bit((i % 64) as u64);
            }
        }
    }
}

/// The lookup failures of [`DatabaseTable`].
#[derive(Clone, Copy, PartialEq, Eq, Debug)]
pub enum TableError {
    InvalidKey,
    InvalidLock,
    KeyNotUsed,
}

/// A key handed out by [`DatabaseTable::insert`]: the slot index.
#[derive(Debug, Clone, PartialEq)]
pub struct Key {
    pub index: usize,
}

/// Fixed-width records on an extent, with the occupancy bitmap kept in
/// memory. Slot `i` of the extent holds record `i`; a slot is live iff its
/// bitmap bit is set.
pub struct DatabaseTable<Store: Extent> {
    bitmap: Bitmap,
    data: Store,
    element_size: usize,
}

impl<Store: Extent> DatabaseTable<Store> {
    pub closed spec fn inv(&self) -> bool {
        &&& self.bitmap.inv()
        &&& self.data.bytes().len() == self.bitmap.bits().len() * self.element_size
    }

    /// The number of slots.
    pub closed spec fn nslots(&self) -> int {
        self.bitmap.bits().len() as int
    }

    /// The record width in bytes.
    pub closed spec fn width(&self) -> int {
        self.element_size as int
    }

    /// Whether slot `i` holds a live record.
    pub closed spec fn live(&self, i: int) -> bool {
        self.bitmap.bits()[i]
    }

    /// The bytes of slot `i`.
    pub closed spec fn record(&self, i: int) -> Seq<u8> {
        self.data.bytes().subrange(i * self.element_size, i * self.element_size + self.element_size)
    }

    /// Wraps an empty extent as a table of `element_size`-byte records.
    pub fn new(data: Store, element_size: usize) -> (r: Self)
        requires
            data.bytes().len() == 0,
        ensures
            r.inv(),
            r.nslots() == 0,
            r.width() == element_size,
    {
        let bitmap = Bitmap::new(0);
        Self { bitmap, data, element_size }
    }

    /// Looks a record up by key; any key that does not name a live slot is
    /// rejected.
    pub fn get(&self, key: Key) -> (r: Result<Vec<u8>, TableError>)
        requires
            self.inv(),
        ensures
            match r {
                Ok(v) => key.index < self.nslots() && self.live(key.index as int) && v@
                    == self.record(key.index as int),
                Err(e) => e == TableError::InvalidKey && !(key.index < self.nslots() && self.live(
                    key.index as int,
                )),
            },
    {
        if key.index >= self.bitmap.len() {
            return Err(TableError::InvalidKey);
        }
        if self.bitmap.get(key.index) == false {
            return Err(TableError::InvalidKey);
        }
        let total = self.data.len();
        proof {
            assert(key.index * self.element_size + self.element_size <= self.nslots()
                * self.element_size) by (nonlinear_arith)
                requires
                    key.index < self.nslots(),
                    self.element_size >= 0,
            ;
        }
        let out = read_bytes(&self.data, key.index * self.element_size, self.element_size);
        Ok(out)
    }

    /// Stores a record in the lowest free slot, growing the table by one
    /// slot if every slot is live. Returns the slot index as the key.
    pub fn insert(&mut self, data: Vec<u8>) -> (k: Key)
        requires
            old(self).inv(),
            data@.len() == old(self).width(),
            old(self).nslots() + 64 <= usize::MAX,
            old(self).nslots() * old(self).width() + old(self).width() <= usize::MAX,
        ensures
            final(self).inv(),
            final(self).width() == old(self).width(),
            k.index <= old(self).nslots(),
            forall|j: int| 0 <= j < k.index ==> old(self).live(j),
            k.index < old(self).nslots() ==> !old(self).live(k.index as int) && final(self).nslots() == old(self).nslots(),
            k.index == old(self).nslots() ==> final(self).nslots() == old(self).nslots() + 1,
            final(self).live(k.index as int),
            final(self).record(k.index as int) == data@,
            forall|j: int|
                0 <= j < old(self).nslots() && j != k.index ==> final(self).live(j) == old(self).live(j) && final(self).record(j) == old(self).record(j),
    {
        let ghost pre = *old(self);
        if let Some(index) = self.bitmap.get_first_free() {
            let total = self.data.len();
            self.bitmap.set(index, true);
            proof {
                assert(index * self.element_size + self.element_size <= self.nslots()
                    * self.element_size) by (nonlinear_arith)
                    requires
                        index < self.nslots(),
                        self.element_size >= 0,
                ;
            }
            write_bytes(&mut self.data, index * self.element_size, &data);
            proof {
                assert((index + 1) * pre.element_size as int == index * pre.element_size
                    + pre.element_size) by (nonlinear_arith);
                lemma_records_after_write(pre, *self, index as int, pre.nslots(), data@);
            }
            return Key { index };
        }
        let index = self.bitmap.len();
        let old_len = {
            proof {
                assert(self.nslots() * self.element_size <= usize::MAX);
            }
            let l = self.data.len();
            l
        };
        self.data.resize(old_len + self.element_size);
        self.bitmap.resize(index + 1);
        self.bitmap.set(index, true);
        proof {
            assert(index * self.element_size == old_len) by (nonlinear_arith)
                requires
                    old_len == pre.nslots() * pre.element_size,
                    index == pre.nslots(),
                    self.element_size == pre.element_size,
            ;
            assert((index + 1) * self.element_size == old_len + self.element_size)
                by (nonlinear_arith)
                requires
                    index * self.element_size == old_len,
            ;
        }
        write_bytes(&mut self.data, old_len, &data);
        proof {
            assert(self.bitmap.bits().len() == index + 1);
            lemma_records_after_write(pre, *self, index as int, pre.nslots(), data@);
        }
        Key { index }
    }

    /// The record width the table was created with.
    pub fn element_size(&self) -> (r: usize)
        ensures
            r == self.width(),
    {
        self.element_size
    }
}

/// After writing `v` into slot `i` of a table whose other bytes are
/// untouched, slot `i` reads back `v` and every other slot is unchanged.
proof fn lemma_records_after_write<Store: Extent>(
    pre: DatabaseTable<Store>,
    post: DatabaseTable<Store>,
    i: int,
    n: int,
    v: Seq<u8>,
)
    requires
        post.element_size == pre.element_size,
        v.len() == pre.element_size,
        0 <= i,
        0 <= n,
        (i + 1) * pre.element_size as int <= post.data.bytes().len(),
        n * pre.element_size as int <= pre.data.bytes().len(),
        post.data.bytes().len() >= pre.data.bytes().len(),
        forall|j: int|
            0 <= j < v.len() ==> #[trigger] post.data.bytes()[i * pre.element_size + j] == v[j],
        forall|t: int|
            0 <= t < pre.data.bytes().len() && !(i * pre.element_size <= t < i * pre.element_size
                + pre.element_size) ==> post.data.bytes()[t] == pre.data.bytes()[t],
    ensures
        post.record(i) == v,
        forall|j: int| 0 <= j < n && j != i ==> post.record(j) == pre.record(j),
{
    let es = pre.element_size as int;
    assert((i + 1) * es == i * es + es) by (nonlinear_arith);
    assert(i * es >= 0) by (nonlinear_arith)
        requires
            i >= 0,
            es >= 0,
    ;
    assert forall|j: int| 0 <= j < v.len() implies post.record(i)[j] == v[j] by {
        assert(post.data.bytes()[i * pre.element_size + j] == v[j]);
    }
    assert(post.record(i) =~= v);
    assert forall|j: int| 0 <= j < n && j != i implies post.record(j) == pre.record(j) by {
        assert(j * es + es == (j + 1) * es) by (nonlinear_arith);
        assert((j + 1) * es <= n * es) by (nonlinear_arith)
            requires
                j + 1 <= n,
                es >= 0,
        ;
        assert(j * es >= 0) by (nonlinear_arith)
            requires
                j >= 0,
                es >= 0,
        ;
        assert forall|t: int| j * es <= t < j * es + es implies post.data.bytes()[t]
            == pre.data.bytes()[t] by {
            if j < i {
                assert(t < i * es) by (nonlinear_arith)
                    requires
                        t < (j + 1) * es,
                        (j + 1) * es == j * es + es,
                        j + 1 <= i,
                        es >= 0,
                ;
            } else {
                assert(t >= i * es + es) by (nonlinear_arith)
                    requires
                        t >= j * es,
                        j >= i + 1,
                        es >= 0,
                ;
            }
        }
        assert forall|t: int| 0 <= t < es implies post.record(j)[t] == pre.record(j)[t] by {
            assert(post.data.bytes()[j * es + t] == pre.data.bytes()[j * es + t]);
        }
        assert(post.record(j) =~= pre.record(j));
    }
}

/// Decodes a `u32` from the first four bytes of `data`, little-endian.
pub fn from_binary(data: Vec<u8>) -> (r: u32)
    requires
        data@.len() >= 4,
    ensures
        r == crate::codec::le_at(data@, 0, 4),
{
    proof {
        crate::codec::lemma_le_at_bound(data@, 0, 4);
        crate::codec::lemma_pow256_values();
    }
    let v = crate::codec::read_le_vec(&data, 0, 4);
    v as u32
}

} // verus!
