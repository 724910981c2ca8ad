//! The byte-addressable storage abstraction that every layer sits on.

use vstd::prelude::*;

verus! {

/// A contiguous, resizable sequence of bytes addressable by `0..len()`.
///
/// Indexed access outside the current length is ruled out by precondition.
/// `resize` preserves the bytes below the smaller of the old and new
/// lengths and zero-fills any bytes gained by growth.
pub trait Extent: Sized {
    /// The bytes currently held, as a mathematical sequence. An
    /// implementation outside the library inherits the default and is
    /// not held to any of the contracts below.
    open spec fn bytes(&self) -> Seq<u8> {
        Seq::<u8>::empty()
    }

    /// The number of addressable bytes.
    fn len(&self) -> (n: usize)
        ensures
            n == self.bytes().len(),
    ;

    /// Reads the byte at index `i`.
    fn get(&self, i: usize) -> (b: u8)
        requires
            i < self.bytes().len(),
        ensures
            b == self.bytes()[i as int],
    ;

    /// Writes the byte at index `i`.
    fn set(&mut self, i: usize, b: u8)
        requires
            i < old(self).bytes().len(),
        ensures
            final(self).bytes() == old(self).bytes().update(i as int, b),
    ;

    /// Changes the length to `new_size`, keeping the bytes below
    /// `min(old, new)` and zero-filling anything gained.
    fn resize(&mut self, new_size: usize)
        ensures
            final(self).bytes().len() == new_size,
            forall|j: int|
                0 <= j < new_size ==> final(self).bytes()[j] == (if j
                    < old(self).bytes().len() {
                    old(self).bytes()[j]
                } else {
                    0u8
                }),
    ;
}

/// The in-memory realisation of [`Extent`]: a plain growable byte buffer.
#[derive(Clone)]
pub struct InMemoryExtent {
    data: Vec<u8>,
}

impl InMemoryExtent {
    /// Creates an empty extent.
    pub fn new() -> (r: Self)
        ensures
            r.bytes() == Seq::<u8>::empty(),
    {
        InMemoryExtent { data: Vec::new() }
    }

    /// Creates an extent holding the given bytes.
    pub fn from_vec(data: Vec<u8>) -> (r: Self)
        ensures
            r.bytes() == data@,
    {
        InMemoryExtent { data }
    }

    /// A copy of the held bytes, the safe snapshot used to reload a table
    /// from an extent that another table still owns.
    pub fn to_vec(&self) -> (r: Vec<u8>)
        ensures
            r@ == self.bytes(),
    {
        let mut out: Vec<u8> = Vec::new();
        let mut i: usize = 0;
        while i < self.data.len()
            invariant
                i <= self.data.len(),
                out@ == self.data@.take(i as int),
            decreases self.data.len() - i,
        {
            out.push(self.data[i]);
            i = i + 1;
            proof {
                assert(self.data@.take(i as int) == self.data@.take(i - 1).push(
                    self.data@[i - 1],
                ));
            }
        }
        proof {
            assert(self.data@.take(self.data@.len() as int) == self.data@);
        }
        out
    }
}

impl Extent for InMemoryExtent {
    closed spec fn bytes(&self) -> Seq<u8> {
        self.data@
    }

    fn len(&self) -> usize {
        self.data.len()
    }

    fn get(&self, i: usize) -> u8 {
        self.data[i]
    }

    fn set(&mut self, i: usize, b: u8) {
        self.data[i] = b;
    }

    fn resize(&mut self, new_size: usize) {
        self.data.resize(new_size, 0u8);
        proof {
            assert forall|j: int| 0 <= j < new_size implies self.data@[j] == (if j < old(self).data@.len() {
                old(self).data@[j]
            } else {
                0u8
            }) by {
            }
        }
    }
}

/// Copies `data` into the extent starting at `start`, touching nothing else.
pub fn write_bytes<E: Extent>(e: &mut E, start: usize, data: &Vec<u8>)
    requires
        start + data@.len() <= old(e).bytes().len(),
    ensures
        final(e).bytes().len() == old(e).bytes().len(),
        forall|i: int|
            0 <= i < old(e).bytes().len() && !(start <= i < start + data@.len()) ==> final(e).bytes()[i] == old(e).bytes()[i],
        forall|j: int| 0 <= j < data@.len() ==> #[trigger] final(e).bytes()[start + j] == data@[j],
{
    let total = e.len();
    let n = data.len();
    let mut i: usize = 0;
    while i < n
        invariant
            i <= n == data@.len(),
            start + n <= total == e.bytes().len(),
            e.bytes().len() == old(e).bytes().len(),
            forall|t: int|
                0 <= t < old(e).bytes().len() && !(start <= t < start + i) ==> e.bytes()[t] == old(e).bytes()[t],
            forall|j: int| 0 <= j < i ==> #[trigger] e.bytes()[start + j] == data@[j],
        decreases n - i,
    {
        e.set(start + i, data[i]);
        i = i + 1;
    }
}

/// Copies `data[src .. src + n]` into the extent at `dst`, touching
/// nothing else.
pub fn write_slice<E: Extent>(e: &mut E, dst: usize, data: &Vec<u8>, src: usize, n: usize)
    requires
        dst + n <= old(e).bytes().len(),
        src + n <= data@.len(),
    ensures
        final(e).bytes().len() == old(e).bytes().len(),
        forall|i: int|
            0 <= i < old(e).bytes().len() && !(dst <= i < dst + n) ==> final(e).bytes()[i] == old(
                e,
            ).bytes()[i],
        forall|j: int| 0 <= j < n ==> #[trigger] final(e).bytes()[dst + j] == data@[src + j],
{
    let total = e.len();
    let dlen = data.len();
    let mut i: usize = 0;
    while i < n
        invariant
            i <= n,
            dst + n <= total == e.bytes().len(),
            src + n <= dlen == data@.len(),
            e.bytes().len() == old(e).bytes().len(),
            forall|t: int|
                0 <= t < old(e).bytes().len() && !(dst <= t < dst + i) ==> e.bytes()[t] == old(
                    e,
                ).bytes()[t],
            forall|j: int| 0 <= j < i ==> #[trigger] e.bytes()[dst + j] == data@[src + j],
        decreases n - i,
    {
        e.set(dst + i, data[src + i]);
        i = i + 1;
    }
}

/// Reads `n` bytes of the extent starting at `start`.
pub fn read_bytes<E: Extent>(e: &E, start: usize, n: usize) -> (r: Vec<u8>)
    requires
        start + n <= e.bytes().len(),
    ensures
        r@ == e.bytes().subrange(start as int, start + n),
{
    let total = e.len();
    let mut out: Vec<u8> = Vec::new();
    let mut i: usize = 0;
    while i < n
        invariant
            i <= n,
            start + n <= total == e.bytes().len(),
            out@ == e.bytes().subrange(start as int, start + i),
        decreases n - i,
    {
        out.push(e.get(start + i));
        i = i + 1;
        proof {
            assert(e.bytes().subrange(start as int, start + i) =~= e.bytes().subrange(
                start as int,
                start + i - 1,
            ).push(e.bytes()[start + i - 1]));
        }
    }
    out
}

} // verus!
