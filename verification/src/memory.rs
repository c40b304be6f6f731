//! Memory banks: fixed-size arrays of 64-bit cells.
use vstd::prelude::*;

verus! {

/// A bank of 64-bit memory cells.
pub struct Memory(Vec<u64>);

impl View for Memory {
    type V = Seq<u64>;

    closed spec fn view(&self) -> Seq<u64> {
        self.0@
    }
}

/// The cells of every bank of a pool.
pub open spec fn pool_view(pool: Seq<Memory>) -> Seq<Seq<u64>> {
    pool.map_values(|m: Memory| m@)
}

/// `n` zero cells.
pub open spec fn zeros(n: nat) -> Seq<u64> {
    Seq::new(n, |i: int| 0u64)
}

impl Memory {
    /// A bank of `size` cells, all zero.
    pub fn new(size: usize) -> (m: Self)
        ensures
            m@ == zeros(size as nat),
    {
        let mut v: Vec<u64> = Vec::new();
        let mut i: usize = 0;
        while i < size
            invariant
                i <= size,
                v@ == zeros(i as nat),
            decreases size - i,
        {
            v.push(0);
            i = i + 1;
            assert(v@ =~= zeros(i as nat));
        }
        Memory(v)
    }

    /// A bank of 64 cells.
    pub fn small() -> (m: Self)
        ensures
            m@ == zeros(64),
    {
        Memory::new(64)
    }

    /// A bank of 256 cells.
    pub fn medium() -> (m: Self)
        ensures
            m@ == zeros(256),
    {
        Memory::new(256)
    }

    /// A bank of 1024 cells.
    pub fn large() -> (m: Self)
        ensures
            m@ == zeros(1024),
    {
        Memory::new(1024)
    }

    /// The number of cells.
    pub fn len(&self) -> (n: usize)
        ensures
            n == self@.len(),
    {
        self.0.len()
    }

    /// The raw cell data, for display.
    pub fn data(&self) -> (d: &[u64])
        ensures
            d@ == self@,
    {
        self.0.as_slice()
    }

    /// The value of cell `addr`.
    pub fn read(&self, addr: u64) -> (v: u64)
        requires
            addr < self@.len(),
        ensures
            v == self@[addr as int],
    {
        let n = self.0.len();
        assert(addr < n);
        self.0[addr as usize]
    }

    /// Stores `value` in cell `addr`; no other cell changes.
    pub fn write(&mut self, addr: u64, value: u64)
        requires
            addr < old(self)@.len(),
        ensures
            final(self)@ == old(self)@.update(addr as int, value),
    {
        let n = self.0.len();
        assert(addr < n);
        self.0.set(addr as usize, value);
    }

    /// Sets every cell to zero; the size stays.
    pub fn reset(&mut self)
        ensures
            final(self)@ == zeros(old(self)@.len()),
    {
        let n = self.0.len();
        let mut i: usize = 0;
        while i < n
            invariant
                n == self@.len() == old(self)@.len(),
                i <= n,
                forall|j: int| 0 <= j < i ==> self@[j] == 0,
            decreases n - i,
        {
            self.0.set(i, 0);
            i = i + 1;
        }
        assert(self@ =~= zeros(n as nat));
    }
}

/// After `before.write(addr, value)` has left `after`, `after.read(addr)`
/// gives `value`, `after.read(other)` gives what `before.read(other)` gave
/// for every other cell, and the size is the same.
pub proof fn law_memory_read_after_write(
    before: Memory,
    after: Memory,
    addr: u64,
    value: u64,
    other: u64,
)
    requires
        addr < before@.len(),
        other < before@.len(),
        after@ == before@.update(addr as int, value),
    ensures
        after@.len() == before@.len(),
        after@[addr as int] == value,
        other != addr ==> after@[other as int] == before@[other as int],
{
}

} // verus!
