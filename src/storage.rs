use std::collections::HashMap;
use vstd::prelude::*;

verus! {

broadcast use vstd::std_specs::hash::group_hash_axioms;

/// The data type of a tape cell: an 8-bit unsigned integer that wraps around.
pub type Unit = u8;

/// The number of zeroed cells a dense tape starts with.
pub const MIN_CELLS: usize = 30000;

/// Linear, sequential-access storage of cells with a read/write head.
///
/// Only the cell under the head can be accessed; the tape is wound until
/// the desired cell sits under it. A cell that has never been written
/// reads as zero.
pub trait Tape: Sized {
    /// Well-formedness of the tape's representation.
    spec fn inv(&self) -> bool;

    /// The position of the head.
    spec fn head(&self) -> int;

    /// The value of the cell at position `i`.
    spec fn at(&self, i: int) -> Unit;

    /// Where the head lands when the tape is wound by `offset`.
    spec fn wound(&self, offset: int) -> int;

    /// Whether winding by `offset` keeps the head within machine limits.
    spec fn can_wind(&self, offset: int) -> bool;

    /// Winds the tape `offset` cells to the left (negative) or to the
    /// right (positive). The tape does not wind over its bounds, if any.
    fn wind(&mut self, offset: isize)
        requires
            old(self).inv(),
            old(self).can_wind(offset as int),
        ensures
            final(self).inv(),
            final(self).head() == old(self).wound(offset as int),
            forall|i: int| #[trigger] final(self).at(i) == old(self).at(i),
    ;

    /// A mutable reference to the contents of the cell under the head.
    fn cell(&mut self) -> (r: &mut Unit)
        requires
            old(self).inv(),
        ensures
            *r == old(self).at(old(self).head()),
            final(self).inv(),
            final(self).head() == old(self).head(),
            final(self).at(old(self).head()) == *final(r),
            forall|i: int|
                i != old(self).head() ==> #[trigger] final(self).at(i) == old(self).at(i),
    ;

    /// Replaces the cell under the head by `f` of its value.
    fn mutate<F: Fn(Unit) -> Unit>(&mut self, f: F)
        requires
            old(self).inv(),
            f.requires((old(self).at(old(self).head()),)),
        ensures
            final(self).inv(),
            final(self).head() == old(self).head(),
            f.ensures((old(self).at(old(self).head()),), final(self).at(old(self).head())),
            forall|i: int|
                i != old(self).head() ==> #[trigger] final(self).at(i) == old(self).at(i),
    {
        let v: Unit = *self.cell();
        let n: Unit = f(v);
        let c = self.cell();
        *c = n;
    }
}

/// A tape held in a vector: contiguous, bounded on the left and growing
/// on the right as the head moves past its end. It starts with
/// `MIN_CELLS` zeroed cells.
pub struct VectorTape<T> {
    /// The cells, from position zero on.
    storage: Vec<T>,
    /// The position of the head.
    cur: usize,
}

impl VectorTape<Unit> {
    /// A new tape of `MIN_CELLS` zeroed cells, with the head at zero.
    pub fn new() -> (t: VectorTape<Unit>)
        ensures
            t.inv(),
            t.head() == 0,
            t.len() == MIN_CELLS,
            forall|i: int| #[trigger] t.at(i) == 0,
    {
        let mut storage: Vec<Unit> = Vec::new();
        let mut k: usize = 0;
        while k < MIN_CELLS
            invariant
                k <= MIN_CELLS,
                storage.len() == k,
                forall|i: int| 0 <= i < k ==> #[trigger] storage@[i] == 0,
            decreases MIN_CELLS - k,
        {
            storage.push(0);
            k = k + 1;
        }
        VectorTape { storage, cur: 0 }
    }

    /// The position of the head.
    pub fn position(&self) -> (r: usize)
        requires
            self.inv(),
        ensures
            r == self.head(),
    {
        self.cur
    }

    /// The head of a dense tape is never left of position zero.
    pub proof fn lemma_head_nonneg(&self)
        ensures
            0 <= self.head(),
    {
    }

    /// The number of cells allocated so far.
    pub closed spec fn len(&self) -> nat {
        self.storage@.len()
    }

    /// Appends zeroed cells until position `pos` exists.
    fn grow_to(&mut self, pos: usize)
        requires
            old(self).storage.len() >= MIN_CELLS,
        ensures
            final(self).storage.len() >= MIN_CELLS,
            final(self).cur == old(self).cur,
            final(self).storage.len() > pos,
            final(self).storage.len() >= old(self).storage.len(),
            forall|i: int| #[trigger] final(self).at(i) == old(self).at(i),
    {
        while self.storage.len() <= pos
            invariant
                self.cur == old(self).cur,
                old(self).storage@.len() <= self.storage@.len() <= pos + 1
                    || self.storage@.len() == old(self).storage@.len(),
                forall|i: int|
                    0 <= i < old(self).storage@.len() ==> self.storage@[i] == old(self).storage@[i],
                forall|i: int|
                    old(self).storage@.len() <= i < self.storage@.len() ==> self.storage@[i] == 0,
            decreases pos + 1 - self.storage@.len(),
        {
            self.storage.push(0);
        }
        assert forall|i: int| #[trigger] self.at(i) == old(self).at(i) by {}
    }
}

impl Tape for VectorTape<Unit> {
    closed spec fn inv(&self) -> bool {
        self.storage.len() >= MIN_CELLS && self.cur < self.storage.len()
    }

    closed spec fn head(&self) -> int {
        self.cur as int
    }

    closed spec fn at(&self, i: int) -> Unit {
        if 0 <= i < self.storage.len() {
            self.storage@[i]
        } else {
            0
        }
    }

    /// The head moves by `offset` but stops at position zero.
    open spec fn wound(&self, offset: int) -> int {
        if self.head() + offset < 0 {
            0
        } else {
            self.head() + offset
        }
    }

    open spec fn can_wind(&self, offset: int) -> bool {
        self.head() + offset < usize::MAX
    }

    fn wind(&mut self, offset: isize) {
        let target: usize = if offset < 0 {
            let back: usize = (-(offset as i128)) as usize;
            if back > self.cur { 0 } else { self.cur - back }
        } else {
            self.cur + offset as usize
        };
        self.grow_to(target);
        let ghost grown = *self;
        self.cur = target;
        assert forall|i: int| #[trigger] self.at(i) == grown.at(i) by {}
    }

    fn cell(&mut self) -> (r: &mut Unit) {
        let i: usize = self.cur;
        &mut self.storage[i]
    }
}

/// A tape that allocates cells lazily, on first access, in a hash map. It
/// is unbounded in both directions.
pub struct SparseTape<T> {
    /// The cells that have been accessed, by position.
    storage: HashMap<isize, T>,
    /// The position of the head.
    cur: isize,
}

impl SparseTape<Unit> {
    /// A new, empty tape with the head at zero.
    pub fn new() -> (t: SparseTape<Unit>)
        ensures
            t.inv(),
            t.head() == 0,
            forall|i: int| #[trigger] t.at(i) == 0,
    {
        SparseTape { storage: HashMap::new(), cur: 0 }
    }
}

impl Tape for SparseTape<Unit> {
    closed spec fn inv(&self) -> bool {
        true
    }

    closed spec fn head(&self) -> int {
        self.cur as int
    }

    closed spec fn at(&self, i: int) -> Unit {
        if isize::MIN <= i <= isize::MAX && self.storage@.contains_key(i as isize) {
            self.storage@[i as isize]
        } else {
            0
        }
    }

    /// The head moves by exactly `offset`.
    open spec fn wound(&self, offset: int) -> int {
        self.head() + offset
    }

    open spec fn can_wind(&self, offset: int) -> bool {
        isize::MIN <= self.head() + offset <= isize::MAX
    }

    fn wind(&mut self, offset: isize) {
        self.cur = self.cur + offset;
    }

    fn cell(&mut self) -> (r: &mut Unit) {
        let k: isize = self.cur;
        self.storage.entry(k).or_insert(0)
    }
}

/// A dense tape never winds left of position zero: from the head at zero,
/// winding left by any amount leaves the head at zero.
pub proof fn lemma_dense_left_bound(t: VectorTape<Unit>, offset: int)
    requires
        t.inv(),
        t.head() == 0,
        offset <= 0,
    ensures
        t.wound(offset) == 0,
{
}

/// A dense tape is not bounded on the right: from the head at zero,
/// winding right by `n` reaches position `n`.
pub proof fn lemma_dense_right_unbounded(t: VectorTape<Unit>, n: int)
    requires
        t.inv(),
        t.head() == 0,
        0 <= n,
    ensures
        t.wound(n) == n,
{
}

/// A sparse tape is not clamped in either direction: winding by `-d` and
/// then by `d` brings the head back to where it was.
pub proof fn lemma_sparse_wind_back(t: SparseTape<Unit>, u: SparseTape<Unit>, d: int)
    requires
        u.head() == t.wound(-d),
    ensures
        t.wound(-d) == t.head() - d,
        u.wound(d) == t.head(),
{
}

} // verus!
